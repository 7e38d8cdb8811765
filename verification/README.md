# bintree

Decodes packed binary data into JSON by a schema. A schema is a row of fields;
a field is a number of so many bits, a group of fields, or a loop over fields. A
number can select one of several cases, which may describe further fields, or be
put through an expression.

```json
{
    "branches": [
        { "name": "count", "type": "u8" },
        { "name": "kind", "type": "u8", "match": { "0": "none", "ge_1": "some" } },
        { "name": "items", "loop_count": "count", "branches": [
            { "name": "item", "type": "u16" }
        ] }
    ]
}
```

On the bytes `01 05 e8 03` this gives

```json
{ "count": 1, "kind": 5, "kind_matched": "some", "items": [{ "item": 1000 }] }
```

## Fields

- `type` is `u8`, `u16`, `u32`, `u64`, `i16`, `f32` or `f64`, each with an
  optional `_le` or `_be`, which makes no difference; or `u` with a number of
  bits. The least significant bit of a byte comes first. `u0` reads nothing and
  takes up the number known by the name of the field.
- `match` maps the text of a number, or a comparison (`gt_`, `ge_`, `lt_` or
  `le_` with a threshold), to a value or to an object with `branches`. The first
  case in key order that holds stands beside the number, under the field's name
  with `_matched` added.
- `eval` is an expression over `value_int`, `value_float` and `value_string`,
  whose value takes the place of the number.
- `loop_count` is a number, or the name of an earlier number. A loop ends early
  where the data does.
- `branches` are nested fields.

Where the data ends within a number, what was parsed before it is returned with
a message. In a dry run nothing is read and every number is zero.

## Layout

- `src/tree.rs` parses packets; what it computes is stated in `src/packet.rs`.
- `src/schema.rs`, `src/json.rs` and `src/number.rs` hold schemas and JSON values.
- `src/field.rs`, `src/bits.rs` and `src/float.rs` read single fields.
- `src/eval.rs` evaluates expressions, `src/guard.rs` holds functions for them, and
  `src/portable.rs` tells which come out the same everywhere.
- `src/laws.rs` and the files under `src/laws` state what holds of the whole.
- `app/` offers the decoder on the values of `serde_json`.

The library is written in Verus: every function in `src/` is proved to meet its
contract. What is taken for granted of the crates `bitter`, `evalexpr` and
`serde_json` stands in the functions marked `external_body`.
