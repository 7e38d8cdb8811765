//! Laws of schemas and of the JSON values that describe them.

use vstd::prelude::*;

use crate::json::{lookup, values_of, Json, JsonMap, JsonView};
use crate::number::Number;
use crate::schema::{
    branch_of, branches_of, lemma_branches_of_items, lemma_branches_view, schema_view, tree_of,
    Branch, BranchView,
};

verus! {

/// A JSON value describes a schema where it is an object with an array under
/// `branches`, or an array of such an array alone, and each item of that array
/// describes a field. The schema has a field for each item, in the same order.
pub proof fn a_schema_has_a_field_for_each_item(json: JsonView, items: Seq<JsonView>)
    requires
        match json {
            JsonView::Object(entries) => lookup(entries, "branches"@) == Some(
                JsonView::Array(items),
            ),
            JsonView::Array(parts) => parts.len() == 1 && parts[0] == JsonView::Array(items),
            _ => false,
        },
    ensures
        tree_of(json) is Some <==> forall|i: int|
            0 <= i < items.len() ==> branch_of(#[trigger] items[i]) is Some,
        tree_of(json) matches Some(fields) ==> {
            &&& fields.len() == items.len()
            &&& forall|i: int|
                0 <= i < items.len() ==> branch_of(#[trigger] items[i]) == Some(fields[i])
        },
{
    lemma_branches_of_items(items);
}

/// No other JSON value describes a schema.
pub proof fn what_describes_no_schema(json: JsonView)
    requires
        match json {
            JsonView::Object(entries) => !(lookup(entries, "branches"@) matches Some(
                JsonView::Array(_),
            )),
            JsonView::Array(parts) => !(parts.len() == 1 && parts[0] is Array),
            _ => true,
        },
    ensures
        tree_of(json) is None,
{
}

/// Fields are described one by one, in their order.
pub proof fn fields_are_described_one_by_one(items: Seq<JsonView>, item: JsonView)
    ensures
        branches_of(Seq::empty()) == Some(Seq::<BranchView>::empty()),
        branches_of(items.push(item)) == match (branches_of(items), branch_of(item)) {
            (Some(fields), Some(field)) => Some(fields.push(field)),
            _ => None,
        },
{
    assert(items.push(item).drop_last() =~= items);
}

/// The parts of the description of a field are the values under their keys, or
/// the items of an array of all seven in their order. The name has to be a text.
/// The type and the expression are texts, the cases an object, the nested fields
/// an array of descriptions, the count of a loop any value, and whether the field
/// is optional a boolean; each of these may be missing or null, and is nothing
/// then.
pub proof fn parts_of_the_description_of_a_field(
    json: JsonView,
    name: Option<JsonView>,
    field_type: Option<JsonView>,
    cases: Option<JsonView>,
    loop_count: Option<JsonView>,
    nested: Option<JsonView>,
    optional: Option<JsonView>,
    eval: Option<JsonView>,
    field: BranchView,
)
    requires
        match json {
            JsonView::Object(entries) => {
                &&& name == lookup(entries, "name"@)
                &&& field_type == lookup(entries, "type"@)
                &&& cases == lookup(entries, "match"@)
                &&& loop_count == lookup(entries, "loop_count"@)
                &&& nested == lookup(entries, "branches"@)
                &&& optional == lookup(entries, "optional"@)
                &&& eval == lookup(entries, "eval"@)
            },
            JsonView::Array(items) => {
                &&& items.len() == 7
                &&& name == Some(items[0])
                &&& field_type == Some(items[1])
                &&& cases == Some(items[2])
                &&& loop_count == Some(items[3])
                &&& nested == Some(items[4])
                &&& optional == Some(items[5])
                &&& eval == Some(items[6])
            },
            _ => false,
        },
    ensures
        branch_of(json) == Some(field) <==> {
            &&& name == Some(JsonView::String(field.name))
            &&& match field_type {
                None => field.field_type is None,
                Some(JsonView::Null) => field.field_type is None,
                Some(JsonView::String(text)) => field.field_type == Some(text),
                Some(_) => false,
            }
            &&& match cases {
                None => field.match_cases is None,
                Some(JsonView::Null) => field.match_cases is None,
                Some(JsonView::Object(entries)) => field.match_cases == Some(entries),
                Some(_) => false,
            }
            &&& match loop_count {
                None => field.loop_count is None,
                Some(JsonView::Null) => field.loop_count is None,
                Some(value) => field.loop_count == Some(value),
            }
            &&& match nested {
                None => field.branches is None,
                Some(JsonView::Null) => field.branches is None,
                Some(JsonView::Array(items)) => branches_of(items) is Some && field.branches
                    == branches_of(items),
                Some(_) => false,
            }
            &&& match optional {
                None => field.optional is None,
                Some(JsonView::Null) => field.optional is None,
                Some(JsonView::Bool(b)) => field.optional == Some(b),
                Some(_) => false,
            }
            &&& match eval {
                None => field.eval is None,
                Some(JsonView::Null) => field.eval is None,
                Some(JsonView::String(text)) => field.eval == Some(text),
                Some(_) => false,
            }
        },
{
}

/// No other JSON value describes a field.
pub proof fn what_describes_no_field(json: JsonView)
    requires
        match json {
            JsonView::Object(_) => false,
            JsonView::Array(items) => items.len() != 7,
            _ => true,
        },
    ensures
        branch_of(json) is None,
{
}

/// The value of a row of fields has the value of each of them in its place.
pub proof fn values_of_fields(fields: Seq<Branch>, i: int)
    requires
        0 <= i < fields.len(),
    ensures
        schema_view(fields).len() == fields.len(),
        schema_view(fields)[i] == fields[i]@,
{
}

/// The value of a field has the values of its parts.
pub proof fn value_of_a_field(field: Branch)
    ensures
        field@.name == field.name@,
        match field.field_type {
            Some(text) => field@.field_type == Some(text@),
            None => field@.field_type is None,
        },
        match field.match_cases {
            Some(cases) => field@.match_cases == Some(cases@),
            None => field@.match_cases is None,
        },
        match field.loop_count {
            Some(count) => field@.loop_count == Some(count@),
            None => field@.loop_count is None,
        },
        match field.branches {
            Some(fields) => {
                &&& field@.branches matches Some(nested)
                &&& nested.len() == fields@.len()
                &&& forall|i: int|
                    0 <= i < nested.len() ==> #[trigger] nested[i] == fields@[i]@
            },
            None => field@.branches is None,
        },
        field@.optional == field.optional,
        match field.eval {
            Some(text) => field@.eval == Some(text@),
            None => field@.eval is None,
        },
{
    lemma_branches_view(field);
}

/// The value of a JSON value is of its kind and has the values of what it holds.
pub proof fn value_of_json(
    b: bool,
    number: Number,
    text: String,
    items: Vec<Json>,
    map: JsonMap,
)
    ensures
        Json::Null@ == JsonView::Null,
        Json::Bool(b)@ == JsonView::Bool(b),
        Json::Number(number)@ == JsonView::Number(number@),
        Json::String(text)@ == JsonView::String(text@),
        Json::Array(items)@ matches JsonView::Array(values) && {
            &&& values.len() == items@.len()
            &&& forall|i: int| 0 <= i < values.len() ==> #[trigger] values[i] == items@[i]@
        },
        Json::Object(map)@ == JsonView::Object(map@),
{
}

/// The values of a row of JSON values are theirs, in their order.
pub proof fn values_of_a_row(items: Seq<Json>, i: int)
    requires
        0 <= i < items.len(),
    ensures
        values_of(items).len() == items.len(),
        values_of(items)[i] == items[i]@,
{
}

} // verus!
