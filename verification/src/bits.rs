//! Bit fields of a byte string, the least significant bit of each byte first.

use vstd::prelude::*;
use vstd::arithmetic::power2::pow2;
use vstd::slice::slice_subrange;

use bitter::BitReader;

use crate::text::{decimal, decimal_text};

verus! {

/// Bit `i` of a byte string.
pub open spec fn bit_at(data: Seq<u8>, i: int) -> bool {
    (data[i / 8] >> ((i % 8) as u8)) % 2 == 1
}

/// The bits of a byte string.
pub open spec fn bits_of(data: Seq<u8>) -> Seq<bool> {
    Seq::new(8 * data.len(), |i: int| bit_at(data, i))
}

/// The number that a row of bits stands for, the least significant bit first.
pub open spec fn bits_value(bits: Seq<bool>) -> nat
    decreases bits.len(),
{
    if bits.len() == 0 {
        0
    } else {
        (if bits[0] {
            1nat
        } else {
            0nat
        }) + 2 * bits_value(bits.skip(1))
    }
}

/// Whether a field of `width` bits at bit `offset` lies within the data.
pub open spec fn has_field(data: Seq<u8>, offset: int, width: int) -> bool {
    width == 0 || offset + width <= 8 * data.len()
}

/// The value of the field of `width` bits at bit `offset`.
pub open spec fn field_value(data: Seq<u8>, offset: int, width: int) -> nat {
    if width == 0 {
        0
    } else {
        bits_value(bits_of(data).subrange(offset, offset + width))
    }
}

/// The message of a read past the end of the data.
pub open spec fn read_failure(data_bits: nat, offset: nat, width: nat) -> Seq<char> {
    "Read failed: data len bits "@ + decimal(data_bits) + " bit_offset "@ + decimal(offset)
        + " attempt read num_bits: "@ + decimal(width)
}

/// The bit reader of the `bitter` crate that takes the least significant bit
/// of each byte first.
#[verifier::external_type_specification]
#[verifier::external_body]
pub struct ExLittleEndianReader<'a>(bitter::LittleEndianReader<'a>);

/// The bits that a reader has not handed out yet.
pub uninterp spec fn unread(reader: bitter::LittleEndianReader<'_>) -> Seq<bool>;

/// `bitter::LittleEndianReader::new`: a reader before the first bit of `data`.
#[verifier::external_body]
fn reader_on(data: &[u8]) -> (r: bitter::LittleEndianReader<'_>)
    ensures
        unread(r) == bits_of(data@),
{
    bitter::LittleEndianReader::new(data)
}

/// `bitter::BitReader::read_bits`: takes the next `width` bits, the first one
/// as the least significant, or nothing where fewer are left. More than 64 are
/// not to be asked for.
#[verifier::external_body]
fn take_bits(reader: &mut bitter::LittleEndianReader<'_>, width: u32) -> (r: Option<u64>)
    requires
        width <= 64,
    ensures
        match r {
            Some(value) => {
                &&& width <= unread(*old(reader)).len()
                &&& value == bits_value(unread(*old(reader)).take(width as int))
                &&& unread(*final(reader)) == unread(*old(reader)).skip(width as int)
            },
            None => {
                &&& width > unread(*old(reader)).len()
                &&& unread(*final(reader)) == unread(*old(reader))
            },
        },
{
    reader.read_bits(width)
}

/// The message of a read past the end of the data.
fn read_failure_text(data_bits: usize, offset: usize, width: u32) -> (r: String)
    ensures
        r@ == read_failure(data_bits as nat, offset as nat, width as nat),
{
    let head = String::from_str("Read failed: data len bits ").concat(
        decimal_text(data_bits as u64).as_str(),
    );
    let middle = head.concat(" bit_offset ").concat(decimal_text(offset as u64).as_str());
    middle.concat(" attempt read num_bits: ").concat(decimal_text(width as u64).as_str())
}

/// A row of bits stands for a number below two to the power of its length.
pub proof fn lemma_bits_value_bound(bits: Seq<bool>)
    ensures
        bits_value(bits) < pow2(bits.len()),
    decreases bits.len(),
{
    if bits.len() == 0 {
        vstd::arithmetic::power2::lemma2_to64();
    } else {
        lemma_bits_value_bound(bits.skip(1));
        vstd::arithmetic::power2::lemma_pow2_unfold(bits.len());
    }
}

/// The bits of a byte string without its first `n` bytes.
pub proof fn lemma_bits_of_skip(data: Seq<u8>, n: int)
    requires
        0 <= n <= data.len(),
    ensures
        bits_of(data.skip(n)) == bits_of(data).skip(8 * n),
{
    let a = bits_of(data.skip(n));
    let b = bits_of(data).skip(8 * n);
    assert forall|i: int| 0 <= i < a.len() implies a[i] == b[i] by {
        assert((i + 8 * n) / 8 == i / 8 + n);
        assert((i + 8 * n) % 8 == i % 8);
        assert(data.skip(n)[i / 8] == data[i / 8 + n]);
    }
    assert(a =~= b);
}

/// Reads the field of `num_bits` bits at bit `bit_offset` and returns its value
/// and the offset behind it, or the message of the failure where the field
/// does not lie within the data.
pub fn read_bits(data: &[u8], bit_offset: usize, num_bits: u32) -> (r: Result<
    (u64, usize),
    String,
>)
    requires
        bit_offset / 8 <= data@.len(),
        num_bits <= 64,
        8 * data@.len() <= usize::MAX,
    ensures
        match r {
            Ok((value, new_offset)) => {
                &&& has_field(data@, bit_offset as int, num_bits as int)
                &&& value == field_value(data@, bit_offset as int, num_bits as int)
                &&& new_offset == bit_offset + num_bits
            },
            Err(message) => {
                &&& !has_field(data@, bit_offset as int, num_bits as int)
                &&& message@ == read_failure(8 * data@.len(), bit_offset as nat, num_bits as nat)
            },
        },
{
    let n_bytes_to_skip: usize = bit_offset / 8;
    let n_bits_to_skip: u32 = (bit_offset % 8) as u32;
    let rest = slice_subrange(data, n_bytes_to_skip, data.len());
    let mut reader = reader_on(rest);
    let ghost all = bits_of(data@);
    proof {
        assert(rest@ =~= data@.skip(n_bytes_to_skip as int));
        lemma_bits_of_skip(data@, n_bytes_to_skip as int);
        assert(8 * n_bytes_to_skip + n_bits_to_skip == bit_offset);
    }
    if n_bits_to_skip > 0 {
        let _ = take_bits(&mut reader, n_bits_to_skip);
    }
    assert(bit_offset <= all.len() ==> unread(reader) =~= all.skip(bit_offset as int));
    assert(bit_offset > all.len() ==> unread(reader).len() == 0);
    let ghost before = unread(reader);
    match take_bits(&mut reader, num_bits) {
        Some(value) => {
            proof {
                if num_bits > 0 {
                    assert(before.take(num_bits as int) =~= all.subrange(
                        bit_offset as int,
                        bit_offset + num_bits,
                    ));
                }
            }
            Ok((value, bit_offset + num_bits as usize))
        },
        None => Err(read_failure_text(data.len() * 8, bit_offset, num_bits)),
    }
}

} // verus!
