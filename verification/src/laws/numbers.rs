//! Laws of bit fields and of numbers.

use vstd::prelude::*;
use vstd::arithmetic::power2::{lemma2_to64, lemma_pow2_adds, lemma_pow2_unfold, pow2};

use crate::bits::{
    bits_of, bits_value, field_value, has_field, lemma_bits_of_skip, lemma_bits_value_bound,
};
use crate::field::widened;
use crate::float::{
    finite_double, finite_single, lemma_same_number_unique, lemma_widen_subnormal,
    lemma_widened_exists, lemma_widened_pattern,
};
use crate::number::{equal_numbers, NumberView};
use crate::text::{decimal, digits_value, is_digits, parsed_i64};

verus! {

/// A row of bits in two parts stands for the first part and, that many places
/// higher, the second.
pub proof fn bits_in_two_parts(bits: Seq<bool>, k: int)
    requires
        0 <= k <= bits.len(),
    ensures
        bits_value(bits) == bits_value(bits.take(k)) + pow2(k as nat) * bits_value(bits.skip(k)),
    decreases k,
{
    lemma2_to64();
    if k == 0 {
        assert(bits.skip(0) =~= bits);
        assert(bits.take(0) =~= Seq::<bool>::empty());
    } else {
        let rest = bits.skip(1);
        bits_in_two_parts(rest, k - 1);
        assert(bits.take(k).skip(1) =~= rest.take(k - 1));
        assert(bits.skip(k) =~= rest.skip(k - 1));
        lemma_pow2_unfold(k as nat);
        let p = pow2((k - 1) as nat);
        let v = bits_value(bits.skip(k));
        assert(2 * (p * v) == (2 * p) * v) by (nonlinear_arith);
    }
}

/// Two adjacent fields read one after the other are the field over both: the
/// first one holds the low bits.
pub proof fn adjacent_fields(data: Seq<u8>, offset: int, a: int, b: int)
    requires
        0 <= offset,
        0 <= a,
        0 <= b,
        offset + a + b <= 8 * data.len(),
    ensures
        field_value(data, offset, a + b) == field_value(data, offset, a) + pow2(a as nat)
            * field_value(data, offset + a, b),
{
    let bits = bits_of(data).subrange(offset, offset + a + b);
    bits_in_two_parts(bits, a);
    assert(bits.take(a) =~= bits_of(data).subrange(offset, offset + a));
    assert(bits.skip(a) =~= bits_of(data).subrange(offset + a, offset + a + b));
    assert(bits.skip(a).len() == b);
    if b == 0 {
        assert(pow2(a as nat) * 0 == 0) by (nonlinear_arith);
    }
}

/// A field holds a number below two to the power of its width.
pub proof fn field_value_bound(data: Seq<u8>, offset: int, width: int)
    requires
        0 <= offset,
        0 <= width,
        has_field(data, offset, width),
    ensures
        field_value(data, offset, width) < pow2(width as nat),
{
    lemma2_to64();
    if width > 0 {
        lemma_bits_value_bound(bits_of(data).subrange(offset, offset + width));
    }
}

/// The lowest bytes of a number, the least significant byte first.
pub open spec fn little_endian(number: nat, bytes: nat) -> Seq<u8>
    decreases bytes,
{
    if bytes == 0 {
        Seq::empty()
    } else {
        seq![(number % 256) as u8] + little_endian(number / 256, (bytes - 1) as nat)
    }
}

proof fn lemma_little_endian_length(number: nat, bytes: nat)
    ensures
        little_endian(number, bytes).len() == bytes,
    decreases bytes,
{
    if bytes > 0 {
        lemma_little_endian_length(number / 256, (bytes - 1) as nat);
    }
}

/// The bits of a byte stand for the byte.
proof fn lemma_byte_value(byte: u8)
    ensures
        bits_value(bits_of(seq![byte])) == byte,
{
    let bits = bits_of(seq![byte]);
    reveal_with_fuel(bits_value, 9);
    assert(forall|i: int| 0 <= i < 8 ==> #[trigger] bits[i] == ((byte >> (i as u8)) % 2 == 1));
    assert(bits.skip(1).skip(1) =~= bits.skip(2));
    assert(bits.skip(2).skip(1) =~= bits.skip(3));
    assert(bits.skip(3).skip(1) =~= bits.skip(4));
    assert(bits.skip(4).skip(1) =~= bits.skip(5));
    assert(bits.skip(5).skip(1) =~= bits.skip(6));
    assert(bits.skip(6).skip(1) =~= bits.skip(7));
    assert(bits.skip(7).skip(1) =~= Seq::<bool>::empty());
    assert(byte == (byte >> 0u8) % 2 + 2 * ((byte >> 1u8) % 2) + 4 * ((byte >> 2u8) % 2) + 8 * ((
    byte >> 3u8) % 2) + 16 * ((byte >> 4u8) % 2) + 32 * ((byte >> 5u8) % 2) + 64 * ((byte >> 6u8)
        % 2) + 128 * ((byte >> 7u8) % 2)) by (bit_vector);
    assert(bits[0] == ((byte >> 0u8) % 2 == 1) && bits[1] == ((byte >> 1u8) % 2 == 1));
    assert(bits[2] == ((byte >> 2u8) % 2 == 1) && bits[3] == ((byte >> 3u8) % 2 == 1));
    assert(bits[4] == ((byte >> 4u8) % 2 == 1) && bits[5] == ((byte >> 5u8) % 2 == 1));
    assert(bits[6] == ((byte >> 6u8) % 2 == 1) && bits[7] == ((byte >> 7u8) % 2 == 1));
}

/// The bits of a number in little-endian bytes stand for the number.
proof fn lemma_little_endian_value(number: nat, bytes: nat)
    requires
        number < pow2(8 * bytes),
    ensures
        bits_value(bits_of(little_endian(number, bytes))) == number,
    decreases bytes,
{
    lemma2_to64();
    let data = little_endian(number, bytes);
    let bits = bits_of(data);
    if bytes == 0 {
        assert(bits =~= Seq::<bool>::empty());
    } else {
        let low = (number % 256) as u8;
        let rest = little_endian(number / 256, (bytes - 1) as nat);
        lemma_pow2_adds(8, (8 * bytes - 8) as nat);
        assert(number / 256 < pow2((8 * bytes - 8) as nat)) by (nonlinear_arith)
            requires
                number < 256 * pow2((8 * bytes - 8) as nat),
        ;
        lemma_little_endian_value(number / 256, (bytes - 1) as nat);
        lemma_byte_value(low);
        assert(data.skip(1) =~= rest);
        lemma_bits_of_skip(data, 1);
        assert(bits.take(8) =~= bits_of(seq![low])) by {
            assert forall|i: int| 0 <= i < 8 implies bits.take(8)[i] == bits_of(seq![low])[i] by {
                assert(i / 8 == 0 && data[0] == low);
            }
        }
        bits_in_two_parts(bits, 8);
    }
}

/// A number in little-endian bytes is the value of the field over these bytes,
/// wherever they stand.
pub proof fn little_endian_bytes_stand_for_their_number(
    before: Seq<u8>,
    number: nat,
    bytes: nat,
    after: Seq<u8>,
)
    requires
        number < pow2(8 * bytes),
    ensures
        little_endian(number, bytes).len() == bytes,
        field_value(
            before + little_endian(number, bytes) + after,
            8 * before.len() as int,
            8 * bytes as int,
        ) == number,
{
    lemma2_to64();
    lemma_little_endian_length(number, bytes);
    lemma_little_endian_value(number, bytes);
    let own = little_endian(number, bytes);
    let data = before + own + after;
    let start = 8 * before.len() as int;
    lemma_bits_of_skip(data, before.len() as int);
    assert(data.skip(before.len() as int) =~= own + after);
    assert(bits_of(own + after).take(8 * bytes as int) =~= bits_of(own)) by {
        assert forall|i: int| 0 <= i < 8 * bytes implies bits_of(own + after)[i] == bits_of(
            own,
        )[i] by {
            assert((own + after)[i / 8] == own[i / 8]);
        }
    }
    assert(bits_of(data).subrange(start, start + 8 * bytes) =~= bits_of(data).skip(start).take(
        8 * bytes as int,
    ));
}

/// Decimal notation is made of digits and stands for the number it is of.
pub proof fn decimal_is_read_back(n: nat)
    ensures
        is_digits(decimal(n)),
        digits_value(decimal(n)) == n,
    decreases n,
{
    let text = decimal(n);
    if n < 10 {
        assert(text.drop_last() =~= Seq::<char>::empty());
        assert(digits_value(Seq::<char>::empty()) == 0);
    } else {
        decimal_is_read_back(n / 10);
        assert(text.drop_last() =~= decimal(n / 10));
        assert forall|i: int| 0 <= i < text.len() implies '0' <= #[trigger] text[i] <= '9' by {
            if i < decimal(n / 10).len() {
                assert(text[i] == decimal(n / 10)[i]);
            }
        }
    }
}

/// The text of an integer in the range of `i64` is read back as that integer.
pub proof fn integer_text_is_read_back(number: NumberView)
    requires
        number.well_formed(),
        number.as_i64() is Some,
    ensures
        parsed_i64(number.text()) == number.as_i64(),
{
    match number {
        NumberView::PosInt(u) => {
            decimal_is_read_back(u as nat);
            let text = decimal(u as nat);
            assert('0' <= text[0] <= '9');
        },
        NumberView::NegInt(i) => {
            decimal_is_read_back((-i) as nat);
            assert(number.text().skip(1) =~= decimal((-i) as nat));
        },
        NumberView::Float(_) => {},
    }
}

/// Two integers with the same text are the same.
pub proof fn integer_texts_differ(a: NumberView, b: NumberView)
    requires
        a.well_formed(),
        b.well_formed(),
        !(a is Float),
        !(b is Float),
        a.text() == b.text(),
    ensures
        a == b,
{
    match (a, b) {
        (NumberView::PosInt(x), NumberView::PosInt(y)) => {
            decimal_is_read_back(x as nat);
            decimal_is_read_back(y as nat);
        },
        (NumberView::NegInt(x), NumberView::NegInt(y)) => {
            decimal_is_read_back((-x) as nat);
            decimal_is_read_back((-y) as nat);
            assert(a.text().skip(1) =~= decimal((-x) as nat));
            assert(b.text().skip(1) =~= decimal((-y) as nat));
        },
        (NumberView::PosInt(x), NumberView::NegInt(_)) => {
            decimal_is_read_back(x as nat);
            assert(a.text()[0] == '-');
        },
        (NumberView::NegInt(_), NumberView::PosInt(y)) => {
            decimal_is_read_back(y as nat);
            assert(b.text()[0] == '-');
        },
        _ => {},
    }
}

/// A field of one bit is that bit of its byte, the least significant one first.
pub proof fn a_single_bit(data: Seq<u8>, offset: int)
    requires
        0 <= offset < 8 * data.len(),
    ensures
        field_value(data, offset, 1) == (data[offset / 8] as int / pow2((offset % 8) as nat) as int)
            % 2,
{
    let bits = bits_of(data).subrange(offset, offset + 1);
    let byte = data[offset / 8];
    reveal_with_fuel(bits_value, 2);
    assert(bits[0] == ((byte >> ((offset % 8) as u8)) % 2 == 1));
    lemma2_to64();
    assert(byte >> 0u8 == byte / 1 && byte >> 1u8 == byte / 2 && byte >> 2u8 == byte / 4 && byte
        >> 3u8 == byte / 8 && byte >> 4u8 == byte / 16 && byte >> 5u8 == byte / 32 && byte >> 6u8
        == byte / 64 && byte >> 7u8 == byte / 128) by (bit_vector);
    let k = offset % 8;
    assert(k == 0 || k == 1 || k == 2 || k == 3 || k == 4 || k == 5 || k == 6 || k == 7);
}

/// An integer that is not negative is an `i64` up to the greatest one and always
/// a `u64`, a negative one an `i64` alone, and a binary64 number neither.
pub proof fn integers_by_their_range(u: u64, i: i64, bits: u64)
    requires
        i < 0,
    ensures
        NumberView::PosInt(u).as_u64() == Some(u),
        NumberView::PosInt(u).as_i64() is Some <==> u <= 0x7fff_ffff_ffff_ffff,
        NumberView::PosInt(u).as_i64() matches Some(value) ==> value == u,
        NumberView::NegInt(i).as_i64() == Some(i),
        NumberView::NegInt(i).as_u64() is None,
        NumberView::Float(bits).as_i64() is None,
        NumberView::Float(bits).as_u64() is None,
{
}

/// An integer as a number has that value, and is negative where it is.
pub proof fn numbers_of_integers(i: i64)
    ensures
        NumberView::of_int(i).well_formed(),
        NumberView::of_int(i).as_i64() == Some(i),
        NumberView::of_int(i) is NegInt <==> i < 0,
        NumberView::of_int(i) is PosInt <==> i >= 0,
{
}

/// An integer is written in decimal notation, with a minus sign where it is
/// negative.
pub proof fn texts_of_integers(u: u64, i: i64)
    requires
        i < 0,
    ensures
        NumberView::PosInt(u).text() == decimal(u as nat),
        NumberView::NegInt(i).text() == seq!['-'] + decimal((-i) as nat),
{
}

/// What holds of the shape of every number: one that is marked as negative is, and
/// a binary64 number is finite.
pub proof fn well_formed_numbers(u: u64, i: i64, bits: u64)
    ensures
        NumberView::PosInt(u).well_formed(),
        NumberView::NegInt(i).well_formed() <==> i < 0,
        NumberView::Float(bits).well_formed() <==> bits % 0x8000_0000_0000_0000
            < 0x7ff0_0000_0000_0000,
{
    which_numbers_are_finite(0, bits);
}

/// A binary32 or binary64 number is finite where its bit pattern without the sign
/// is below that of the infinity.
pub proof fn which_numbers_are_finite(single: u32, double: u64)
    ensures
        finite_single(single) <==> single % 0x8000_0000 < 0x7f80_0000,
        finite_double(double) <==> double % 0x8000_0000_0000_0000 < 0x7ff0_0000_0000_0000,
{
}

/// Two numbers are equal where they are the same, or zeros of either sign.
pub proof fn which_numbers_are_equal(a: NumberView, b: NumberView)
    ensures
        a == b ==> equal_numbers(a, b),
        a != b ==> (equal_numbers(a, b) <==> (a == NumberView::Float(0) && b == NumberView::Float(
            0x8000_0000_0000_0000,
        )) || (b == NumberView::Float(0) && a == NumberView::Float(0x8000_0000_0000_0000))),
{
}

/// The bit pattern of the binary64 number that a binary32 number is, where that
/// one is no subnormal number: it has the same sign, the exponent goes by another
/// bias, and the fraction is followed by zeros. A zero stays one.
pub proof fn widened_numbers(single: u32)
    requires
        finite_single(single),
    ensures
        ({
            let sign = (single / 0x8000_0000) as int;
            let exponent = ((single / 0x80_0000) % 256) as int;
            let fraction = (single % 0x80_0000) as int;
            &&& exponent > 0 ==> widened(single) == sign * 0x8000_0000_0000_0000 + (exponent - 127
                + 1023) * 0x10_0000_0000_0000 + fraction * 0x2000_0000
            &&& exponent == 0 && fraction == 0 ==> widened(single) == sign
                * 0x8000_0000_0000_0000
        }),
{
    lemma_widened_exists(single);
    lemma_widened_pattern(single);
    let sign = (single / 0x8000_0000) as int;
    let exponent = ((single / 0x80_0000) % 256) as int;
    let fraction = (single % 0x80_0000) as int;
    if exponent > 0 {
        let double = sign * 0x8000_0000_0000_0000 + (exponent + 896) * 0x10_0000_0000_0000
            + fraction * 0x2000_0000;
        lemma_same_number_unique(single, widened(single), double as u64);
    } else if fraction == 0 {
        let double = sign * 0x8000_0000_0000_0000;
        lemma_same_number_unique(single, widened(single), double as u64);
    }
}

/// The bit pattern of the binary64 number that a subnormal binary32 number is: its
/// fraction is shifted until the highest bit is at the top, and the exponent is
/// as much smaller.
pub proof fn widened_subnormal_numbers(single: u32, significand: u64, shift: u64)
    requires
        (single / 0x80_0000) % 256 == 0,
        0x80_0000 <= significand < 0x100_0000,
        shift <= 23,
        significand == (single % 0x80_0000) * pow2(shift as nat),
    ensures
        widened(single) == (single / 0x8000_0000) * 0x8000_0000_0000_0000 + (897 - shift)
            * 0x10_0000_0000_0000 + (significand - 0x80_0000) * 0x2000_0000,
{
    lemma_widen_subnormal(single, significand, shift);
    let double = (single / 0x8000_0000) * 0x8000_0000_0000_0000 + (897 - shift)
        * 0x10_0000_0000_0000 + (significand - 0x80_0000) * 0x2000_0000;
    lemma_widened_exists(single);
    lemma_same_number_unique(single, widened(single), double as u64);
}

/// A field lies within the data where it ends there; one without bits lies
/// everywhere and is zero.
pub proof fn where_fields_lie(data: Seq<u8>, offset: int, width: int)
    ensures
        has_field(data, offset, 0),
        field_value(data, offset, 0) == 0,
        width > 0 ==> (has_field(data, offset, width) <==> offset + width <= 8 * data.len()),
{
}

} // verus!
