//! JSON numbers: integers and finite binary64 numbers.

use vstd::prelude::*;

use crate::float::{finite_double, is_finite_double};
use crate::text::decimal;

verus! {

/// A JSON number by its shape.
#[derive(Clone, Copy, Debug, PartialEq, Eq)]
pub enum NumberView {
    /// An integer that is not negative.
    PosInt(u64),
    /// A negative integer.
    NegInt(i64),
    /// A finite binary64 number, by its bit pattern.
    Float(u64),
}

/// A JSON number.
#[derive(Clone, Copy, Debug)]
pub struct Number {
    shape: NumberView,
}

/// Whether two numbers compare as equal: they are the same, or zeros of either
/// sign.
pub open spec fn equal_numbers(a: NumberView, b: NumberView) -> bool {
    match (a, b) {
        (NumberView::Float(x), NumberView::Float(y)) => x == y || (x % 0x8000_0000_0000_0000 == 0
            && y % 0x8000_0000_0000_0000 == 0),
        _ => a == b,
    }
}

impl PartialEq for Number {
    fn eq(&self, other: &Number) -> (r: bool) {
        match (self.shape, other.shape) {
            (NumberView::PosInt(x), NumberView::PosInt(y)) => x == y,
            (NumberView::NegInt(x), NumberView::NegInt(y)) => x == y,
            (NumberView::Float(x), NumberView::Float(y)) => x == y || (x % 0x8000_0000_0000_0000
                == 0 && y % 0x8000_0000_0000_0000 == 0),
            _ => false,
        }
    }
}

impl vstd::std_specs::cmp::PartialEqSpecImpl for Number {
    open spec fn obeys_eq_spec() -> bool {
        true
    }

    open spec fn eq_spec(&self, other: &Number) -> bool {
        equal_numbers(self@, other@)
    }
}

impl Eq for Number {

}

impl NumberView {
    /// What holds of the shape of every number.
    pub open spec fn well_formed(self) -> bool {
        match self {
            NumberView::PosInt(_) => true,
            NumberView::NegInt(i) => i < 0,
            NumberView::Float(bits) => finite_double(bits),
        }
    }

    /// The number as an `i64`, where it is an integer in that range.
    pub open spec fn as_i64(self) -> Option<i64> {
        match self {
            NumberView::PosInt(u) => if u <= i64::MAX {
                Some(u as i64)
            } else {
                None
            },
            NumberView::NegInt(i) => Some(i),
            NumberView::Float(_) => None,
        }
    }

    /// The number as a `u64`, where it is an integer that is not negative.
    pub open spec fn as_u64(self) -> Option<u64> {
        match self {
            NumberView::PosInt(u) => Some(u),
            NumberView::NegInt(_) => None,
            NumberView::Float(_) => None,
        }
    }

    /// The integer `i` as a number.
    pub open spec fn of_int(i: i64) -> NumberView {
        if i < 0 {
            NumberView::NegInt(i)
        } else {
            NumberView::PosInt(i as u64)
        }
    }

    /// The number as JSON writes it.
    pub open spec fn text(self) -> Seq<char> {
        match self {
            NumberView::PosInt(u) => decimal(u as nat),
            NumberView::NegInt(i) => seq!['-'] + decimal((-i) as nat),
            NumberView::Float(bits) => float_text(bits),
        }
    }
}

/// The text that `serde_json::Number` gives the finite binary64 number with
/// this bit pattern.
pub uninterp spec fn float_text(bits: u64) -> Seq<char>;

/// `serde_json::Number::to_string`: an integer in decimal notation, with a minus
/// sign before a negative one; a binary64 number as `float_text` names it.
#[verifier::external_body]
fn shape_text(shape: NumberView) -> (r: String)
    requires
        shape.well_formed(),
    ensures
        match shape {
            NumberView::PosInt(u) => r@ == decimal(u as nat),
            NumberView::NegInt(i) => r@ == seq!['-'] + decimal((-i) as nat),
            NumberView::Float(bits) => r@ == float_text(bits),
        },
{
    match shape {
        NumberView::PosInt(u) => serde_json::Number::from(u).to_string(),
        NumberView::NegInt(i) => serde_json::Number::from(i).to_string(),
        NumberView::Float(bits) => {
            serde_json::Number::from_f64(evalexpr::FloatType::from_bits(bits)).unwrap().to_string()
        },
    }
}

impl Number {
    #[verifier::type_invariant]
    closed spec fn type_wf(self) -> bool {
        self.shape.well_formed()
    }

    /// The shape of the number.
    pub closed spec fn view(&self) -> NumberView {
        self.shape
    }

    /// The shape of the number, which is well formed.
    pub fn shape(&self) -> (r: NumberView)
        ensures
            r == self@,
            r.well_formed(),
    {
        proof {
            use_type_invariant(self);
        }
        self.shape
    }

    /// An integer that is not negative.
    pub fn from_u64(value: u64) -> (r: Number)
        ensures
            r@ == NumberView::PosInt(value),
    {
        Number { shape: NumberView::PosInt(value) }
    }

    /// An integer.
    pub fn from_i64(value: i64) -> (r: Number)
        ensures
            r@ == NumberView::of_int(value),
    {
        if value < 0 {
            Number { shape: NumberView::NegInt(value) }
        } else {
            Number { shape: NumberView::PosInt(value as u64) }
        }
    }

    /// The binary64 number with this bit pattern, where it is finite.
    pub fn from_double_bits(bits: u64) -> (r: Option<Number>)
        ensures
            match r {
                Some(n) => finite_double(bits) && n@ == NumberView::Float(bits),
                None => !finite_double(bits),
            },
    {
        if is_finite_double(bits) {
            Some(Number { shape: NumberView::Float(bits) })
        } else {
            None
        }
    }

    /// The number as an `i64`, where it is an integer in that range.
    pub fn as_i64(&self) -> (r: Option<i64>)
        ensures
            r == self@.as_i64(),
    {
        match self.shape {
            NumberView::PosInt(u) => if u <= 0x7fff_ffff_ffff_ffff {
                Some(u as i64)
            } else {
                None
            },
            NumberView::NegInt(i) => Some(i),
            NumberView::Float(_) => None,
        }
    }

    /// The number as a `u64`, where it is an integer that is not negative.
    pub fn as_u64(&self) -> (r: Option<u64>)
        ensures
            r == self@.as_u64(),
    {
        match self.shape {
            NumberView::PosInt(u) => Some(u),
            NumberView::NegInt(_) => None,
            NumberView::Float(_) => None,
        }
    }

    /// The number as JSON writes it.
    pub fn text(&self) -> (r: String)
        ensures
            r@ == self@.text(),
        {
        proof {
            use_type_invariant(self);
        }
        shape_text(self.shape)
    }
}

} // verus!
