//! Scalar values: one datum with the type that it was declared with.

use crate::double::Double;
use crate::single::Single;
use vstd::prelude::*;

verus! {

/// A single typed value. Every typed variant may lack its payload; `Null`
/// is the value without a type.
#[derive(Clone, Debug, PartialEq, Eq)]
pub enum ScalarValue {
    Null,
    Boolean(Option<bool>),
    Float32(Option<Single>),
    Float64(Option<Double>),
    Int32(Option<i32>),
    Int64(Option<i64>),
    Utf8(Option<String>),
}

/// What a [`ScalarValue`] holds: the same variants, with a text as the
/// sequence of its characters.
pub enum Scalar {
    Null,
    Boolean(Option<bool>),
    Float32(Option<Single>),
    Float64(Option<Double>),
    Int32(Option<i32>),
    Int64(Option<i64>),
    Utf8(Option<Seq<char>>),
}

/// The four kinds of numbers, from the narrowest to the widest.
pub enum Kind {
    Int32,
    Int64,
    Float32,
    Float64,
}

impl View for ScalarValue {
    type V = Scalar;

    open spec fn view(&self) -> Scalar {
        match *self {
            ScalarValue::Null => Scalar::Null,
            ScalarValue::Boolean(b) => Scalar::Boolean(b),
            ScalarValue::Float32(x) => Scalar::Float32(x),
            ScalarValue::Float64(x) => Scalar::Float64(x),
            ScalarValue::Int32(x) => Scalar::Int32(x),
            ScalarValue::Int64(x) => Scalar::Int64(x),
            ScalarValue::Utf8(None) => Scalar::Utf8(None),
            ScalarValue::Utf8(Some(s)) => Scalar::Utf8(Some(s@)),
        }
    }
}

impl Kind {
    /// The position of the kind among the four.
    pub open spec fn width(self) -> nat {
        match self {
            Kind::Int32 => 0,
            Kind::Int64 => 1,
            Kind::Float32 => 2,
            Kind::Float64 => 3,
        }
    }

    /// The kind in which numbers of the kinds `self` and `other` are
    /// compared: the wider of the two, but `Float64` for `Int64` with
    /// `Float32`, since a binary32 number cannot hold every 64-bit integer
    /// as nearly as a binary64 number does.
    pub open spec fn join(self, other: Kind) -> Kind {
        if self.width() + other.width() == 3 && self.width() != 0 && other.width() != 0 {
            Kind::Float64
        } else if self.width() < other.width() {
            other
        } else {
            self
        }
    }
}

impl Scalar {
    /// The kind of a value that holds a number; `None` for every other
    /// value, a numeric variant without its payload included.
    pub open spec fn kind(self) -> Option<Kind> {
        match self {
            Scalar::Int32(Some(_)) => Some(Kind::Int32),
            Scalar::Int64(Some(_)) => Some(Kind::Int64),
            Scalar::Float32(Some(_)) => Some(Kind::Float32),
            Scalar::Float64(Some(_)) => Some(Kind::Float64),
            _ => None,
        }
    }

    /// Whether there is an order between the two values: both hold a
    /// number, or both a boolean, or both a text.
    pub open spec fn comparable_with(self, other: Scalar) -> bool {
        match (self, other) {
            (Scalar::Boolean(Some(_)), Scalar::Boolean(Some(_))) => true,
            (Scalar::Utf8(Some(_)), Scalar::Utf8(Some(_))) => true,
            _ => self.kind() is Some && other.kind() is Some,
        }
    }

    /// Whether the two values are floating-point numbers of one kind
    /// whose encodings differ where the order of numbers sees no
    /// difference: two NaNs, or the two zeros.
    pub open spec fn confused_with(self, other: Scalar) -> bool {
        match (self, other) {
            (Scalar::Float32(Some(a)), Scalar::Float32(Some(b))) => a.confused_with(b),
            (Scalar::Float64(Some(a)), Scalar::Float64(Some(b))) => a.confused_with(b),
            _ => false,
        }
    }

    /// The number `self` in the kind `to`: an integer is converted to the
    /// nearest number of a floating-point kind, and a binary32 number is
    /// widened. A value that `to` is not wider than stays as it is.
    pub open spec fn promoted(self, to: Kind) -> Scalar {
        match (self, to) {
            (Scalar::Int32(Some(x)), Kind::Int64) => Scalar::Int64(Some(x as i64)),
            (Scalar::Int32(Some(x)), Kind::Float32) => Scalar::Float32(
                Some(Single::of_int(x as int)),
            ),
            (Scalar::Int32(Some(x)), Kind::Float64) => Scalar::Float64(
                Some(Double::of_int(x as int)),
            ),
            (Scalar::Int64(Some(x)), Kind::Float64) => Scalar::Float64(
                Some(Double::of_int(x as int)),
            ),
            (Scalar::Float32(Some(x)), Kind::Float64) => Scalar::Float64(
                Some(Double::of_single(x)),
            ),
            _ => self,
        }
    }
}

} // verus!
