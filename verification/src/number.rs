//! JSON numbers held as plain integers: whole numbers as written, and
//! floating-point numbers by their IEEE-754 double-precision bit pattern.

use vstd::prelude::*;
use crate::order::{int_order, Order};

verus! {

/// The bit pattern's sign bit, as a number.
pub const SIGN_BIT: u64 = 0x8000_0000_0000_0000;

/// The magnitude bits of positive infinity: every exponent bit set, no
/// fraction bit set.
pub const INFINITY_BITS: u64 = 0x7ff0_0000_0000_0000;

/// A JSON number.
#[derive(Clone, Copy, Debug)]
pub enum Number {
    /// A whole number that is zero or more.
    PosInt(u64),
    /// A whole number below zero.
    NegInt(i64),
    /// A double-precision number, by its bit pattern.
    Float(u64),
}

/// The bit pattern without its sign bit.
pub open spec fn magnitude(bits: u64) -> int {
    bits as int % 0x8000_0000_0000_0000
}

/// Whether the sign bit is set.
pub open spec fn is_negative(bits: u64) -> bool {
    bits >= 0x8000_0000_0000_0000
}

/// Whether the bit pattern is a NaN.
pub open spec fn is_nan(bits: u64) -> bool {
    magnitude(bits) > 0x7ff0_0000_0000_0000
}

/// Whether the bit pattern is neither a NaN nor an infinity.
pub open spec fn is_finite(bits: u64) -> bool {
    magnitude(bits) < 0x7ff0_0000_0000_0000
}

/// An integer that orders bit patterns as the numbers they stand for are
/// ordered: the magnitude, negated where the sign bit is set. Both zeros
/// have key 0.
pub open spec fn float_key(bits: u64) -> int {
    if is_negative(bits) {
        -magnitude(bits)
    } else {
        magnitude(bits)
    }
}

/// The IEEE-754 comparison of two bit patterns: none where either is a NaN,
/// else the order of the two numbers.
pub open spec fn float_order(a: u64, b: u64) -> Option<Order> {
    if is_nan(a) || is_nan(b) {
        None
    } else {
        Some(int_order(float_key(a), float_key(b)))
    }
}

/// The bit pattern of the double that stands for the whole number `n`:
/// what `serde_json::Number::as_f64` gives for a number that holds `n`.
pub uninterp spec fn integer_as_float(n: int) -> u64;

impl Number {
    /// The number as a double, by its bit pattern.
    pub open spec fn as_float(self) -> u64 {
        match self {
            Number::PosInt(n) => integer_as_float(n as int),
            Number::NegInt(n) => integer_as_float(n as int),
            Number::Float(bits) => bits,
        }
    }

    /// Equality of JSON numbers: two whole numbers of the same sign class
    /// with the same value, or two doubles that compare equal. A whole
    /// number never equals a double.
    pub open spec fn equals(self, other: Number) -> bool {
        match (self, other) {
            (Number::PosInt(a), Number::PosInt(b)) => a == b,
            (Number::NegInt(a), Number::NegInt(b)) => a == b,
            (Number::Float(a), Number::Float(b)) => float_order(a, b) == Some(Order::Equal),
            _ => false,
        }
    }

    /// The order of two numbers as doubles; none where a NaN is involved.
    pub open spec fn order(self, other: Number) -> Option<Order> {
        float_order(self.as_float(), other.as_float())
    }
}

/// Makes a `serde_json::Number` of `n` with `serde_json::Number::from_i128`,
/// calls `serde_json::Number::as_f64` on it and hands back the bits of the
/// double. The contract claims that this succeeds exactly for the whole
/// numbers that a JSON number can hold, and that the double depends on `n`
/// alone.
#[verifier::external_body]
fn integer_float_bits(n: i128) -> (r: Option<u64>)
    ensures
        r == if -0x8000_0000_0000_0000 <= n <= 0xffff_ffff_ffff_ffff {
            Some(integer_as_float(n as int))
        } else {
            None
        },
{
    match serde_json::Number::from_i128(n)?.as_f64() {
        Some(x) => Some(x.to_bits()),
        None => None,
    }
}

/// Compares two doubles given by their bit patterns.
pub fn compare_float_bits(a: u64, b: u64) -> (r: Option<Order>)
    ensures
        r == float_order(a, b),
{
    let ma: u64 = a % SIGN_BIT;
    let mb: u64 = b % SIGN_BIT;
    if ma > INFINITY_BITS || mb > INFINITY_BITS {
        return None;
    }
    let na: bool = a >= SIGN_BIT;
    let nb: bool = b >= SIGN_BIT;
    let o = if na {
        if nb {
            if ma > mb {
                Order::Less
            } else if ma == mb {
                Order::Equal
            } else {
                Order::Greater
            }
        } else if ma == 0 && mb == 0 {
            Order::Equal
        } else {
            Order::Less
        }
    } else if nb {
        if ma == 0 && mb == 0 {
            Order::Equal
        } else {
            Order::Greater
        }
    } else if ma < mb {
        Order::Less
    } else if ma == mb {
        Order::Equal
    } else {
        Order::Greater
    };
    Some(o)
}

/// Whether the bit pattern stands for a double that has an order: any but
/// a NaN.
pub fn float_bits_ordered(bits: u64) -> (r: bool)
    ensures
        r == !is_nan(bits),
{
    bits % SIGN_BIT <= INFINITY_BITS
}

/// Whether the bit pattern stands for a finite double.
pub fn float_bits_finite(bits: u64) -> (r: bool)
    ensures
        r == is_finite(bits),
{
    bits % SIGN_BIT < INFINITY_BITS
}

impl Number {
    /// The number as a double, by its bit pattern.
    pub fn float_bits(&self) -> (r: u64)
        ensures
            r == self.as_float(),
    {
        match self {
            Number::PosInt(n) => match integer_float_bits(*n as i128) {
                Some(bits) => bits,
                None => 0,
            },
            Number::NegInt(n) => match integer_float_bits(*n as i128) {
                Some(bits) => bits,
                None => 0,
            },
            Number::Float(bits) => *bits,
        }
    }

    /// Equality of JSON numbers.
    pub fn same_number(&self, other: &Number) -> (r: bool)
        ensures
            r == self.equals(*other),
    {
        match (self, other) {
            (Number::PosInt(a), Number::PosInt(b)) => *a == *b,
            (Number::NegInt(a), Number::NegInt(b)) => *a == *b,
            (Number::Float(a), Number::Float(b)) => {
                let o = compare_float_bits(*a, *b);
                match o {
                    Some(Order::Equal) => true,
                    _ => false,
                }
            },
            _ => false,
        }
    }

    /// Compares two numbers as doubles.
    pub fn compare(&self, other: &Number) -> (r: Option<Order>)
        ensures
            r == self.order(*other),
    {
        compare_float_bits(self.float_bits(), other.float_bits())
    }

    /// Whether two numbers are of the same kind and hold the same bits.
    pub fn identical(&self, other: &Number) -> (r: bool)
        ensures
            r == (*self == *other),
    {
        match (self, other) {
            (Number::PosInt(a), Number::PosInt(b)) => *a == *b,
            (Number::NegInt(a), Number::NegInt(b)) => *a == *b,
            (Number::Float(a), Number::Float(b)) => *a == *b,
            _ => false,
        }
    }

    /// A signed whole number as a JSON number: `NegInt` where it is below
    /// zero, `PosInt` where it is not.
    pub fn from_i64(n: i64) -> (r: Number)
        ensures
            r == if n < 0 {
                Number::NegInt(n)
            } else {
                Number::PosInt(n as u64)
            },
    {
        if n < 0 {
            Number::NegInt(n)
        } else {
            Number::PosInt(n as u64)
        }
    }

    /// The number of items in a collection, as a JSON number.
    pub fn from_count(n: usize) -> (r: Number)
        ensures
            r == Number::PosInt(n as u64),
    {
        Number::PosInt(n as u64)
    }

    /// The double with the given bit pattern as a JSON number; none for an
    /// infinity or a NaN, which JSON cannot hold.
    pub fn from_float_bits(bits: u64) -> (r: Option<Number>)
        ensures
            r == if is_finite(bits) {
                Some(Number::Float(bits))
            } else {
                None
            },
    {
        if float_bits_finite(bits) {
            Some(Number::Float(bits))
        } else {
            None
        }
    }
}

} // verus!
