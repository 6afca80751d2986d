//! Double-precision binary floating point: 64 bits, computed on integers.
use vstd::arithmetic::power2::pow2;
use vstd::prelude::*;

use crate::single::Single;
use crate::rounding::{
    add_magnitudes, div_magnitudes, from_whole, mul_magnitudes, narrowed, rounded, saturated,
    sub_magnitudes, to_whole, units, whole, widened, Whole,
};

verus! {

/// The magnitude of infinity; larger magnitudes are not numbers.
pub const INF: u64 = 0x7ff0_0000_0000_0000;

/// A number in IEEE 754 double precision, held as its bit pattern. The choices that the standard
/// leaves open are those of `Single`.
#[derive(Clone, Copy, PartialEq, Eq, Structural, Debug)]
pub struct Double {
    pub bits: u64,
}

impl Double {
    /// The sign bit is set.
    pub open spec fn is_negative(self) -> bool {
        self.bits >= 0x8000_0000_0000_0000
    }

    /// The bits without the sign bit.
    pub open spec fn magnitude(self) -> nat {
        (self.bits % 0x8000_0000_0000_0000) as nat
    }

    pub open spec fn is_not_a_number(self) -> bool {
        self.magnitude() > INF
    }

    pub open spec fn is_infinite(self) -> bool {
        self.magnitude() == INF
    }

    pub open spec fn is_finite(self) -> bool {
        self.magnitude() < INF
    }

    /// The exact value of a finite number, in units of `2^-1074`.
    pub open spec fn exact(self) -> int {
        if self.is_negative() {
            -(units(52, self.magnitude()) as int)
        } else {
            units(52, self.magnitude()) as int
        }
    }

    /// The position of a number on the line, with both zeros at 0 and infinity at the ends.
    pub open spec fn place(self) -> int {
        if self.is_negative() {
            -(self.magnitude() as int)
        } else {
            self.magnitude() as int
        }
    }

    pub open spec fn of(negative: bool, magnitude: nat) -> Double {
        Double { bits: (if negative { magnitude + 0x8000_0000_0000_0000 } else { magnitude }) as u64 }
    }

    /// The value that is not a number, as operations return it.
    pub open spec fn nan() -> Double {
        Double { bits: 0x7ff8_0000_0000_0000 }
    }

    /// `n / d` units with a sign, rounded to nearest, ties to even.
    pub open spec fn nearest(negative: bool, n: nat, d: nat) -> Double {
        Double::of(negative, rounded(52, INF as nat, n, d))
    }

    pub open spec fn negated(self) -> Double {
        Double::of(!self.is_negative(), self.magnitude())
    }

    /// IEEE 754 addition.
    #[verifier::opaque]
    pub open spec fn sum(self, other: Double) -> Double {
        if self.is_not_a_number() || other.is_not_a_number() {
            Double::nan()
        } else if self.is_infinite() {
            if other.is_infinite() && self.is_negative() != other.is_negative() {
                Double::nan()
            } else {
                self
            }
        } else if other.is_infinite() {
            other
        } else {
            let s = self.exact() + other.exact();
            if s == 0 {
                Double::of(self.is_negative() && other.is_negative(), 0)
            } else if s < 0 {
                Double::nearest(true, (-s) as nat, 1)
            } else {
                Double::nearest(false, s as nat, 1)
            }
        }
    }

    /// IEEE 754 subtraction.
    pub open spec fn difference(self, other: Double) -> Double {
        self.sum(other.negated())
    }

    /// IEEE 754 multiplication.
    #[verifier::opaque]
    pub open spec fn product(self, other: Double) -> Double {
        let negative = self.is_negative() != other.is_negative();
        if self.is_not_a_number() || other.is_not_a_number() {
            Double::nan()
        } else if self.is_infinite() || other.is_infinite() {
            if self.magnitude() == 0 || other.magnitude() == 0 {
                Double::nan()
            } else {
                Double::of(negative, INF as nat)
            }
        } else {
            Double::nearest(
                negative,
                units(52, self.magnitude()) * units(52, other.magnitude()),
                pow2(1074),
            )
        }
    }

    /// IEEE 754 division.
    #[verifier::opaque]
    pub open spec fn quotient(self, other: Double) -> Double {
        let negative = self.is_negative() != other.is_negative();
        if self.is_not_a_number() || other.is_not_a_number() {
            Double::nan()
        } else if self.is_infinite() {
            if other.is_infinite() {
                Double::nan()
            } else {
                Double::of(negative, INF as nat)
            }
        } else if other.is_infinite() {
            Double::of(negative, 0)
        } else if other.magnitude() == 0 {
            if self.magnitude() == 0 {
                Double::nan()
            } else {
                Double::of(negative, INF as nat)
            }
        } else {
            Double::nearest(
                negative,
                units(52, self.magnitude()) * pow2(1074),
                units(52, other.magnitude()),
            )
        }
    }

    /// `<`; false where either side is not a number.
    pub open spec fn less(self, other: Double) -> bool {
        !self.is_not_a_number() && !other.is_not_a_number() && self.place() < other.place()
    }

    /// `<=`; false where either side is not a number.
    pub open spec fn at_most(self, other: Double) -> bool {
        !self.is_not_a_number() && !other.is_not_a_number() && self.place() <= other.place()
    }

    /// The larger of two numbers; where one is not a number, the other.
    pub open spec fn larger(self, other: Double) -> Double {
        if self.is_not_a_number() || self.less(other) {
            other
        } else {
            self
        }
    }

    /// A whole number, rounded.
    #[verifier::opaque]
    pub open spec fn of_whole(n: nat) -> Double {
        Double::nearest(false, n * pow2(1074), 1)
    }

    /// The quotient of two whole numbers: `ratio(3, 4)` is 0.75.
    pub open spec fn fraction(n: nat, d: nat) -> Double {
        Double::of_whole(n).quotient(Double::of_whole(d))
    }

    /// The number brought to a whole one of 64 bits: what is not a number and what is below zero
    /// becomes zero, what is too large becomes the largest.
    #[verifier::opaque]
    pub open spec fn whole_number(self, how: Whole) -> u64 {
        if self.is_not_a_number() || self.is_negative() {
            0
        } else if self.is_infinite() {
            u64::MAX
        } else {
            saturated(whole(how, units(52, self.magnitude()), pow2(1074)))
        }
    }

    #[verifier::when_used_as_spec(is_negative)]
    pub fn signed(self) -> (r: bool)
        ensures
            r == self.is_negative(),
    {
        self.bits >= 0x8000_0000_0000_0000
    }

    fn mag(self) -> (r: u64)
        ensures
            r == self.magnitude(),
            r < 0x8000_0000_0000_0000,
    {
        self.bits % 0x8000_0000_0000_0000
    }

    fn make(negative: bool, k: u64) -> (r: Double)
        requires
            k < 0x8000_0000_0000_0000,
        ensures
            r == Double::of(negative, k as nat),
            r.is_negative() == negative,
            r.magnitude() == k,
    {
        if negative {
            Double { bits: k + 0x8000_0000_0000_0000 }
        } else {
            Double { bits: k }
        }
    }

    /// `-self`
    #[verifier::when_used_as_spec(negated)]
    pub fn neg(self) -> (r: Double)
        ensures
            r == self.negated(),
    {
        Double::make(!self.signed(), self.mag())
    }

    /// `self + other`
    #[verifier::when_used_as_spec(sum)]
    pub fn plus(self, other: Double) -> (r: Double)
        ensures
            r == self.sum(other),
    {
        proof {
            reveal(Double::sum);
        }
        let (a, b) = (self.mag(), other.mag());
        let (na, nb) = (self.signed(), other.signed());
        if a > INF || b > INF {
            return Double { bits: 0x7ff8_0000_0000_0000 };
        }
        if a == INF {
            if b == INF && na != nb {
                return Double { bits: 0x7ff8_0000_0000_0000 };
            }
            return self;
        }
        if b == INF {
            return other;
        }
        proof {
            lemma_exact_order(self, other);
            lemma_exact_order(other, self);
            lemma_exact_zero(self);
            lemma_exact_zero(other);
        }
        if na == nb {
            let k: u64 = if a >= b {
                add_magnitudes(52, INF, 1074, a, b)
            } else {
                add_magnitudes(52, INF, 1074, b, a)
            };
            if a == 0 && b == 0 {
                Double::make(na, 0)
            } else {
                Double::make(na, k)
            }
        } else if a == b {
            Double::make(false, 0)
        } else if a > b {
            Double::make(na, sub_magnitudes(52, INF, 1074, a, b))
        } else {
            Double::make(nb, sub_magnitudes(52, INF, 1074, b, a))
        }
    }

    /// `self - other`
    #[verifier::when_used_as_spec(difference)]
    pub fn minus(self, other: Double) -> (r: Double)
        ensures
            r == self.difference(other),
    {
        self.plus(other.neg())
    }

    /// `self * other`
    #[verifier::when_used_as_spec(product)]
    pub fn times(self, other: Double) -> (r: Double)
        ensures
            r == self.product(other),
    {
        proof {
            reveal(Double::product);
        }
        let (a, b) = (self.mag(), other.mag());
        let negative: bool = self.signed() != other.signed();
        if a > INF || b > INF {
            return Double { bits: 0x7ff8_0000_0000_0000 };
        }
        if a == INF || b == INF {
            if a == 0 || b == 0 {
                return Double { bits: 0x7ff8_0000_0000_0000 };
            }
            return Double::make(negative, INF);
        }
        Double::make(negative, mul_magnitudes(52, INF, 1074, a, b))
    }

    /// `self / other`
    #[verifier::when_used_as_spec(quotient)]
    pub fn over(self, other: Double) -> (r: Double)
        ensures
            r == self.quotient(other),
    {
        proof {
            reveal(Double::quotient);
        }
        let (a, b) = (self.mag(), other.mag());
        let negative: bool = self.signed() != other.signed();
        if a > INF || b > INF {
            return Double { bits: 0x7ff8_0000_0000_0000 };
        }
        if a == INF {
            if b == INF {
                return Double { bits: 0x7ff8_0000_0000_0000 };
            }
            return Double::make(negative, INF);
        }
        if b == INF {
            return Double::make(negative, 0);
        }
        if b == 0 {
            if a == 0 {
                return Double { bits: 0x7ff8_0000_0000_0000 };
            }
            return Double::make(negative, INF);
        }
        Double::make(negative, div_magnitudes(52, INF, 1074, a, b))
    }

    /// `self < other`
    #[verifier::when_used_as_spec(less)]
    pub fn lt(self, other: Double) -> (r: bool)
        ensures
            r == self.less(other),
    {
        let (a, b) = (self.mag(), other.mag());
        if a > INF || b > INF {
            false
        } else if self.signed() {
            if other.signed() {
                a > b
            } else {
                a > 0 || b > 0
            }
        } else if other.signed() {
            false
        } else {
            a < b
        }
    }

    /// `self <= other`
    #[verifier::when_used_as_spec(at_most)]
    pub fn le(self, other: Double) -> (r: bool)
        ensures
            r == self.at_most(other),
    {
        let (a, b) = (self.mag(), other.mag());
        if a > INF || b > INF {
            false
        } else {
            !other.lt(self)
        }
    }

    /// The larger of two numbers.
    #[verifier::when_used_as_spec(larger)]
    pub fn max(self, other: Double) -> (r: Double)
        ensures
            r == self.larger(other),
    {
        if self.mag() > INF || self.lt(other) {
            other
        } else {
            self
        }
    }

    /// A whole number, rounded.
    pub fn from_whole(n: u64) -> (r: Double)
        ensures
            r == Double::of_whole(n as nat),
    {
        proof {
            reveal(Double::of_whole);
        }
        Double::make(false, from_whole(52, INF, 1074, n))
    }

    /// The decimal number `n / d`.
    pub fn ratio(n: u64, d: u64) -> (r: Double)
        ensures
            r == Double::fraction(n as nat, d as nat),
    {
        Double::from_whole(n).over(Double::from_whole(d))
    }

    /// The number brought to a whole one.
    #[verifier::when_used_as_spec(whole_number)]
    pub fn to_whole(self, how: Whole) -> (r: u64)
        ensures
            r == self.whole_number(how),
    {
        proof {
            reveal(Double::whole_number);
        }
        let a = self.mag();
        if a > INF || self.signed() {
            0
        } else if a == INF {
            u64::MAX
        } else {
            to_whole(52, INF, 1074, a, how)
        }
    }

    /// The same value in single precision, rounded.
    #[verifier::opaque]
    pub open spec fn narrow(self) -> Single {
        if self.is_not_a_number() {
            Single::nan()
        } else if self.is_infinite() {
            Single::of(self.is_negative(), crate::single::INF as nat)
        } else {
            Single::nearest(self.is_negative(), units(52, self.magnitude()), pow2(925))
        }
    }

    /// The value of a number in single precision.
    #[verifier::opaque]
    pub open spec fn widen(x: Single) -> Double {
        if x.is_not_a_number() {
            Double::nan()
        } else if x.is_infinite() {
            Double::of(x.is_negative(), INF as nat)
        } else {
            Double::nearest(x.is_negative(), units(23, x.magnitude()) * pow2(925), 1)
        }
    }

    /// The same value in single precision, rounded.
    #[verifier::when_used_as_spec(narrow)]
    pub fn to_single(self) -> (r: Single)
        ensures
            r == self.narrow(),
    {
        proof {
            reveal(Double::narrow);
        }
        let a = self.mag();
        if a > INF {
            Single { bits: 0x7fc0_0000 }
        } else {
            let k: u64 = if a == INF {
                crate::single::INF as u64
            } else {
                narrowed(a)
            };
            if self.signed() {
                Single { bits: k as u32 + 0x8000_0000 }
            } else {
                Single { bits: k as u32 }
            }
        }
    }

    /// The value of a number in single precision.
    pub fn from_single(x: Single) -> (r: Double)
        ensures
            r == Double::widen(x),
    {
        proof {
            reveal(Double::widen);
        }
        let a: u64 = (x.bits % 0x8000_0000) as u64;
        if a > crate::single::INF as u64 {
            Double { bits: 0x7ff8_0000_0000_0000 }
        } else if a == crate::single::INF as u64 {
            Double::make(x.signed(), INF)
        } else {
            Double::make(x.signed(), widened(a))
        }
    }
}

/// Larger magnitudes are worth more.
proof fn lemma_exact_order(a: Double, b: Double)
    ensures
        a.magnitude() < b.magnitude() ==> units(52, a.magnitude()) < units(52, b.magnitude()),
        a.magnitude() == b.magnitude() ==> units(52, a.magnitude()) == units(52, b.magnitude()),
{
    if a.magnitude() < b.magnitude() {
        crate::rounding::lemma_units_increase(52, a.magnitude(), b.magnitude());
    }
}

/// Only the magnitude 0 is worth nothing.
proof fn lemma_exact_zero(a: Double)
    ensures
        units(52, a.magnitude()) == 0 <==> a.magnitude() == 0,
{
    crate::rounding::lemma_units_zero(52);
    if a.magnitude() > 0 {
        crate::rounding::lemma_units_increase(52, 0, a.magnitude());
    }
}

} // verus!
