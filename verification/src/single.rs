//! Single-precision binary floating point: 32 bits, computed on integers.
use vstd::arithmetic::power2::pow2;
use vstd::prelude::*;

use crate::rounding::{
    add_magnitudes, div_magnitudes, from_whole, mul_magnitudes, rem_magnitudes, root, rounded,
    saturated, sqrt_magnitude, sub_magnitudes, to_whole, units, whole, Whole,
};

verus! {

/// The magnitude of infinity; larger magnitudes are not numbers.
pub const INF: u32 = 0x7f80_0000;

/// A number in IEEE 754 single precision, held as its bit pattern.
///
/// Every operation rounds to nearest, ties to even. A result that is not a number always has the
/// bit pattern of `nan`, and of two zeros the first counts as the larger and the smaller one:
/// those are the choices that the standard leaves open.
#[derive(Clone, Copy, PartialEq, Eq, Structural, Debug)]
pub struct Single {
    pub bits: u32,
}

impl Single {
    /// The sign bit is set.
    pub open spec fn is_negative(self) -> bool {
        self.bits >= 0x8000_0000
    }

    /// The bits without the sign bit.
    pub open spec fn magnitude(self) -> nat {
        (self.bits % 0x8000_0000) as nat
    }

    pub open spec fn is_not_a_number(self) -> bool {
        self.magnitude() > INF
    }

    pub open spec fn is_infinite(self) -> bool {
        self.magnitude() == INF
    }

    pub open spec fn is_finite(self) -> bool {
        self.magnitude() < INF
    }

    /// The exact value of a finite number, in units of `2^-149`.
    pub open spec fn exact(self) -> int {
        if self.is_negative() {
            -(units(23, self.magnitude()) as int)
        } else {
            units(23, self.magnitude()) as int
        }
    }

    /// The position of a number on the line, with both zeros at 0 and infinity at the ends.
    pub open spec fn place(self) -> int {
        if self.is_negative() {
            -(self.magnitude() as int)
        } else {
            self.magnitude() as int
        }
    }

    pub open spec fn of(negative: bool, magnitude: nat) -> Single {
        Single { bits: (if negative { magnitude + 0x8000_0000 } else { magnitude }) as u32 }
    }

    /// The value that is not a number, as operations return it.
    pub open spec fn nan() -> Single {
        Single { bits: 0x7fc0_0000 }
    }

    /// `n / d` units with a sign, rounded to nearest, ties to even.
    pub open spec fn nearest(negative: bool, n: nat, d: nat) -> Single {
        Single::of(negative, rounded(23, INF as nat, n, d))
    }

    pub open spec fn negated(self) -> Single {
        Single::of(!self.is_negative(), self.magnitude())
    }

    /// IEEE 754 addition.
    #[verifier::opaque]
    pub open spec fn sum(self, other: Single) -> Single {
        if self.is_not_a_number() || other.is_not_a_number() {
            Single::nan()
        } else if self.is_infinite() {
            if other.is_infinite() && self.is_negative() != other.is_negative() {
                Single::nan()
            } else {
                self
            }
        } else if other.is_infinite() {
            other
        } else {
            let s = self.exact() + other.exact();
            if s == 0 {
                Single::of(self.is_negative() && other.is_negative(), 0)
            } else if s < 0 {
                Single::nearest(true, (-s) as nat, 1)
            } else {
                Single::nearest(false, s as nat, 1)
            }
        }
    }

    /// IEEE 754 subtraction.
    pub open spec fn difference(self, other: Single) -> Single {
        self.sum(other.negated())
    }

    /// IEEE 754 multiplication.
    #[verifier::opaque]
    pub open spec fn product(self, other: Single) -> Single {
        let negative = self.is_negative() != other.is_negative();
        if self.is_not_a_number() || other.is_not_a_number() {
            Single::nan()
        } else if self.is_infinite() || other.is_infinite() {
            if self.magnitude() == 0 || other.magnitude() == 0 {
                Single::nan()
            } else {
                Single::of(negative, INF as nat)
            }
        } else {
            Single::nearest(
                negative,
                units(23, self.magnitude()) * units(23, other.magnitude()),
                pow2(149),
            )
        }
    }

    /// IEEE 754 division.
    #[verifier::opaque]
    pub open spec fn quotient(self, other: Single) -> Single {
        let negative = self.is_negative() != other.is_negative();
        if self.is_not_a_number() || other.is_not_a_number() {
            Single::nan()
        } else if self.is_infinite() {
            if other.is_infinite() {
                Single::nan()
            } else {
                Single::of(negative, INF as nat)
            }
        } else if other.is_infinite() {
            Single::of(negative, 0)
        } else if other.magnitude() == 0 {
            if self.magnitude() == 0 {
                Single::nan()
            } else {
                Single::of(negative, INF as nat)
            }
        } else {
            Single::nearest(
                negative,
                units(23, self.magnitude()) * pow2(149),
                units(23, other.magnitude()),
            )
        }
    }

    /// `<`; false where either side is not a number.
    pub open spec fn less(self, other: Single) -> bool {
        !self.is_not_a_number() && !other.is_not_a_number() && self.place() < other.place()
    }

    /// `<=`; false where either side is not a number.
    pub open spec fn at_most(self, other: Single) -> bool {
        !self.is_not_a_number() && !other.is_not_a_number() && self.place() <= other.place()
    }

    /// The larger of two numbers; where one is not a number, the other.
    pub open spec fn larger(self, other: Single) -> Single {
        if self.is_not_a_number() || self.less(other) {
            other
        } else {
            self
        }
    }

    /// A whole number, rounded.
    #[verifier::opaque]
    pub open spec fn of_whole(n: nat) -> Single {
        Single::nearest(false, n * pow2(149), 1)
    }

    /// The quotient of two whole numbers: `ratio(3, 4)` is 0.75.
    pub open spec fn fraction(n: nat, d: nat) -> Single {
        Single::of_whole(n).quotient(Single::of_whole(d))
    }

    /// The number brought to a whole one of 64 bits: what is not a number and what is below zero
    /// becomes zero, what is too large becomes the largest.
    #[verifier::opaque]
    pub open spec fn whole_number(self, how: Whole) -> u64 {
        if self.is_not_a_number() || self.is_negative() {
            0
        } else if self.is_infinite() {
            u64::MAX
        } else {
            saturated(whole(how, units(23, self.magnitude()), pow2(149)))
        }
    }

    #[verifier::when_used_as_spec(is_negative)]
    pub fn signed(self) -> (r: bool)
        ensures
            r == self.is_negative(),
    {
        self.bits >= 0x8000_0000
    }

    fn mag(self) -> (r: u64)
        ensures
            r == self.magnitude(),
            r < 0x8000_0000,
    {
        (self.bits % 0x8000_0000) as u64
    }

    fn make(negative: bool, k: u64) -> (r: Single)
        requires
            k < 0x8000_0000,
        ensures
            r == Single::of(negative, k as nat),
            r.is_negative() == negative,
            r.magnitude() == k,
    {
        if negative {
            Single { bits: k as u32 + 0x8000_0000 }
        } else {
            Single { bits: k as u32 }
        }
    }

    /// `-self`
    #[verifier::when_used_as_spec(negated)]
    pub fn neg(self) -> (r: Single)
        ensures
            r == self.negated(),
    {
        Single::make(!self.signed(), self.mag())
    }

    /// `self + other`
    #[verifier::when_used_as_spec(sum)]
    pub fn plus(self, other: Single) -> (r: Single)
        ensures
            r == self.sum(other),
    {
        proof {
            reveal(Single::sum);
        }
        let (a, b) = (self.mag(), other.mag());
        let (na, nb) = (self.signed(), other.signed());
        if a > INF as u64 || b > INF as u64 {
            return Single { bits: 0x7fc0_0000 };
        }
        if a == INF as u64 {
            if b == INF as u64 && na != nb {
                return Single { bits: 0x7fc0_0000 };
            }
            return self;
        }
        if b == INF as u64 {
            return other;
        }
        proof {
            lemma_exact_order(self, other);
            lemma_exact_order(other, self);
            lemma_exact_zero(self);
            lemma_exact_zero(other);
        }
        if na == nb {
            let k: u64 = if a >= b {
                add_magnitudes(23, INF as u64, 149, a, b)
            } else {
                add_magnitudes(23, INF as u64, 149, b, a)
            };
            if a == 0 && b == 0 {
                Single::make(na, 0)
            } else {
                Single::make(na, k)
            }
        } else if a == b {
            Single::make(false, 0)
        } else if a > b {
            Single::make(na, sub_magnitudes(23, INF as u64, 149, a, b))
        } else {
            Single::make(nb, sub_magnitudes(23, INF as u64, 149, b, a))
        }
    }

    /// `self - other`
    #[verifier::when_used_as_spec(difference)]
    pub fn minus(self, other: Single) -> (r: Single)
        ensures
            r == self.difference(other),
    {
        self.plus(other.neg())
    }

    /// `self * other`
    #[verifier::when_used_as_spec(product)]
    pub fn times(self, other: Single) -> (r: Single)
        ensures
            r == self.product(other),
    {
        proof {
            reveal(Single::product);
        }
        let (a, b) = (self.mag(), other.mag());
        let negative: bool = self.signed() != other.signed();
        if a > INF as u64 || b > INF as u64 {
            return Single { bits: 0x7fc0_0000 };
        }
        if a == INF as u64 || b == INF as u64 {
            if a == 0 || b == 0 {
                return Single { bits: 0x7fc0_0000 };
            }
            return Single::make(negative, INF as u64);
        }
        Single::make(negative, mul_magnitudes(23, INF as u64, 149, a, b))
    }

    /// `self / other`
    #[verifier::when_used_as_spec(quotient)]
    pub fn over(self, other: Single) -> (r: Single)
        ensures
            r == self.quotient(other),
    {
        proof {
            reveal(Single::quotient);
        }
        let (a, b) = (self.mag(), other.mag());
        let negative: bool = self.signed() != other.signed();
        if a > INF as u64 || b > INF as u64 {
            return Single { bits: 0x7fc0_0000 };
        }
        if a == INF as u64 {
            if b == INF as u64 {
                return Single { bits: 0x7fc0_0000 };
            }
            return Single::make(negative, INF as u64);
        }
        if b == INF as u64 {
            return Single::make(negative, 0);
        }
        if b == 0 {
            if a == 0 {
                return Single { bits: 0x7fc0_0000 };
            }
            return Single::make(negative, INF as u64);
        }
        Single::make(negative, div_magnitudes(23, INF as u64, 149, a, b))
    }

    /// `self < other`
    #[verifier::when_used_as_spec(less)]
    pub fn lt(self, other: Single) -> (r: bool)
        ensures
            r == self.less(other),
    {
        let (a, b) = (self.mag(), other.mag());
        if a > INF as u64 || b > INF as u64 {
            false
        } else if self.signed() {
            if other.signed() {
                a > b
            } else {
                a > 0 || b > 0
            }
        } else if other.signed() {
            false
        } else {
            a < b
        }
    }

    /// `self <= other`
    #[verifier::when_used_as_spec(at_most)]
    pub fn le(self, other: Single) -> (r: bool)
        ensures
            r == self.at_most(other),
    {
        let (a, b) = (self.mag(), other.mag());
        if a > INF as u64 || b > INF as u64 {
            false
        } else {
            !other.lt(self)
        }
    }

    /// The larger of two numbers.
    #[verifier::when_used_as_spec(larger)]
    pub fn max(self, other: Single) -> (r: Single)
        ensures
            r == self.larger(other),
    {
        if self.mag() > INF as u64 || self.lt(other) {
            other
        } else {
            self
        }
    }

    /// A whole number, rounded.
    pub fn from_whole(n: u64) -> (r: Single)
        ensures
            r == Single::of_whole(n as nat),
    {
        proof {
            reveal(Single::of_whole);
        }
        Single::make(false, from_whole(23, INF as u64, 149, n))
    }

    /// The decimal number `n / d`.
    pub fn ratio(n: u64, d: u64) -> (r: Single)
        ensures
            r == Single::fraction(n as nat, d as nat),
    {
        Single::from_whole(n).over(Single::from_whole(d))
    }

    /// The number brought to a whole one.
    #[verifier::when_used_as_spec(whole_number)]
    pub fn to_whole(self, how: Whole) -> (r: u64)
        ensures
            r == self.whole_number(how),
    {
        proof {
            reveal(Single::whole_number);
        }
        let a = self.mag();
        if a > INF as u64 || self.signed() {
            0
        } else if a == INF as u64 {
            u64::MAX
        } else {
            to_whole(23, INF as u64, 149, a, how)
        }
    }

    /// IEEE 754 square root.
    #[verifier::opaque]
    pub open spec fn square_root(self) -> Single {
        if self.is_not_a_number() {
            Single::nan()
        } else if self.magnitude() == 0 {
            self
        } else if self.is_negative() {
            Single::nan()
        } else if self.is_infinite() {
            self
        } else {
            Single::of(false, root(units(23, self.magnitude()) * pow2(149)))
        }
    }

    /// The remainder of a division, with the sign of the dividend; it is exact.
    #[verifier::opaque]
    pub open spec fn remainder(self, other: Single) -> Single {
        if self.is_not_a_number() || other.is_not_a_number() || self.is_infinite()
            || other.magnitude() == 0 {
            Single::nan()
        } else if other.is_infinite() {
            self
        } else {
            Single::nearest(
                self.is_negative(),
                units(23, self.magnitude()) % units(23, other.magnitude()),
                1,
            )
        }
    }

    /// The smaller of two numbers; where one is not a number, the other.
    pub open spec fn smaller(self, other: Single) -> Single {
        if self.is_not_a_number() || other.less(self) {
            other
        } else {
            self
        }
    }

    /// The number, or the bound that it lies beyond.
    pub open spec fn clamped(self, lo: Single, hi: Single) -> Single {
        if self.less(lo) {
            lo
        } else if hi.less(self) {
            hi
        } else {
            self
        }
    }

    pub open spec fn absolute(self) -> Single {
        Single::of(false, self.magnitude())
    }

    /// The place of all bit patterns in one total order: below the numbers what is not a number
    /// with the sign bit set, then the numbers with -0 below +0, then what is not a number
    /// without it.
    pub open spec fn rank(self) -> int {
        if self.is_negative() {
            -1 - self.magnitude()
        } else {
            self.magnitude() as int
        }
    }

    /// The number brought to a whole one of 8 bits, toward zero.
    pub open spec fn whole_byte(self) -> u8 {
        let w = self.whole_number(Whole::Floor);
        if w <= 255 {
            w as u8
        } else {
            255
        }
    }

    /// The square root of `self`.
    #[verifier::when_used_as_spec(square_root)]
    pub fn sqrt(self) -> (r: Single)
        ensures
            r == self.square_root(),
    {
        proof {
            reveal(Single::square_root);
        }
        let a = self.mag();
        if a > INF as u64 {
            Single { bits: 0x7fc0_0000 }
        } else if a == 0 {
            self
        } else if self.signed() {
            Single { bits: 0x7fc0_0000 }
        } else if a == INF as u64 {
            self
        } else {
            Single::make(false, sqrt_magnitude(a))
        }
    }

    /// `self % other`
    #[verifier::when_used_as_spec(remainder)]
    pub fn rem(self, other: Single) -> (r: Single)
        ensures
            r == self.remainder(other),
    {
        proof {
            reveal(Single::remainder);
        }
        let (a, b) = (self.mag(), other.mag());
        if a > INF as u64 || b > INF as u64 || a == INF as u64 || b == 0 {
            return Single { bits: 0x7fc0_0000 };
        }
        if b == INF as u64 {
            return self;
        }
        Single::make(self.signed(), rem_magnitudes(23, INF as u64, 149, a, b))
    }

    /// The smaller of two numbers.
    #[verifier::when_used_as_spec(smaller)]
    pub fn min(self, other: Single) -> (r: Single)
        ensures
            r == self.smaller(other),
    {
        if self.mag() > INF as u64 || other.lt(self) {
            other
        } else {
            self
        }
    }

    /// The number, or the bound that it lies beyond.
    #[verifier::when_used_as_spec(clamped)]
    pub fn clamp(self, lo: Single, hi: Single) -> (r: Single)
        ensures
            r == self.clamped(lo, hi),
    {
        if self.lt(lo) {
            lo
        } else if hi.lt(self) {
            hi
        } else {
            self
        }
    }

    /// The number without its sign.
    #[verifier::when_used_as_spec(absolute)]
    pub fn abs(self) -> (r: Single)
        ensures
            r == self.absolute(),
    {
        Single::make(false, self.mag())
    }

    /// `self` comes before `other` in the total order of all bit patterns.
    pub fn ranks_below(self, other: Single) -> (r: bool)
        ensures
            r == (self.rank() < other.rank()),
    {
        if self.signed() {
            if other.signed() {
                self.mag() > other.mag()
            } else {
                true
            }
        } else if other.signed() {
            false
        } else {
            self.mag() < other.mag()
        }
    }

    /// The number brought to a whole one of 8 bits, toward zero.
    #[verifier::when_used_as_spec(whole_byte)]
    pub fn to_byte(self) -> (r: u8)
        ensures
            r == self.whole_byte(),
    {
        let w: u64 = self.to_whole(Whole::Floor);
        if w <= 255 {
            w as u8
        } else {
            255
        }
    }
}

/// Larger magnitudes are worth more.
proof fn lemma_exact_order(a: Single, b: Single)
    ensures
        a.magnitude() < b.magnitude() ==> units(23, a.magnitude()) < units(23, b.magnitude()),
        a.magnitude() == b.magnitude() ==> units(23, a.magnitude()) == units(23, b.magnitude()),
{
    if a.magnitude() < b.magnitude() {
        crate::rounding::lemma_units_increase(23, a.magnitude(), b.magnitude());
    }
}

/// Only the magnitude 0 is worth nothing.
proof fn lemma_exact_zero(a: Single)
    ensures
        units(23, a.magnitude()) == 0 <==> a.magnitude() == 0,
{
    crate::rounding::lemma_units_zero(23);
    if a.magnitude() > 0 {
        crate::rounding::lemma_units_increase(23, 0, a.magnitude());
    }
}

} // verus!
