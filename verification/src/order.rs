//! Facts about the order of single-precision numbers.
use vstd::arithmetic::power2::{
    lemma2_to64, lemma_pow2_adds, lemma_pow2_pos, lemma_pow2_unfold, pow2,
};
use vstd::prelude::*;

use crate::rounding::{
    lemma_on_grid, lemma_rounded_exact, lemma_rounded_monotone, lemma_rounded_nearest,
    lemma_units_increase, lemma_units_of_parts, lemma_units_step, lemma_units_zero, rounded, units,
};
use crate::rounding::Whole;
use crate::single::{Single, INF};

verus! {

impl Single {
    /// A finite number that is zero or above it, without a sign.
    pub open spec fn is_plain(self) -> bool {
        self.is_finite() && !self.is_negative()
    }

    /// The value of a plain number in units.
    pub open spec fn worth(self) -> nat {
        units(23, self.magnitude())
    }
}

/// Plain numbers are ordered as their magnitudes and as their values are.
pub proof fn lemma_worth(a: Single, b: Single)
    ensures
        a.magnitude() < b.magnitude() <==> a.worth() < b.worth(),
        a.magnitude() == b.magnitude() <==> a.worth() == b.worth(),
        a.worth() == 0 <==> a.magnitude() == 0,
{
    if a.magnitude() < b.magnitude() {
        lemma_units_increase(23, a.magnitude(), b.magnitude());
    }
    if b.magnitude() < a.magnitude() {
        lemma_units_increase(23, b.magnitude(), a.magnitude());
    }
    lemma_units_zero(23);
    if a.magnitude() > 0 {
        lemma_units_increase(23, 0, a.magnitude());
    }
}

/// The parts of `Single::of` can be read back.
pub proof fn lemma_of(negative: bool, k: nat)
    requires
        k <= INF,
    ensures
        Single::of(negative, k).magnitude() == k,
        Single::of(negative, k).is_negative() == negative,
        !Single::of(negative, k).is_not_a_number(),
{
}

/// The number with a magnitude and no sign is determined by them.
pub proof fn lemma_same(a: Single, b: Single)
    requires
        a.magnitude() == b.magnitude(),
        a.is_negative() == b.is_negative(),
    ensures
        a == b,
{
}

/// Whole numbers of up to 24 bits are exact.
pub proof fn lemma_whole_exact(n: nat)
    requires
        n < 0x100_0000,
    ensures
        Single::of_whole(n).is_plain(),
        Single::of_whole(n).worth() == n * pow2(149),
{
    reveal(Single::of_whole);
    lemma_pow2_pos(149);
    lemma2_to64();
    if n == 0 {
        lemma_units_zero(23);
        assert(0 * pow2(149) * 1 == 0) by (nonlinear_arith);
        assert(0 * pow2(149) == 0) by (nonlinear_arith);
        lemma_rounded_exact(23, INF as nat, 0, 1, 0);
    } else {
        let e = exponent(n, 23);
        lemma_exponent(n, 23);
        let c = n * pow2((23 - e) as nat);
        let t = (126 + e) as nat;
        lemma_pow2_adds(e, (23 - e) as nat);
        lemma_pow2_unfold(24);
        lemma_pow2_unfold(e + 1);
        lemma_pow2_pos((23 - e) as nat);
        assert(pow2(23) <= c < 2 * pow2(23)) by (nonlinear_arith)
            requires
                pow2(e) <= n < 2 * pow2(e),
                c == n * pow2((23 - e) as nat),
                pow2(e) * pow2((23 - e) as nat) == pow2(23),
                pow2((23 - e) as nat) > 0,
        ;
        lemma_units_of_parts(23, t, c);
        lemma_pow2_adds((23 - e) as nat, t);
        assert(c * pow2(t) == n * pow2(149)) by (nonlinear_arith)
            requires
                c == n * pow2((23 - e) as nat),
                pow2((23 - e) as nat) * pow2(t) == pow2(149),
        ;
        let k = t * pow2(23) + c;
        assert(k < INF);
        assert(n * pow2(149) == n * pow2(149) * 1);
        lemma_rounded_exact(23, INF as nat, n * pow2(149), 1, k);
    }
}

/// The exponent of the highest bit of `n`.
spec fn exponent(n: nat, e: nat) -> nat
    decreases e,
{
    if e == 0 || n >= pow2(e) {
        e
    } else {
        exponent(n, (e - 1) as nat)
    }
}

proof fn lemma_exponent(n: nat, e: nat)
    requires
        0 < n < pow2(e + 1),
    ensures
        exponent(n, e) <= e,
        pow2(exponent(n, e)) <= n < pow2(exponent(n, e) + 1),
    decreases e,
{
    lemma2_to64();
    if e == 0 || n >= pow2(e) {
    } else {
        lemma_exponent(n, (e - 1) as nat);
    }
}

/// The product of two plain numbers: rounded, without a sign, possibly infinite.
pub proof fn lemma_product(a: Single, b: Single)
    requires
        a.is_plain(),
        b.is_plain(),
    ensures
        a.times(b).magnitude() == rounded(23, INF as nat, a.worth() * b.worth(), pow2(149)),
        a.times(b).magnitude() <= INF,
        !a.times(b).is_negative(),
        !a.times(b).is_not_a_number(),
{
    reveal(Single::product);
    lemma_rounded_nearest(23, INF as nat, a.worth() * b.worth(), pow2(149));
}

/// The quotient of two plain numbers, where the second is not zero.
pub proof fn lemma_quotient(a: Single, b: Single)
    requires
        a.is_plain(),
        b.is_plain(),
        b.magnitude() > 0,
    ensures
        b.worth() > 0,
        a.over(b).magnitude() == rounded(23, INF as nat, a.worth() * pow2(149), b.worth()),
        a.over(b).magnitude() <= INF,
        !a.over(b).is_negative(),
        !a.over(b).is_not_a_number(),
{
    reveal(Single::quotient);
    lemma_worth(b, b);
    lemma_rounded_nearest(23, INF as nat, a.worth() * pow2(149), b.worth());
}

/// The sum of two plain numbers.
pub proof fn lemma_sum(a: Single, b: Single)
    requires
        a.is_plain(),
        b.is_plain(),
    ensures
        a.plus(b).magnitude() == rounded(23, INF as nat, a.worth() + b.worth(), 1),
        a.plus(b).magnitude() <= INF,
        !a.plus(b).is_negative(),
        !a.plus(b).is_not_a_number(),
{
    reveal(Single::sum);
    lemma_rounded_nearest(23, INF as nat, a.worth() + b.worth(), 1);
    if a.worth() + b.worth() == 0 {
        lemma_units_zero(23);
        lemma_rounded_exact(23, INF as nat, 0, 1, 0);
    }
}

/// The difference of two plain numbers, the second not above the first.
pub proof fn lemma_difference(a: Single, b: Single)
    requires
        a.is_plain(),
        b.is_plain(),
        b.magnitude() <= a.magnitude(),
    ensures
        b.worth() <= a.worth(),
        a.minus(b).magnitude() == rounded(23, INF as nat, (a.worth() - b.worth()) as nat, 1),
        a.minus(b).is_plain(),
        a.minus(b).magnitude() <= a.magnitude(),
        a.magnitude() > b.magnitude() ==> a.minus(b).magnitude() > 0,
{
    reveal(Single::sum);
    lemma_worth(a, b);
    let n = (a.worth() - b.worth()) as nat;
    lemma_rounded_nearest(23, INF as nat, n, 1);
    lemma_units_zero(23);
    lemma_rounded_exact(23, INF as nat, 0, 1, 0);
    if n > 0 {
        lemma_rounded_exact(23, INF as nat, a.worth(), 1, a.magnitude());
        lemma_rounded_monotone(23, INF as nat, n, 1, a.worth(), 1);
        lemma2_to64();
        lemma_units_of_parts(23, 0, 1);
        assert(0 * pow2(23) + 1 == 1) by (nonlinear_arith);
        assert(units(23, 1) == 1);
        lemma_rounded_exact(23, INF as nat, 1, 1, 1);
        lemma_rounded_monotone(23, INF as nat, 1, 1, n, 1);
    }
}

/// Doubling makes a positive number larger.
pub proof fn lemma_doubled(x: Single)
    requires
        x.is_plain(),
        x.magnitude() > 0,
    ensures
        x.times(Single::of_whole(2)).magnitude() > x.magnitude(),
        !x.times(Single::of_whole(2)).is_negative(),
        !x.times(Single::of_whole(2)).is_not_a_number(),
{
    let two = Single::of_whole(2);
    lemma_whole_exact(2);
    lemma_product(x, two);
    let k = x.magnitude();
    lemma_pow2_pos(149);
    crate::rounding::lemma_spacing_below(23, k);
    lemma_units_step(23, k);
    lemma_rounded_exact(23, INF as nat, units(23, k + 1), 1, k + 1);
    assert(units(23, k + 1) * pow2(149) <= (x.worth() * two.worth()) * 1) by (nonlinear_arith)
        requires
            units(23, k + 1) <= 2 * x.worth(),
            two.worth() == 2 * pow2(149),
    ;
    lemma_rounded_monotone(
        23,
        INF as nat,
        units(23, k + 1),
        1,
        x.worth() * two.worth(),
        pow2(149),
    );
}

/// Halving makes a positive number smaller.
pub proof fn lemma_halved(x: Single)
    requires
        x.is_plain(),
        x.magnitude() > 1,
    ensures
        x.over(Single::of_whole(2)).magnitude() < x.magnitude(),
        x.over(Single::of_whole(2)).is_plain(),
{
    let two = Single::of_whole(2);
    lemma_whole_exact(2);
    lemma_pow2_pos(149);
    lemma_worth(two, two);
    lemma_units_zero(23);
    lemma_quotient(x, two);
    let k = (x.magnitude() - 1) as nat;
    crate::rounding::lemma_spacing_below(23, k);
    lemma_units_step(23, k);
    lemma_rounded_exact(23, INF as nat, units(23, k), 1, k);
    assert(x.worth() <= 2 * units(23, k));
    assert((x.worth() * pow2(149)) * 1 <= units(23, k) * two.worth()) by (nonlinear_arith)
        requires
            x.worth() <= 2 * units(23, k),
            two.worth() == 2 * pow2(149),
    ;
    lemma_rounded_monotone(
        23,
        INF as nat,
        x.worth() * pow2(149),
        two.worth(),
        units(23, k),
        1,
    );
}

/// Whole numbers keep their order; the smaller ones are finite.
pub proof fn lemma_whole_order(a: nat, b: nat)
    requires
        a <= b <= u64::MAX,
    ensures
        Single::of_whole(a).is_plain(),
        Single::of_whole(b).is_plain(),
        Single::of_whole(a).magnitude() <= Single::of_whole(b).magnitude(),
        a > 0 ==> Single::of_whole(a).magnitude() > 0,
{
    reveal(Single::of_whole);
    let p = pow2(149);
    lemma_pow2_pos(149);
    assert((a * p) * 1 <= (b * p) * 1) by (nonlinear_arith) requires a <= b;
    lemma_rounded_monotone(23, INF as nat, a * p, 1, b * p, 1);
    // 2^64 is on the grid.
    lemma2_to64();
    lemma_units_of_parts(23, 190, pow2(23));
    lemma_pow2_adds(23, 190);
    lemma_pow2_adds(64, 149);
    let k = 190 * pow2(23) + pow2(23);
    lemma_rounded_exact(23, INF as nat, pow2(64) * p, 1, k);
    assert((b * p) * 1 <= (pow2(64) * p) * 1) by (nonlinear_arith)
        requires b <= pow2(64);
    lemma_rounded_monotone(23, INF as nat, b * p, 1, pow2(64) * p, 1);
    if a > 0 {
        lemma_whole_exact(1);
        lemma_worth(Single::of_whole(1), Single::of_whole(1));
        assert((1 * p) * 1 <= (a * p) * 1) by (nonlinear_arith) requires 1 <= a;
        lemma_rounded_monotone(23, INF as nat, 1 * p, 1, a * p, 1);
    }
}

/// A quotient of plain numbers, the first not above the second, is at most 1; it is 1 where they
/// are equal and 0 where the first is 0.
pub proof fn lemma_share(a: Single, b: Single)
    requires
        a.is_plain(),
        b.is_plain(),
        0 < b.magnitude(),
        a.magnitude() <= b.magnitude(),
    ensures
        a.over(b).is_plain(),
        a.over(b).magnitude() <= Single::of_whole(1).magnitude(),
        a.magnitude() == b.magnitude() ==> a.over(b) == Single::of_whole(1),
        a.magnitude() == 0 ==> a.over(b).magnitude() == 0,
{
    let one = Single::of_whole(1);
    let p = pow2(149);
    lemma_pow2_pos(149);
    lemma_whole_exact(1);
    lemma_quotient(a, b);
    lemma_worth(a, b);
    assert(1 * p == p);
    lemma_rounded_exact(23, INF as nat, one.worth(), 1, one.magnitude());
    assert((a.worth() * p) * 1 <= one.worth() * b.worth()) by (nonlinear_arith)
        requires a.worth() <= b.worth(), one.worth() == p;
    lemma_rounded_monotone(23, INF as nat, a.worth() * p, b.worth(), one.worth(), 1);
    if a.magnitude() == b.magnitude() {
        assert(one.worth() * b.worth() <= (a.worth() * p) * 1) by (nonlinear_arith)
            requires a.worth() == b.worth(), one.worth() == p;
        lemma_rounded_monotone(23, INF as nat, one.worth(), 1, a.worth() * p, b.worth());
        lemma_same(a.over(b), one);
    }
    if a.magnitude() == 0 {
        lemma_units_zero(23);
        assert(0 * p == 0) by (nonlinear_arith);
        assert(units(23, 0) * b.worth() == 0) by (nonlinear_arith) requires units(23, 0) == 0;
        lemma_rounded_exact(23, INF as nat, a.worth() * p, b.worth(), 0);
    }
}

/// A plain number up to 1, times a whole number of up to 24 bits, is at most that; it is that for
/// 1, and 0 for 0.
pub proof fn lemma_part_of(x: Single, n: nat)
    requires
        x.is_plain(),
        x.magnitude() <= Single::of_whole(1).magnitude(),
        n < 0x100_0000,
    ensures
        x.times(Single::of_whole(n)).is_plain(),
        x.times(Single::of_whole(n)).magnitude() <= Single::of_whole(n).magnitude(),
        x == Single::of_whole(1) ==> x.times(Single::of_whole(n)) == Single::of_whole(n),
        x.magnitude() == 0 ==> x.times(Single::of_whole(n)).magnitude() == 0,
{
    let m = Single::of_whole(n);
    let one = Single::of_whole(1);
    lemma_whole_exact(n);
    lemma_whole_exact(1);
    lemma_times_share(x, m);
}

/// A plain number, times one that is at most 1, is at most the number; it is the number for 1, and
/// 0 for 0.
pub proof fn lemma_times_share(x: Single, m: Single)
    requires
        x.is_plain(),
        m.is_plain(),
        x.magnitude() <= Single::of_whole(1).magnitude(),
    ensures
        x.times(m).is_plain(),
        x.times(m).magnitude() <= m.magnitude(),
        x == Single::of_whole(1) ==> x.times(m) == m,
        x.magnitude() == 0 ==> x.times(m).magnitude() == 0,
        m.times(x) == x.times(m),
{
    let one = Single::of_whole(1);
    let p = pow2(149);
    lemma_pow2_pos(149);
    lemma_whole_exact(1);
    lemma_product(x, m);
    lemma_product(m, x);
    assert(x.worth() * m.worth() == m.worth() * x.worth()) by (nonlinear_arith);
    lemma_same(m.times(x), x.times(m));
    lemma_worth(x, one);
    assert(1 * p == p);
    lemma_rounded_exact(23, INF as nat, m.worth(), 1, m.magnitude());
    assert((x.worth() * m.worth()) * 1 <= m.worth() * p) by (nonlinear_arith)
        requires x.worth() <= p;
    lemma_rounded_monotone(23, INF as nat, x.worth() * m.worth(), p, m.worth(), 1);
    if x == one {
        assert(m.worth() * p <= (x.worth() * m.worth()) * 1) by (nonlinear_arith)
            requires x.worth() == p;
        lemma_rounded_monotone(23, INF as nat, m.worth(), 1, x.worth() * m.worth(), p);
        lemma_same(x.times(m), m);
    }
    if x.magnitude() == 0 {
        lemma_units_zero(23);
        assert(0 * m.worth() == 0) by (nonlinear_arith);
        assert(units(23, 0) * p == 0) by (nonlinear_arith) requires units(23, 0) == 0;
        lemma_rounded_exact(23, INF as nat, x.worth() * m.worth(), p, 0);
    }
}

/// The nearest whole number to a plain number that is at most `n` is at most `n`; it is `n` for
/// `n` itself.
pub proof fn lemma_nearest_whole(x: Single, n: nat)
    requires
        x.is_plain(),
        n < 0x100_0000,
        x.magnitude() <= Single::of_whole(n).magnitude(),
    ensures
        x.to_whole(Whole::Nearest) <= n,
        x == Single::of_whole(n) ==> x.to_whole(Whole::Nearest) == n,
        x.magnitude() == 0 ==> x.to_whole(Whole::Nearest) == 0,
{
    reveal(Single::whole_number);
    let p = pow2(149);
    lemma_pow2_pos(149);
    lemma_whole_exact(n);
    lemma_worth(x, Single::of_whole(n));
    lemma_units_zero(23);
    crate::rounding::lemma_whole_at_most(x.worth(), p, n);
    if x == Single::of_whole(n) {
        crate::rounding::lemma_whole_of_multiple(Whole::Nearest, n, p);
    }
    if x.magnitude() == 0 {
        assert(0 * p == 0) by (nonlinear_arith);
        crate::rounding::lemma_whole_at_most(x.worth(), p, 0);
    }
}

impl Single {
    /// A number from 0 to 1, without a sign.
    pub open spec fn is_share(self) -> bool {
        self.is_plain() && self.magnitude() <= Single::of_whole(1).magnitude()
    }
}

/// Sums keep the order of plain numbers.
pub proof fn lemma_sum_order(a: Single, b: Single, c: Single, d: Single)
    requires
        a.is_plain(),
        b.is_plain(),
        c.is_plain(),
        d.is_plain(),
        a.magnitude() <= b.magnitude(),
        c.magnitude() <= d.magnitude(),
    ensures
        a.plus(c).magnitude() <= b.plus(d).magnitude(),
        !a.plus(c).is_negative(),
        !b.plus(d).is_negative(),
        b.plus(d).magnitude() <= INF,
{
    lemma_sum(a, c);
    lemma_sum(b, d);
    lemma_worth(a, b);
    lemma_worth(c, d);
    lemma_rounded_monotone(23, INF as nat, a.worth() + c.worth(), 1, b.worth() + d.worth(), 1);
}

/// Adding a zero of either sign changes nothing.
pub proof fn lemma_plus_zero(a: Single, z: Single)
    requires
        a.is_plain(),
        z.magnitude() == 0,
    ensures
        a.plus(z) == a,
{
    reveal(Single::sum);
    lemma_units_zero(23);
    lemma_worth(a, z);
    if a.worth() == 0 {
        lemma_same(a.plus(z), a);
    } else {
        lemma_rounded_exact(23, INF as nat, a.worth(), 1, a.magnitude());
        lemma_same(a.plus(z), a);
    }
}

/// A sum is not below either side.
pub proof fn lemma_sum_grows(a: Single, b: Single)
    requires
        a.is_plain(),
        b.is_plain(),
    ensures
        a.magnitude() <= a.plus(b).magnitude() <= INF,
        b.magnitude() <= a.plus(b).magnitude(),
        !a.plus(b).is_negative(),
{
    lemma_sum(a, b);
    lemma_rounded_exact(23, INF as nat, a.worth(), 1, a.magnitude());
    lemma_rounded_exact(23, INF as nat, b.worth(), 1, b.magnitude());
    lemma_rounded_monotone(23, INF as nat, a.worth(), 1, a.worth() + b.worth(), 1);
    lemma_rounded_monotone(23, INF as nat, b.worth(), 1, a.worth() + b.worth(), 1);
}

/// Products keep the order of plain numbers.
pub proof fn lemma_product_order(a: Single, b: Single, c: Single)
    requires
        a.is_plain(),
        b.is_plain(),
        c.is_plain(),
        a.magnitude() <= b.magnitude(),
    ensures
        a.times(c).magnitude() <= b.times(c).magnitude() <= INF,
        !a.times(c).is_negative(),
        !b.times(c).is_negative(),
{
    lemma_product(a, c);
    lemma_product(b, c);
    lemma_worth(a, b);
    lemma_pow2_pos(149);
    assert((a.worth() * c.worth()) * pow2(149) <= (b.worth() * c.worth()) * pow2(149))
        by (nonlinear_arith)
        requires a.worth() <= b.worth();
    lemma_rounded_monotone(
        23,
        INF as nat,
        a.worth() * c.worth(),
        pow2(149),
        b.worth() * c.worth(),
        pow2(149),
    );
}

/// Quotients keep the order of plain dividends.
pub proof fn lemma_quotient_order(a: Single, b: Single, c: Single)
    requires
        a.is_plain(),
        b.is_plain(),
        c.is_plain(),
        c.magnitude() > 0,
        a.magnitude() <= b.magnitude(),
    ensures
        a.over(c).magnitude() <= b.over(c).magnitude() <= INF,
        !a.over(c).is_negative(),
        !b.over(c).is_negative(),
{
    lemma_quotient(a, c);
    lemma_quotient(b, c);
    lemma_worth(a, b);
    assert((a.worth() * pow2(149)) * c.worth() <= (b.worth() * pow2(149)) * c.worth())
        by (nonlinear_arith)
        requires a.worth() <= b.worth();
    lemma_rounded_monotone(
        23,
        INF as nat,
        a.worth() * pow2(149),
        c.worth(),
        b.worth() * pow2(149),
        c.worth(),
    );
}

/// Differences from a plain number keep the order of what they are taken from.
pub proof fn lemma_difference_order(a: Single, b: Single, c: Single)
    requires
        a.is_plain(),
        b.is_plain(),
        c.is_plain(),
        c.magnitude() <= a.magnitude() <= b.magnitude(),
    ensures
        a.minus(c).is_plain(),
        b.minus(c).is_plain(),
        a.minus(c).magnitude() <= b.minus(c).magnitude(),
        a.magnitude() > c.magnitude() ==> a.minus(c).magnitude() > 0,
{
    lemma_difference(a, c);
    lemma_difference(b, c);
    lemma_worth(a, b);
    lemma_rounded_monotone(
        23,
        INF as nat,
        (a.worth() - c.worth()) as nat,
        1,
        (b.worth() - c.worth()) as nat,
        1,
    );
}

/// Differences keep the reverse order of what is taken away.
pub proof fn lemma_difference_reverse(a: Single, b: Single, c: Single)
    requires
        a.is_plain(),
        b.is_plain(),
        c.is_plain(),
        a.magnitude() <= b.magnitude() <= c.magnitude(),
    ensures
        c.minus(b).is_plain(),
        c.minus(a).is_plain(),
        c.minus(b).magnitude() <= c.minus(a).magnitude(),
        b.magnitude() < c.magnitude() ==> c.minus(b).magnitude() > 0,
{
    lemma_difference(c, b);
    lemma_difference(c, a);
    lemma_worth(a, b);
    lemma_rounded_monotone(
        23,
        INF as nat,
        (c.worth() - b.worth()) as nat,
        1,
        (c.worth() - a.worth()) as nat,
        1,
    );
}

/// A fraction of whole numbers of up to 24 bits is plain and positive where the upper one is, it is
/// at most a whole number that it should not exceed, and it keeps the order of the upper number.
pub proof fn lemma_fraction(n: nat, k: nat, d: nat, m: nat)
    requires
        n <= k <= m * d,
        0 < d,
        d < 0x100_0000,
        k < 0x100_0000,
        m < 0x100_0000,
    ensures
        Single::fraction(n, d).is_plain(),
        Single::fraction(k, d).is_plain(),
        Single::fraction(n, d).magnitude() <= Single::fraction(k, d).magnitude(),
        Single::fraction(k, d).magnitude() <= Single::of_whole(m).magnitude(),
        n > 0 ==> Single::fraction(n, d).magnitude() > 0,
{
    let p = pow2(149);
    let (a, b, c, e) = (
        Single::of_whole(n),
        Single::of_whole(k),
        Single::of_whole(d),
        Single::of_whole(m),
    );
    lemma_pow2_pos(149);
    lemma_whole_exact(n);
    lemma_whole_exact(k);
    lemma_whole_exact(d);
    lemma_whole_exact(m);
    lemma_whole_order(n, k);
    lemma_whole_order(d, d);
    lemma_quotient_order(a, b, c);
    lemma_quotient(b, c);
    lemma_quotient(a, c);
    lemma_rounded_exact(23, INF as nat, e.worth(), 1, e.magnitude());
    assert((b.worth() * p) * 1 <= e.worth() * c.worth()) by (nonlinear_arith)
        requires b.worth() == k * p, e.worth() == m * p, c.worth() == d * p, k <= m * d;
    lemma_rounded_monotone(23, INF as nat, b.worth() * p, c.worth(), e.worth(), 1);
    if n > 0 {
        lemma2_to64();
        lemma_units_of_parts(23, 0, 1);
        assert(0 * pow2(23) + 1 == 1) by (nonlinear_arith);
        lemma_rounded_exact(23, INF as nat, 1, 1, 1);
        lemma_pow2_adds(24, 125);
        lemma_pow2_pos(125);
        assert(d <= p) by (nonlinear_arith)
            requires d < 0x100_0000, p == 0x100_0000 * pow2(125), pow2(125) > 0;
        assert(1 * c.worth() <= (a.worth() * p) * 1) by (nonlinear_arith)
            requires a.worth() == n * p, c.worth() == d * p, n > 0, d <= p, p > 0;
        lemma_rounded_monotone(23, INF as nat, 1, 1, a.worth() * p, c.worth());
    }
}

/// What is brought into the range 0 to 1 is there, unless it is not a number; a zero may keep its
/// sign.
pub proof fn lemma_clamped(v: Single)
    requires
        !v.is_not_a_number(),
    ensures
        ({
            let c = v.clamp(Single::of_whole(0), Single::of_whole(1));
            c.is_share() || c.magnitude() == 0
        }),
{
    lemma_whole_exact(0);
    lemma_whole_exact(1);
    lemma_pow2_pos(149);
    lemma_worth(Single::of_whole(0), Single::of_whole(1));
    assert(0 * pow2(149) == 0) by (nonlinear_arith);
}

/// The square root of a number from 0 to 1 is from 0 to 1.
pub proof fn lemma_root_of_share(x: Single)
    requires
        x.is_share(),
    ensures
        x.sqrt().is_share(),
{
    reveal(Single::square_root);
    let one = Single::of_whole(1);
    let p = pow2(149);
    lemma_whole_exact(1);
    lemma_worth(x, one);
    if x.magnitude() > 0 {
        assert(x.worth() * p <= one.worth() * one.worth()) by (nonlinear_arith)
            requires x.worth() <= one.worth(), one.worth() == 1 * p;
        crate::rounding::lemma_root_at_most(x.worth() * p, one.magnitude());
    }
}

/// Small whole numbers add up exactly.
pub proof fn lemma_whole_sum(a: nat, b: nat)
    requires
        a + b < 0x100_0000,
    ensures
        Single::of_whole(a).plus(Single::of_whole(b)) == Single::of_whole(a + b),
        Single::of_whole(a + b).is_plain(),
{
    let (x, y, z) = (Single::of_whole(a), Single::of_whole(b), Single::of_whole(a + b));
    lemma_whole_exact(a);
    lemma_whole_exact(b);
    lemma_whole_exact(a + b);
    lemma_sum(x, y);
    assert(a * pow2(149) + b * pow2(149) == (a + b) * pow2(149)) by (nonlinear_arith);
    lemma_rounded_exact(23, INF as nat, z.worth(), 1, z.magnitude());
    lemma_same(x.plus(y), z);
}

/// Small whole numbers multiply exactly.
pub proof fn lemma_whole_product(a: nat, b: nat)
    requires
        a < 0x100_0000,
        b < 0x100_0000,
        a * b < 0x100_0000,
    ensures
        Single::of_whole(a).times(Single::of_whole(b)) == Single::of_whole(a * b),
        Single::of_whole(a * b).is_plain(),
{
    let p = pow2(149);
    let (x, y, z) = (Single::of_whole(a), Single::of_whole(b), Single::of_whole(a * b));
    lemma_pow2_pos(149);
    lemma_whole_exact(a);
    lemma_whole_exact(b);
    lemma_whole_exact(a * b);
    lemma_product(x, y);
    assert(x.worth() * y.worth() == z.worth() * p) by (nonlinear_arith)
        requires x.worth() == a * p, y.worth() == b * p, z.worth() == (a * b) * p;
    lemma_rounded_exact(23, INF as nat, x.worth() * y.worth(), p, z.magnitude());
    lemma_same(x.times(y), z);
}

/// Small whole numbers divide exactly where the quotient is whole.
pub proof fn lemma_whole_quotient(a: nat, b: nat)
    requires
        0 < b < 0x100_0000,
        a < 0x100_0000,
        a * b < 0x100_0000,
    ensures
        Single::of_whole(a * b).over(Single::of_whole(b)) == Single::of_whole(a),
        Single::of_whole(a).is_plain(),
{
    let p = pow2(149);
    let (x, y, z) = (Single::of_whole(a), Single::of_whole(b), Single::of_whole(a * b));
    lemma_pow2_pos(149);
    lemma_whole_exact(a);
    lemma_whole_exact(b);
    lemma_whole_exact(a * b);
    lemma_whole_order(1, b);
    lemma_quotient(z, y);
    assert(z.worth() * p == x.worth() * y.worth()) by (nonlinear_arith)
        requires x.worth() == a * p, y.worth() == b * p, z.worth() == (a * b) * p;
    lemma_rounded_exact(23, INF as nat, z.worth() * p, y.worth(), x.magnitude());
    lemma_same(z.over(y), x);
}

/// A finite number added to a number gives a number.
pub proof fn lemma_sum_number(a: Single, b: Single)
    requires
        !a.is_not_a_number(),
        b.is_finite(),
    ensures
        !a.plus(b).is_not_a_number(),
        !b.plus(a).is_not_a_number(),
{
    reveal(Single::sum);
    if a.is_finite() {
        let s = a.exact() + b.exact();
        if s > 0 {
            lemma_rounded_nearest(23, INF as nat, s as nat, 1);
        } else if s < 0 {
            lemma_rounded_nearest(23, INF as nat, (-s) as nat, 1);
        }
    }
}

/// A finite number divided by a number that is not zero gives a number.
pub proof fn lemma_quotient_number(a: Single, b: Single)
    requires
        a.is_finite(),
        !b.is_not_a_number(),
        b.magnitude() > 0,
    ensures
        !a.over(b).is_not_a_number(),
{
    reveal(Single::quotient);
    lemma_rounded_nearest(23, INF as nat, a.worth() * pow2(149), b.worth());
}

/// What is at most a number of few bits rounds to at most that number.
pub proof fn lemma_rounds_within(n: nat, d: nat, c: nat, t: nat)
    requires
        d > 0,
        n <= c * pow2(t) * d,
        c < 0x100_0000,
        t <= 252,
    ensures
        rounded(23, INF as nat, n, d) < INF,
        units(23, rounded(23, INF as nat, n, d)) <= c * pow2(t),
{
    lemma2_to64();
    let k = lemma_on_grid(23, c, t);
    assert((t + 2) * pow2(23) <= 254 * pow2(23)) by (nonlinear_arith) requires t <= 252;
    lemma_rounded_exact(23, INF as nat, c * pow2(t) * d, d, k);
    assert(n * d <= c * pow2(t) * d * d) by (nonlinear_arith)
        requires n <= c * pow2(t) * d, d > 0;
    lemma_rounded_monotone(23, INF as nat, n, d, c * pow2(t) * d, d);
    let r = rounded(23, INF as nat, n, d);
    if r < k {
        lemma_units_increase(23, r, k);
    }
}

/// What is at least a number of few bits rounds to at least that number.
pub proof fn lemma_rounds_beyond(n: nat, d: nat, c: nat, t: nat)
    requires
        d > 0,
        c * pow2(t) * d <= n,
        c < 0x100_0000,
        t <= 252,
    ensures
        units(23, rounded(23, INF as nat, n, d)) >= c * pow2(t),
{
    lemma2_to64();
    let k = lemma_on_grid(23, c, t);
    assert((t + 2) * pow2(23) <= 254 * pow2(23)) by (nonlinear_arith) requires t <= 252;
    lemma_rounded_exact(23, INF as nat, c * pow2(t) * d, d, k);
    assert(c * pow2(t) * d * d <= n * d) by (nonlinear_arith)
        requires c * pow2(t) * d <= n, d > 0;
    lemma_rounded_monotone(23, INF as nat, c * pow2(t) * d, d, n, d);
    let r = rounded(23, INF as nat, n, d);
    if k < r {
        lemma_units_increase(23, k, r);
    }
}

/// Zero and one as single numbers.
pub proof fn lemma_zero_one()
    ensures
        Single::of_whole(0).is_share(),
        Single::of_whole(0).magnitude() == 0,
        Single::of_whole(1).is_share(),
        Single::of_whole(1).magnitude() > 0,
{
    lemma_whole_exact(0);
    lemma_whole_order(0, 1);
    lemma_whole_order(1, 1);
    lemma_worth(Single::of_whole(0), Single::of_whole(0));
    assert(0 * pow2(149) == 0) by (nonlinear_arith);
}

} // verus!
