//! How large the results of single-precision arithmetic can get.
use vstd::arithmetic::power2::{
    lemma2_to64, lemma_pow2_adds, lemma_pow2_pos, lemma_pow2_strictly_increases, pow2,
};
use vstd::prelude::*;

use crate::order::{
    lemma_of, lemma_quotient, lemma_rounds_within, lemma_sum, lemma_whole_exact, lemma_worth,
};
use crate::rounding::{
    lemma_on_grid, lemma_root_at_least, lemma_root_at_most, lemma_rounded_exact,
    lemma_rounded_nearest, lemma_units_zero, root, rounded, units,
};
use crate::single::{Single, INF};
use crate::sums::sum_of;

verus! {

/// A finite number of at most `2^t` units, whatever its sign.
pub open spec fn is_small(v: Single, t: nat) -> bool {
    v.is_finite() && v.worth() <= pow2(t)
}

/// A finite number of at most `2^t` units, zero or above it.
pub open spec fn is_capped(v: Single, t: nat) -> bool {
    v.is_plain() && v.worth() <= pow2(t)
}

pub proof fn lemma_power_order(s: nat, t: nat)
    requires
        s <= t,
    ensures
        pow2(s) <= pow2(t),
{
    if s < t {
        lemma_pow2_strictly_increases(s, t);
    }
}

/// What is at most a power of two rounds to at most that power.
pub proof fn lemma_rounds_small(n: nat, d: nat, t: nat)
    requires
        d > 0,
        n <= pow2(t) * d,
        t <= 275,
    ensures
        rounded(23, INF as nat, n, d) < INF,
        units(23, rounded(23, INF as nat, n, d)) <= pow2(t),
{
    lemma2_to64();
    if t <= 252 {
        assert(n <= 1 * pow2(t) * d) by (nonlinear_arith) requires n <= pow2(t) * d;
        lemma_rounds_within(n, d, 1, t);
    } else {
        let e = (t - 252) as nat;
        lemma_pow2_adds(e, 252);
        lemma_power_order(e, 23);
        lemma_rounds_within(n, d, pow2(e), 252);
    }
}

/// A sum of small numbers.
pub proof fn lemma_sum_small(s: Seq<Single>, t: nat)
    requires
        forall|i: int| 0 <= i < s.len() ==> is_small(#[trigger] s[i], t),
        s.len() < 0x100_0000,
        t <= 252,
    ensures
        sum_of(s).is_finite(),
        sum_of(s).worth() <= s.len() * pow2(t),
    decreases s.len(),
{
    if s.len() == 0 {
        lemma_whole_exact(0);
        assert(0 * pow2(149) == 0) by (nonlinear_arith);
        assert(0 * pow2(t) == 0) by (nonlinear_arith);
    } else {
        let head = s.drop_last();
        assert forall|i: int| 0 <= i < head.len() implies is_small(#[trigger] head[i], t) by {
            assert(head[i] == s[i]);
        }
        lemma_sum_small(head, t);
        let (a, b) = (sum_of(head), s.last());
        assert(is_small(s[s.len() - 1], t));
        let n = sum_size(a, b);
        lemma_sum_size(a, b);
        assert((s.len() - 1) * pow2(t) + pow2(t) == s.len() * pow2(t)) by (nonlinear_arith);
        assert(n <= s.len() * pow2(t) * 1) by (nonlinear_arith)
            requires n <= s.len() * pow2(t);
        lemma_rounds_within(n, 1, s.len(), t);
    }
}

/// The size of the exact sum of two finite numbers.
spec fn sum_size(a: Single, b: Single) -> nat {
    let s = a.exact() + b.exact();
    (if s < 0 { -s } else { s }) as nat
}

/// The size of a sum is that of the exact one, rounded.
proof fn lemma_sum_size(a: Single, b: Single)
    requires
        a.is_finite(),
        b.is_finite(),
    ensures
        a.plus(b).magnitude() == rounded(23, INF as nat, sum_size(a, b), 1),
        sum_size(a, b) <= a.worth() + b.worth(),
{
    reveal(Single::sum);
    let n = sum_size(a, b);
    lemma_rounded_nearest(23, INF as nat, n, 1);
    lemma_units_zero(23);
    lemma_rounded_exact(23, INF as nat, 0, 1, 0);
    lemma_of(false, rounded(23, INF as nat, n, 1));
    lemma_of(true, rounded(23, INF as nat, n, 1));
    lemma_of(false, 0);
    lemma_of(true, 0);
}

/// A sum of capped numbers.
pub proof fn lemma_sum_capped(s: Seq<Single>, t: nat)
    requires
        forall|i: int| 0 <= i < s.len() ==> is_capped(#[trigger] s[i], t),
        s.len() < 0x100_0000,
        t <= 252,
    ensures
        sum_of(s).is_plain(),
        sum_of(s).worth() <= s.len() * pow2(t),
    decreases s.len(),
{
    if s.len() == 0 {
        lemma_whole_exact(0);
        assert(0 * pow2(149) == 0) by (nonlinear_arith);
        assert(0 * pow2(t) == 0) by (nonlinear_arith);
    } else {
        let head = s.drop_last();
        assert forall|i: int| 0 <= i < head.len() implies is_capped(#[trigger] head[i], t) by {
            assert(head[i] == s[i]);
        }
        lemma_sum_capped(head, t);
        let (a, b) = (sum_of(head), s.last());
        assert(is_capped(s[s.len() - 1], t));
        lemma_sum(a, b);
        let n = a.worth() + b.worth();
        assert((s.len() - 1) * pow2(t) + pow2(t) == s.len() * pow2(t)) by (nonlinear_arith);
        assert(n <= s.len() * pow2(t) * 1) by (nonlinear_arith)
            requires n <= s.len() * pow2(t);
        lemma_rounds_within(n, 1, s.len(), t);
    }
}

/// The product of two small numbers.
pub proof fn lemma_product_small(a: Single, s: nat, b: Single, t: nat)
    requires
        is_small(a, s),
        is_small(b, t),
        149 <= s + t <= 424,
    ensures
        is_small(a.times(b), (s + t - 149) as nat),
        a.is_negative() == b.is_negative() ==> is_capped(a.times(b), (s + t - 149) as nat),
{
    reveal(Single::product);
    let e = (s + t - 149) as nat;
    let (x, y) = (a.worth(), b.worth());
    lemma_pow2_pos(149);
    lemma_pow2_adds(s, t);
    lemma_pow2_adds(e, 149);
    assert(x * y <= pow2(e) * pow2(149)) by (nonlinear_arith)
        requires x <= pow2(s), y <= pow2(t), pow2(s) * pow2(t) == pow2(e) * pow2(149);
    lemma_rounds_small(x * y, pow2(149), e);
    lemma_of(false, rounded(23, INF as nat, x * y, pow2(149)));
    lemma_of(true, rounded(23, INF as nat, x * y, pow2(149)));
}

/// The quotient of a capped number and one that is at least 1.
pub proof fn lemma_quotient_capped(a: Single, b: Single, t: nat)
    requires
        is_capped(a, t),
        b.is_plain(),
        pow2(149) <= b.worth(),
        t <= 252,
    ensures
        is_capped(a.over(b), t),
{
    lemma_pow2_pos(149);
    lemma_worth(b, b);
    lemma_quotient(a, b);
    let (x, y, u) = (a.worth(), b.worth(), pow2(149));
    assert(x * u <= 1 * pow2(t) * y) by (nonlinear_arith) requires x <= pow2(t), u <= y;
    lemma_rounds_within(x * u, y, 1, t);
}

/// A whole number above zero is at least 1.
pub proof fn lemma_whole_at_least(n: nat)
    requires
        0 < n < 0x100_0000,
    ensures
        Single::of_whole(n).is_plain(),
        pow2(149) <= Single::of_whole(n).worth(),
{
    lemma_whole_exact(n);
    assert(pow2(149) <= n * pow2(149)) by (nonlinear_arith) requires n > 0;
}

/// The square root of a capped number.
pub proof fn lemma_root_capped(a: Single, t: nat, s: nat)
    requires
        is_capped(a, t),
        t + 149 <= 2 * s,
        s <= 252,
    ensures
        is_capped(a.sqrt(), s),
{
    reveal(Single::square_root);
    lemma_units_zero(23);
    if a.magnitude() > 0 {
        lemma2_to64();
        let n = a.worth() * pow2(149);
        let k = lemma_on_grid(23, 1, s);
        assert((s + 2) * pow2(23) <= 254 * pow2(23)) by (nonlinear_arith) requires s <= 252;
        lemma_pow2_adds(t, 149);
        lemma_pow2_adds(s, s);
        lemma_power_order(t + 149, 2 * s);
        assert(n <= pow2(t) * pow2(149)) by (nonlinear_arith)
            requires n == a.worth() * pow2(149), a.worth() <= pow2(t);
        lemma_root_at_most(n, k);
        let r = Single::of(false, root(n));
        lemma_of(false, root(n));
        lemma_of(false, k);
        lemma_worth(r, Single::of(false, k));
    }
}

/// The square root of a whole number above zero is at least 1.
pub proof fn lemma_root_of_whole(n: nat)
    requires
        0 < n < 0x100_0000,
    ensures
        Single::of_whole(n).sqrt().is_plain(),
        pow2(149) <= Single::of_whole(n).sqrt().worth(),
{
    let a = Single::of_whole(n);
    let one = Single::of_whole(1);
    let u = pow2(149);
    lemma2_to64();
    lemma_whole_at_least(n);
    lemma_whole_exact(n);
    lemma_whole_exact(1);
    lemma_pow2_pos(149);
    lemma_worth(a, a);
    lemma_pow2_adds(24, 149);
    assert(n * u <= pow2(173)) by (nonlinear_arith)
        requires n <= 0x100_0000, pow2(173) == 0x100_0000 * u;
    lemma_root_capped(a, 173, 161);
    reveal(Single::square_root);
    assert(one.worth() * one.worth() <= a.worth() * u) by (nonlinear_arith)
        requires one.worth() == 1 * u, u <= a.worth();
    lemma_root_at_least(a.worth() * u, one.magnitude());
    lemma_worth(one, a.sqrt());
}

/// The sum of two capped numbers.
pub proof fn lemma_plus_capped(a: Single, b: Single, t: nat)
    requires
        is_capped(a, t),
        is_capped(b, t),
        t <= 251,
    ensures
        is_capped(a.plus(b), t + 1),
{
    lemma2_to64();
    lemma_pow2_adds(1, t);
    lemma_sum(a, b);
    let n = a.worth() + b.worth();
    assert(n <= 1 * pow2(t + 1) * 1);
    lemma_rounds_within(n, 1, 1, t + 1);
}

/// The sum of two small numbers.
pub proof fn lemma_plus_small(a: Single, b: Single, t: nat)
    requires
        is_small(a, t),
        is_small(b, t),
        t <= 274,
    ensures
        is_small(a.plus(b), t + 1),
{
    lemma2_to64();
    lemma_pow2_adds(1, t);
    lemma_sum_size(a, b);
    lemma_rounds_small(sum_size(a, b), 1, t + 1);
}

/// The difference of two small numbers.
pub proof fn lemma_minus_small(a: Single, b: Single, t: nat)
    requires
        is_small(a, t),
        is_small(b, t),
        t <= 274,
    ensures
        is_small(a.minus(b), t + 1),
{
    lemma_of(!b.is_negative(), b.magnitude());
    lemma_plus_small(a, b.neg(), t);
}

/// The quotient of a small number and one of `2^e` units at least.
pub proof fn lemma_quotient_small(a: Single, s: nat, b: Single, e: nat)
    requires
        is_small(a, s),
        b.is_plain(),
        pow2(e) <= b.worth(),
        e <= s + 149 <= e + 275,
    ensures
        is_small(a.over(b), (s + 149 - e) as nat),
        !a.is_negative() ==> is_capped(a.over(b), (s + 149 - e) as nat),
{
    reveal(Single::quotient);
    let t = (s + 149 - e) as nat;
    let (x, y, u) = (a.worth(), b.worth(), pow2(149));
    lemma_pow2_pos(e);
    lemma_worth(b, b);
    lemma_pow2_adds(s, 149);
    lemma_pow2_adds(t, e);
    assert(x * u <= pow2(t) * y) by (nonlinear_arith)
        requires x <= pow2(s), pow2(e) <= y, pow2(s) * u == pow2(t) * pow2(e);
    lemma_rounds_small(x * u, y, t);
    lemma_of(false, rounded(23, INF as nat, x * u, y));
    lemma_of(true, rounded(23, INF as nat, x * u, y));
}

/// The difference of two capped numbers.
pub proof fn lemma_difference_small(a: Single, b: Single, t: nat)
    requires
        is_capped(a, t),
        is_capped(b, t),
        t <= 252,
    ensures
        is_small(a.minus(b), t),
{
    reveal(Single::sum);
    let s = a.exact() + b.neg().exact();
    let n = (if s < 0 { -s } else { s }) as nat;
    lemma_of(true, b.magnitude());
    assert(n <= 1 * pow2(t) * 1);
    lemma_rounds_within(n, 1, 1, t);
    lemma_units_zero(23);
    lemma_pow2_pos(t);
    lemma_of(false, rounded(23, INF as nat, n, 1));
    lemma_of(true, rounded(23, INF as nat, n, 1));
    lemma_of(false, 0);
    lemma_of(true, 0);
}

} // verus!
