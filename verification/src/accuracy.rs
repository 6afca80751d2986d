//! How close the results of single-precision arithmetic are to the exact ones.
use vstd::arithmetic::power2::{lemma2_to64, lemma_pow2_adds, lemma_pow2_pos, pow2};
use vstd::prelude::*;

use crate::bounds::{is_capped, lemma_power_order, lemma_sum_capped};
use crate::order::{
    lemma_of, lemma_quotient, lemma_rounds_within, lemma_sum, lemma_whole_exact, lemma_worth,
};
use crate::rounding::{
    lemma_rounded_exact, lemma_rounded_nearest, lemma_spacing_part, lemma_units_step,
    lemma_units_zero, rounded, spacing, units,
};
use crate::single::{Single, INF};
use crate::sums::sum_of;

verus! {

/// The size of a whole number.
pub open spec fn size(x: int) -> nat {
    if x < 0 {
        (-x) as nat
    } else {
        x as nat
    }
}

/// A rounded value is off by a part of itself by the bits of the format, and by half a unit, at
/// most.
pub proof fn lemma_rounding_error(f: nat, inf: nat, n: nat, d: nat)
    requires
        rounded(f, inf, n, d) < inf,
    ensures
        ({
            let u = units(f, rounded(f, inf, n, d));
            2 * pow2(f) * size(u * d - n) <= (u + pow2(f)) * d
        }),
{
    let p = pow2(f);
    let k = rounded(f, inf, n, d);
    let u = units(f, k);
    lemma_rounded_nearest(f, inf, n, d);
    lemma_pow2_pos(f);
    if u * d <= n {
        let g = pow2(spacing(f, k));
        lemma_units_step(f, k);
        lemma_spacing_part(f, k);
        assert(2 * n <= (u + (u + g)) * d);
        assert(2 * p * (n - u * d) <= (u + p) * d) by (nonlinear_arith)
            requires 2 * n <= (u + (u + g)) * d, p * g <= u + p, p >= 0, d >= 0;
        assert(size(u * d - n) == n - u * d);
    } else {
        lemma_units_zero(f);
        assert(k > 0) by {
            if k == 0 {
                assert(0 * d == 0) by (nonlinear_arith);
            }
        }
        let j = (k - 1) as nat;
        let (v, g) = (units(f, j), pow2(spacing(f, j)));
        lemma_units_step(f, j);
        lemma_spacing_part(f, j);
        assert((v + u) * d <= 2 * n);
        assert(2 * p * (u * d - n) <= (u + p) * d) by (nonlinear_arith)
            requires (v + u) * d <= 2 * n, u == v + g, p * g <= v + p, p >= 0, d >= 0, g >= 0;
        assert(size(u * d - n) == u * d - n);
    }
}

/// A sum of two numbers that lie from -2 to 2 is off by at most 2^-20.
pub proof fn lemma_plus_error(a: Single, b: Single)
    requires
        a.is_finite(),
        b.is_finite(),
        a.worth() <= 2 * pow2(149),
        b.worth() <= 2 * pow2(149),
    ensures
        a.plus(b).is_finite(),
        size(a.plus(b).exact() - (a.exact() + b.exact())) <= pow2(129),
{
    reveal(Single::sum);
    let u = pow2(149);
    let s = a.exact() + b.exact();
    let n = size(s);
    lemma2_to64();
    lemma_units_zero(23);
    lemma_rounds_within(n, 1, 4, 149);
    lemma_rounded_exact(23, INF as nat, 0, 1, 0);
    let k = rounded(23, INF as nat, n, 1);
    lemma_of(false, k);
    lemma_of(true, k);
    lemma_of(false, 0);
    lemma_of(true, 0);
    lemma_rounding_error(23, INF as nat, n, 1);
    lemma_pow2_adds(20, 129);
    lemma_pow2_pos(129);
    let w = units(23, k);
    assert(size(w - n) <= pow2(129)) by (nonlinear_arith)
        requires
            2 * 0x80_0000 * size(w * 1 - n) <= (w + 0x80_0000) * 1,
            w <= 4 * u,
            u == 0x10_0000 * pow2(129),
            pow2(129) > 0,
    ;
    assert(a.plus(b).exact() == if s < 0 { -(w as int) } else { w as int });
}

/// A difference of two numbers that lie from -2 to 2 is off by at most 2^-20.
pub proof fn lemma_minus_error(a: Single, b: Single)
    requires
        a.is_finite(),
        b.is_finite(),
        a.worth() <= 2 * pow2(149),
        b.worth() <= 2 * pow2(149),
    ensures
        a.minus(b).is_finite(),
        size(a.minus(b).exact() - (a.exact() - b.exact())) <= pow2(129),
{
    lemma_of(!b.is_negative(), b.magnitude());
    lemma_plus_error(a, b.neg());
    assert(b.neg().exact() == -b.exact());
}

/// A product of two numbers that lie from -2 to 2 is off by at most 2^-20.
pub proof fn lemma_times_error(a: Single, b: Single)
    requires
        a.is_finite(),
        b.is_finite(),
        a.worth() <= 2 * pow2(149),
        b.worth() <= 2 * pow2(149),
    ensures
        a.times(b).is_finite(),
        a.times(b).worth() <= 4 * pow2(149),
        size(a.times(b).exact() * pow2(149) - a.exact() * b.exact()) <= pow2(129) * pow2(149),
{
    reveal(Single::product);
    let u = pow2(149);
    let (x, y) = (a.worth(), b.worth());
    let n = x * y;
    lemma2_to64();
    lemma_pow2_pos(149);
    assert(n <= 4 * u * u) by (nonlinear_arith) requires n == x * y, x <= 2 * u, y <= 2 * u;
    lemma_rounds_within(n, u, 4, 149);
    let k = rounded(23, INF as nat, n, u);
    lemma_of(false, k);
    lemma_of(true, k);
    lemma_rounding_error(23, INF as nat, n, u);
    lemma_pow2_adds(20, 129);
    lemma_pow2_pos(129);
    let w = units(23, k);
    let e = size(w * u - n);
    assert(e <= pow2(129) * u) by (nonlinear_arith)
        requires
            2 * 0x80_0000 * e <= (w + 0x80_0000) * u,
            w <= 4 * u,
            u == 0x10_0000 * pow2(129),
            pow2(129) > 0,
            u > 0,
    ;
    lemma_signed(w as int, u as int, x as int, y as int);
}

proof fn lemma_signed(w: int, u: int, x: int, y: int)
    by (nonlinear_arith)
    ensures
        (-w) * u == -(w * u),
        (-x) * y == -(x * y),
        x * (-y) == -(x * y),
        (-x) * (-y) == x * y,
{
}

/// A quotient that lies from 0 to 4 is off by at most 2^-20.
pub proof fn lemma_over_error(a: Single, b: Single)
    requires
        a.is_plain(),
        b.is_plain(),
        b.magnitude() > 0,
        a.worth() <= 4 * b.worth(),
    ensures
        a.over(b).is_plain(),
        a.over(b).worth() <= 4 * pow2(149),
        size(a.over(b).worth() * b.worth() - a.worth() * pow2(149)) <= pow2(129) * b.worth(),
{
    let u = pow2(149);
    lemma2_to64();
    lemma_pow2_pos(149);
    lemma_worth(b, b);
    lemma_quotient(a, b);
    let (x, y) = (a.worth(), b.worth());
    let n = x * u;
    assert(n <= 4 * u * y) by (nonlinear_arith) requires n == x * u, x <= 4 * y, u > 0;
    lemma_rounds_within(n, y, 4, 149);
    let k = rounded(23, INF as nat, n, y);
    lemma_rounding_error(23, INF as nat, n, y);
    lemma_pow2_adds(20, 129);
    lemma_pow2_pos(129);
    let w = units(23, k);
    let e = size(w * y - n);
    assert(e <= pow2(129) * y) by (nonlinear_arith)
        requires
            2 * 0x80_0000 * e <= (w + 0x80_0000) * y,
            w <= 4 * u,
            u == 0x10_0000 * pow2(129),
            pow2(129) > 0,
            y > 0,
    ;
}

/// How far a sum is off, by how large it can be.
pub proof fn lemma_plus_near(a: Single, b: Single, c: nat)
    requires
        a.is_finite(),
        b.is_finite(),
        a.worth() + b.worth() <= c * pow2(149),
        c < 0x100_0000,
    ensures
        a.plus(b).is_finite(),
        a.plus(b).worth() <= c * pow2(149),
        0x100_0000 * size(a.plus(b).exact() - (a.exact() + b.exact())) <= (c + 1) * pow2(149),
{
    reveal(Single::sum);
    let u = pow2(149);
    let s = a.exact() + b.exact();
    let n = size(s);
    lemma2_to64();
    lemma_units_zero(23);
    lemma_power_order(23, 149);
    assert(n <= c * u * 1);
    lemma_rounds_within(n, 1, c, 149);
    lemma_rounded_exact(23, INF as nat, 0, 1, 0);
    let k = rounded(23, INF as nat, n, 1);
    lemma_of(false, k);
    lemma_of(true, k);
    lemma_of(false, 0);
    lemma_of(true, 0);
    lemma_rounding_error(23, INF as nat, n, 1);
    let w = units(23, k);
    assert(0x100_0000 * size(w - n) <= (c + 1) * u) by (nonlinear_arith)
        requires
            2 * 0x80_0000 * size(w * 1 - n) <= (w + 0x80_0000) * 1,
            w <= c * u,
            0x80_0000 <= u,
    ;
    assert(a.plus(b).exact() == if s < 0 { -(w as int) } else { w as int });
    assert(0 <= c * u) by (nonlinear_arith);
}

/// How far a difference is off, by how large it can be.
pub proof fn lemma_minus_near(a: Single, b: Single, c: nat)
    requires
        a.is_finite(),
        b.is_finite(),
        a.worth() + b.worth() <= c * pow2(149),
        c < 0x100_0000,
    ensures
        a.minus(b).is_finite(),
        a.minus(b).worth() <= c * pow2(149),
        0x100_0000 * size(a.minus(b).exact() - (a.exact() - b.exact())) <= (c + 1) * pow2(149),
{
    lemma_of(!b.is_negative(), b.magnitude());
    lemma_plus_near(a, b.neg(), c);
    assert(b.neg().exact() == -b.exact());
}

/// How far a product is off, by how large it can be.
pub proof fn lemma_times_near(a: Single, b: Single, c: nat)
    requires
        a.is_finite(),
        b.is_finite(),
        a.worth() * b.worth() <= c * pow2(149) * pow2(149),
        c < 0x100_0000,
    ensures
        a.times(b).is_finite(),
        a.times(b).worth() <= c * pow2(149),
        0x100_0000 * size(a.times(b).exact() * pow2(149) - a.exact() * b.exact()) <= (c + 1)
            * pow2(149) * pow2(149),
{
    reveal(Single::product);
    let u = pow2(149);
    let (x, y) = (a.worth(), b.worth());
    let n = x * y;
    lemma2_to64();
    lemma_pow2_pos(149);
    lemma_power_order(23, 149);
    lemma_rounds_within(n, u, c, 149);
    let k = rounded(23, INF as nat, n, u);
    lemma_of(false, k);
    lemma_of(true, k);
    lemma_rounding_error(23, INF as nat, n, u);
    let w = units(23, k);
    let e = size(w * u - n);
    assert(0x100_0000 * e <= (c + 1) * u * u) by (nonlinear_arith)
        requires 2 * 0x80_0000 * e <= (w + 0x80_0000) * u, w <= c * u, 0x80_0000 <= u;
    lemma_signed(w as int, u as int, x as int, y as int);
}

/// The exact sum of numbers that are not negative.
pub open spec fn total(s: Seq<Single>) -> nat
    decreases s.len(),
{
    if s.len() == 0 {
        0
    } else {
        total(s.drop_last()) + s.last().worth()
    }
}

/// A sum of capped numbers is close to the exact one.
pub proof fn lemma_sum_error(s: Seq<Single>, t: nat)
    requires
        forall|i: int| 0 <= i < s.len() ==> is_capped(#[trigger] s[i], t),
        s.len() < 0x100_0000,
        149 <= t <= 252,
    ensures
        sum_of(s).is_plain(),
        sum_of(s).worth() <= s.len() * pow2(t),
        pow2(24) * size(sum_of(s).worth() - total(s)) <= s.len() * (s.len() + 1) * pow2(t),
    decreases s.len(),
{
    lemma_sum_capped(s, t);
    let p = pow2(t);
    lemma_pow2_pos(t);
    if s.len() == 0 {
        lemma_whole_exact(0);
        let n = s.len();
        assert(0 * pow2(149) == 0) by (nonlinear_arith);
        assert(pow2(24) * 0 <= n * (n + 1) * p) by (nonlinear_arith);
    } else {
        let r = s.drop_last();
        let (a, b, q) = (sum_of(r), s.last(), sum_of(s));
        let n = s.len();
        assert forall|i: int| 0 <= i < r.len() implies is_capped(#[trigger] r[i], t) by {
            assert(r[i] == s[i]);
        }
        assert(is_capped(s[n - 1], t));
        lemma_sum_error(r, t);
        lemma_sum(a, b);
        lemma_rounding_error(23, INF as nat, a.worth() + b.worth(), 1);
        lemma2_to64();
        lemma_pow2_adds(1, 23);
        lemma_power_order(23, t);
        let (x, y) = (size(a.worth() - total(r)) as int, size(q.worth() - total(s)) as int);
        let z = size(q.worth() * 1 - (a.worth() + b.worth())) as int;
        assert(y <= x + z);
        assert(pow2(24) == 0x100_0000);
        assert((q.worth() + pow2(23)) * 1 <= (n + 1) * p) by (nonlinear_arith)
            requires q.worth() <= n * p, pow2(23) <= p;
        assert(0x100_0000 * y <= n * (n + 1) * p) by (nonlinear_arith)
            requires
                y <= x + z,
                0x100_0000 * x <= (n - 1) * n * p,
                0x100_0000 * z <= (n + 1) * p,
                n >= 1,
                p > 0,
        ;
    }
}

/// A mean of capped numbers is close to the exact one.
pub proof fn lemma_mean_error(s: Seq<Single>, t: nat)
    requires
        forall|i: int| 0 <= i < s.len() ==> is_capped(#[trigger] s[i], t),
        0 < s.len() < 0x100_0000,
        149 <= t <= 252,
    ensures
        ({
            let m = sum_of(s).over(Single::of_whole(s.len()));
            &&& is_capped(m, t)
            &&& pow2(24) * size(m.worth() * s.len() - total(s)) <= s.len() * (s.len() + 3) * pow2(
                t,
            )
        }),
{
    let n = s.len();
    let (a, b) = (sum_of(s), Single::of_whole(n));
    let m = a.over(b);
    let (p, u) = (pow2(t), pow2(149));
    lemma_sum_error(s, t);
    lemma_whole_exact(n);
    lemma_pow2_pos(t);
    lemma_pow2_pos(149);
    assert(n * u > 0) by (nonlinear_arith) requires n > 0, u > 0;
    lemma_worth(b, b);
    lemma_quotient(a, b);
    let (aw, d) = (a.worth(), n * u);
    assert(aw * u <= 1 * p * d) by (nonlinear_arith) requires aw <= n * p, d == n * u;
    lemma_rounds_within(aw * u, d, 1, t);
    lemma_rounding_error(23, INF as nat, aw * u, d);
    lemma2_to64();
    lemma_pow2_adds(1, 23);
    lemma_power_order(23, t);
    let mw = m.worth();
    let v = mw * n - aw;
    assert(mw * d - aw * u == v * u) by (nonlinear_arith) requires d == n * u, v == mw * n - aw;
    let (x, y, z) = (size(v) as int, size(aw - total(s)) as int, size(mw * n - total(s)) as int);
    assert(size(v * u) == x * u) by (nonlinear_arith) requires x == size(v), u > 0;
    assert(0x100_0000 * x <= 2 * (n * p)) by (nonlinear_arith)
        requires
            0x100_0000 * (x * u) <= (mw + pow2(23)) * d,
            mw <= p,
            pow2(23) <= p,
            d == n * u,
            u > 0,
    ;
    assert(0x100_0000 * z <= n * (n + 3) * p) by (nonlinear_arith)
        requires
            z <= x + y,
            0x100_0000 * x <= 2 * (n * p),
            0x100_0000 * y <= n * (n + 1) * p,
    ;
}

} // verus!
