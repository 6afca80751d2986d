//! What mean, deviation and level are of sounds that are known.
use vstd::arithmetic::power2::{lemma2_to64, lemma_pow2_adds, lemma_pow2_pos, pow2};
use vstd::prelude::*;

use crate::accuracy::{lemma_over_error, lemma_plus_near, lemma_times_near, size};
use crate::analysis::{level, BandModel};
use crate::core_laws::lemma_whole_difference;
use crate::measure_laws::lemma_root_of_square;
use crate::order::{
    lemma_fraction, lemma_of, lemma_product, lemma_quotient, lemma_rounds_within, lemma_same,
    lemma_sum, lemma_sum_grows, lemma_whole_exact, lemma_whole_product, lemma_worth, lemma_zero_one,
};
use crate::rounding::{lemma_on_grid, lemma_rounded_exact, lemma_units_zero};
use crate::single::{Single, INF};
use crate::sums::{squared_distances, squares, sum_of};

verus! {

/// A sum of equal numbers with few digits is exact.
proof fn lemma_equal_sum(s: Seq<Single>, c: nat, t: nat)
    requires
        forall|i: int|
            0 <= i < s.len() ==> (#[trigger] s[i]).is_plain() && s[i].worth() == c * pow2(t),
        s.len() * c < 0x100_0000,
        t <= 200,
    ensures
        sum_of(s).is_plain(),
        sum_of(s).worth() == s.len() * c * pow2(t),
    decreases s.len(),
{
    let n = s.len();
    if n == 0 {
        lemma_whole_exact(0);
        assert(0 * pow2(149) == 0 && 0 * c * pow2(t) == 0) by (nonlinear_arith);
    } else {
        let r = s.drop_last();
        let m = (n - 1) as nat;
        assert forall|i: int| 0 <= i < r.len() implies (#[trigger] r[i]).is_plain()
            && r[i].worth() == c * pow2(t) by {
            assert(r[i] == s[i]);
        }
        assert(m * c <= n * c) by (nonlinear_arith) requires m <= n;
        lemma_equal_sum(r, c, t);
        assert(s[n - 1].is_plain() && s[n - 1].worth() == c * pow2(t));
        lemma_sum(sum_of(r), s.last());
        let k = n * c;
        lemma2_to64();
        let g = lemma_on_grid(23, k, t);
        assert(m * c * pow2(t) + c * pow2(t) == k * pow2(t)) by (nonlinear_arith)
            requires k == n * c, m == n - 1;
        lemma_rounded_exact(23, INF as nat, k * pow2(t), 1, g);
        assert((t + 2) * pow2(23) <= 202 * 0x80_0000) by (nonlinear_arith)
            requires t <= 200, pow2(23) == 0x80_0000;
    }
}

/// The mean of equal numbers with few digits is that number.
proof fn lemma_equal_mean(s: Seq<Single>, c: nat, t: nat)
    requires
        forall|i: int|
            0 <= i < s.len() ==> (#[trigger] s[i]).is_plain() && s[i].worth() == c * pow2(t),
        0 < s.len() < 0x100_0000,
        s.len() * c < 0x100_0000,
        t <= 200,
    ensures
        sum_of(s).over(Single::of_whole(s.len())).is_plain(),
        sum_of(s).over(Single::of_whole(s.len())).worth() == c * pow2(t),
{
    let n = s.len();
    let u = pow2(149);
    let (a, b) = (sum_of(s), Single::of_whole(n));
    lemma2_to64();
    lemma_pow2_pos(149);
    lemma_equal_sum(s, c, t);
    lemma_whole_exact(n);
    assert(n * u > 0) by (nonlinear_arith) requires n > 0, u > 0;
    lemma_worth(b, b);
    lemma_quotient(a, b);
    assert(c < 0x100_0000) by (nonlinear_arith) requires n * c < 0x100_0000, n > 0;
    let g = lemma_on_grid(23, c, t);
    assert((t + 2) * pow2(23) <= 202 * 0x80_0000) by (nonlinear_arith)
        requires t <= 200, pow2(23) == 0x80_0000;
    assert((n * c * pow2(t)) * u == c * pow2(t) * (n * u)) by (nonlinear_arith);
    lemma_rounded_exact(23, INF as nat, (n * c * pow2(t)) * u, n * u, g);
}

/// The level of a sound that swings between two values of the same size, from 0 to 1 in steps of
/// 1/128, is that size.
pub proof fn lemma_level_of_swing(hop: Seq<Single>, k: nat)
    requires
        hop.len() == 512,
        k <= 128,
        forall|i: int|
            0 <= i < 512 ==> (#[trigger] hop[i]).is_finite() && hop[i].magnitude()
                == Single::fraction(k, 128).magnitude(),
    ensures
        level(hop) == Single::fraction(k, 128),
{
    let (u, g, h) = (pow2(149), pow2(142), pow2(135));
    let x = Single::fraction(k, 128);
    let kk = k * k;
    lemma2_to64();
    lemma_pow2_pos(149);
    lemma_pow2_pos(142);
    lemma_pow2_pos(135);
    lemma_pow2_adds(142, 7);
    lemma_pow2_adds(135, 14);
    lemma_pow2_adds(142, 142);
    lemma_pow2_adds(135, 149);
    // The size.
    lemma_whole_exact(k);
    lemma_whole_exact(128);
    lemma_worth(Single::of_whole(128), Single::of_whole(128));
    lemma_quotient(Single::of_whole(k), Single::of_whole(128));
    let j = lemma_on_grid(23, k, 142);
    assert((k * u) * u == k * g * (128 * u)) by (nonlinear_arith) requires u == g * 128;
    lemma_rounded_exact(23, INF as nat, (k * u) * u, 128 * u, j);
    assert(x.is_plain() && x.worth() == k * g);
    // The squares.
    let s = squares(hop);
    assert(kk <= 16384) by (nonlinear_arith) requires kk == k * k, k <= 128;
    let q = lemma_on_grid(23, kk, 135);
    assert((k * g) * (k * g) == kk * h * u) by (nonlinear_arith)
        requires kk == k * k, g * g == h * u;
    lemma_rounded_exact(23, INF as nat, (k * g) * (k * g), u, q);
    assert forall|i: int| 0 <= i < s.len() implies (#[trigger] s[i]).is_plain() && s[i].worth()
        == kk * h by {
        let y = hop[i];
        assert(y.worth() == k * g);
        reveal(Single::product);
        lemma_of(false, q);
        assert(s[i] == y.times(y));
    }
    lemma_equal_mean(s, kk, 135);
    let m = sum_of(s).over(Single::of_whole(512));
    if k == 0 {
        lemma_units_zero(23);
        lemma_worth(m, Single::of_whole(0));
        lemma_zero_one();
        lemma_worth(x, Single::of_whole(0));
        assert(0 * h == 0 && 0 * g == 0) by (nonlinear_arith);
        reveal(Single::square_root);
        lemma_same(m.sqrt(), x);
    } else {
        assert(k * g > 0) by (nonlinear_arith) requires k > 0, g > 0;
        lemma_worth(x, x);
        lemma_root_of_square(m, x);
    }
}

/// A tenth of a whole number and a millionth.
proof fn lemma_least_deviation(m: nat)
    requires
        m < 0x1000,
    ensures
        ({
            let f = Single::of_whole(m).times(Single::fraction(1, 10)).plus(
                Single::fraction(1, 1000000),
            );
            &&& f.is_plain() && f.magnitude() > 0
            &&& f.worth() <= (m + 1) * pow2(146)
            &&& m < 256 ==> size(10 * f.worth() - m * pow2(149)) <= pow2(141)
        }),
{
    let (u, h, e) = (pow2(149), pow2(146), pow2(129));
    let (a, ten, tenth) = (Single::of_whole(m), Single::of_whole(10), Single::fraction(1, 10));
    let tiny = Single::fraction(1, 1000000);
    lemma2_to64();
    lemma_pow2_pos(149);
    lemma_pow2_pos(146);
    lemma_pow2_pos(129);
    lemma_pow2_adds(146, 3);
    lemma_pow2_adds(129, 20);
    lemma_pow2_adds(129, 12);
    lemma_whole_exact(m);
    lemma_whole_exact(1);
    lemma_whole_exact(10);
    lemma_worth(ten, ten);
    lemma_fraction(1, 1, 10, 1);
    lemma_fraction(1, 1, 1000000, 1);
    // A tenth lies below an eighth.
    lemma_quotient(Single::of_whole(1), ten);
    assert((1 * u) * u <= 1 * h * (10 * u)) by (nonlinear_arith) requires u == 8 * h, u > 0;
    lemma_rounds_within((1 * u) * u, 10 * u, 1, 146);
    lemma_over_error(Single::of_whole(1), ten);
    let c = tenth.worth();
    let p = a.times(tenth);
    lemma_product(a, tenth);
    assert((m * u) * c <= m * h * u) by (nonlinear_arith) requires c <= 1 * h;
    lemma_rounds_within((m * u) * c, u, m, 146);
    // A millionth lies below 2^-18.
    let d = Single::of_whole(1000000);
    lemma_whole_exact(1000000);
    assert(1000000 * u > 0) by (nonlinear_arith) requires u > 0;
    lemma_worth(d, d);
    lemma_quotient(Single::of_whole(1), d);
    assert((1 * u) * u <= 2 * e * (1000000 * u)) by (nonlinear_arith)
        requires u == 0x10_0000 * e, u > 0;
    lemma_rounds_within((1 * u) * u, 1000000 * u, 2, 129);
    let f = p.plus(tiny);
    lemma_sum(p, tiny);
    lemma_sum_grows(tiny, p);
    assert(tiny.worth() + p.worth() == p.worth() + tiny.worth());
    assert(p.worth() + tiny.worth() <= (m + 1) * h * 1) by (nonlinear_arith)
        requires p.worth() <= m * h, tiny.worth() <= 2 * e, u == 8 * h, u == 0x10_0000 * e;
    lemma_rounds_within(p.worth() + tiny.worth(), 1, m + 1, 146);
    lemma_sum(tiny, p);
    lemma_same(tiny.plus(p), f);
    if m < 256 {
        let (mi, ci) = (m as int, c as int);
        let v = 10 * ci - u;
        assert(ci * (10 * u) - (1 * u) * u == v * u) by (nonlinear_arith) requires v == 10 * ci - u;
        assert(-(10 * e) <= v <= 10 * e) by (nonlinear_arith)
            requires -(e * (10 * u)) <= v * u <= e * (10 * u), u > 0;
        assert((m * u) * c <= 255 * u * u) by (nonlinear_arith)
            requires m <= 255, c <= u;
        lemma_times_near(a, tenth, 255);
        assert(m * h <= 255 * u) by (nonlinear_arith) requires m <= 255, u == 8 * h;
        lemma_plus_near(p, tiny, 256);
        let (pw, fw, tw) = (p.worth() as int, f.worth() as int, tiny.worth() as int);
        let k = pw * u - (mi * u) * ci;
        assert(-(256 * u * u) <= 0x100_0000 * k <= 256 * u * u);
        let z = 10 * pw - mi * u;
        let mc = mi * ci;
        assert((mi * u) * ci == mc * u) by (nonlinear_arith) requires mc == mi * ci;
        let w = pw - mc;
        assert(w * u == k) by (nonlinear_arith) requires w == pw - mc, k == pw * u - mc * u;
        assert(-(256 * u) <= 0x100_0000 * w <= 256 * u) by (nonlinear_arith)
            requires -(256 * u * u) <= 0x100_0000 * (w * u) <= 256 * u * u, u > 0;
        assert(10 * mc - mi * u == mi * v) by (nonlinear_arith)
            requires mc == mi * ci, v == 10 * ci - u;
        assert(-(2550 * e) <= mi * v <= 2550 * e) by (nonlinear_arith)
            requires -(10 * e) <= v <= 10 * e, 0 <= mi <= 255, e > 0;
        assert(-(16 * e) <= w <= 16 * e);
        assert(-(2710 * e) <= z <= 2710 * e);
        assert(f.exact() == fw && p.exact() == pw && tiny.exact() == tw);
        assert(u == 0x10_0000 * e);
        assert(0x100_0000 * size(fw - (pw + tw)) <= 257 * u);
        assert(size(fw - (pw + tw)) <= 17 * e);
    }
}

/// The deviation of a flux that swings by `d` about its mean is `d`, where that is not small
/// against the mean, and that of a steady flux a tenth of the mean, at most 2^-8 off.
pub proof fn lemma_deviation_of_swing(b: BandModel, m: nat, d: nat)
    requires
        0 < b.history.len() <= 128,
        d <= 256,
        m < 0x1000,
        b.mean() == Single::of_whole(m),
        forall|i: int|
            0 <= i < b.history.len() ==> (#[trigger] b.history[i] == Single::of_whole(m + d) || (d
                <= m && b.history[i] == Single::of_whole((m - d) as nat))),
    ensures
        m + 1 < 8 * d ==> b.deviation() == Single::of_whole(d),
        d == 0 && m < 256 ==> b.deviation().is_plain() && size(
            10 * b.deviation().worth() - m * pow2(149),
        ) <= pow2(141),
{
    let n = b.history.len();
    let u = pow2(149);
    let dd = d * d;
    let s = squared_distances(b.history, b.mean());
    let y = Single::of_whole(d);
    lemma2_to64();
    lemma_pow2_pos(149);
    lemma_pow2_adds(146, 3);
    lemma_pow2_pos(146);
    assert(dd <= 65536) by (nonlinear_arith) requires dd == d * d, d <= 256;
    assert(n * dd < 0x100_0000) by (nonlinear_arith) requires n <= 128, dd <= 65536;
    lemma_whole_exact(d);
    lemma_whole_exact(dd);
    lemma_whole_product(d, d);
    assert forall|i: int| 0 <= i < s.len() implies (#[trigger] s[i]).is_plain() && s[i].worth()
        == dd * u by {
        let x = b.history[i];
        assert(x == Single::of_whole(m + d) || (d <= m && x == Single::of_whole((m - d) as nat)));
        lemma_whole_difference(m, m + d);
        if d <= m {
            lemma_whole_difference(m, (m - d) as nat);
        }
        let z = x.minus(b.mean());
        assert(s[i] == z.times(z));
        if z != y {
            assert(z == y.neg());
            lemma_negative_square(y);
        }
    }
    lemma_equal_mean(s, dd, 149);
    let v = sum_of(s).over(Single::of_whole(n));
    lemma_least_deviation(m);
    let f = Single::of_whole(m).times(Single::fraction(1, 10)).plus(Single::fraction(1, 1000000));
    if d == 0 {
        lemma_units_zero(23);
        lemma_zero_one();
        assert(0 * u == 0) by (nonlinear_arith);
        lemma_worth(v, Single::of_whole(0));
        reveal(Single::square_root);
        assert(v.sqrt().magnitude() == 0);
        assert(b.deviation() == f);
    } else {
        assert(d * u > 0) by (nonlinear_arith) requires d > 0, u > 0;
        lemma_worth(y, y);
        assert((d * u) * (d * u) == (dd * u) * u) by (nonlinear_arith) requires dd == d * d;
        lemma_root_of_square(v, y);
        if m + 1 < 8 * d {
            assert(f.worth() < d * u) by (nonlinear_arith)
                requires f.worth() <= (m + 1) * pow2(146), m + 1 < 8 * d, u == 8 * pow2(146), u > 0;
            lemma_worth(f, y);
        }
    }
}

/// The square of a number is that of its opposite.
proof fn lemma_negative_square(y: Single)
    requires
        y.is_plain(),
    ensures
        y.neg().times(y.neg()) == y.times(y),
{
    reveal(Single::product);
    lemma_of(true, y.magnitude());
}

} // verus!
