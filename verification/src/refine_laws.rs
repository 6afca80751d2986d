//! How a tempo is read off a period, and what is remembered for it.
use vstd::arithmetic::power2::{lemma2_to64, lemma_pow2_adds, lemma_pow2_pos, pow2};
use vstd::prelude::*;

use crate::accuracy::{lemma_plus_error, lemma_times_error, size};
use crate::analysis::{AnalyzerConfig, AnalyzerModel, BandModel};
use crate::core_laws::lemma_whole_difference;
use crate::double::Double;
use crate::genre_laws::lemma_zero_product;
use crate::order::{
    lemma_fraction, lemma_of, lemma_product, lemma_quotient, lemma_rounds_within, lemma_same,
    lemma_share, lemma_sum, lemma_times_share, lemma_whole_exact, lemma_whole_order,
    lemma_whole_product, lemma_worth, lemma_zero_one,
};
use crate::rounding::{
    lemma_on_grid, lemma_rounded_exact, lemma_rounded_monotone, lemma_rounded_nearest,
    lemma_units_zero, rounded, units,
};
use crate::single::{Single, INF};
use crate::tempo::{bell, correlation, hop_rate, lag_score, lag_tempo, vertex, TempoModel};

verus! {

/// The same quotient, rounded.
proof fn lemma_same_quotient(n: nat, d: nat, m: nat, e: nat)
    requires
        d > 0,
        e > 0,
        n * e == m * d,
    ensures
        rounded(23, INF as nat, n, d) == rounded(23, INF as nat, m, e),
{
    lemma_rounded_monotone(23, INF as nat, n, d, m, e);
    lemma_rounded_monotone(23, INF as nat, m, e, n, d);
}

/// A period of `p` hops of 512 samples is a tempo of 60 times the sample rate by its samples.
pub proof fn lemma_period_tempo(hz: nat, p: nat)
    requires
        0 < p < 0x8000,
        0 < hz,
        60 * hz < 0x100_0000,
    ensures
        lag_tempo(Single::of_whole(hz), Single::of_whole(p)) == Single::fraction(60 * hz, 512 * p),
{
    let (u, g) = (pow2(149), pow2(140));
    let (rate, size) = (Single::of_whole(hz), Single::of_whole(512));
    lemma2_to64();
    lemma_pow2_pos(149);
    lemma_pow2_pos(140);
    lemma_pow2_adds(140, 9);
    lemma_whole_exact(hz);
    lemma_whole_exact(512);
    lemma_whole_exact(60);
    lemma_whole_exact(p);
    lemma_whole_exact(60 * hz);
    lemma_whole_exact(512 * p);
    assert(512 * u > 0 && p * u > 0 && (512 * p) * u > 0) by (nonlinear_arith)
        requires u > 0, p > 0;
    lemma_worth(size, size);
    lemma_worth(Single::of_whole(p), Single::of_whole(p));
    lemma_worth(Single::of_whole(512 * p), Single::of_whole(512 * p));
    lemma_quotient(rate, size);
    let k = lemma_on_grid(23, hz, 140);
    assert((hz * u) * u == hz * g * (512 * u)) by (nonlinear_arith) requires u == g * 512;
    lemma_rounded_exact(23, INF as nat, (hz * u) * u, 512 * u, k);
    let h = hop_rate(rate);
    assert(h.is_plain() && h.worth() == hz * g);
    lemma_product(Single::of_whole(60), h);
    let m = 60 * hz;
    let j = lemma_on_grid(23, m, 140);
    assert((60 * u) * (hz * g) == m * g * u) by (nonlinear_arith) requires m == 60 * hz;
    lemma_rounded_exact(23, INF as nat, (60 * u) * (hz * g), u, j);
    let t = Single::of_whole(60).times(h);
    assert(t.is_plain() && t.worth() == m * g);
    lemma_quotient(t, Single::of_whole(p));
    lemma_quotient(Single::of_whole(m), Single::of_whole(512 * p));
    assert(((m * g) * u) * ((512 * p) * u) == ((m * u) * u) * (p * u)) by (nonlinear_arith)
        requires u == g * 512;
    lemma_same_quotient((m * g) * u, p * u, (m * u) * u, (512 * p) * u);
    lemma_same(t.over(Single::of_whole(p)), Single::fraction(m, 512 * p));
}

/// The opposite of a whole number.
spec fn minus_whole(n: nat) -> Single {
    Single::of_whole(n).neg()
}

proof fn lemma_minus_whole(n: nat)
    requires
        n < 0x100_0000,
    ensures
        minus_whole(n).is_finite(),
        minus_whole(n).is_negative(),
        minus_whole(n).worth() == n * pow2(149),
        minus_whole(n).exact() == -(n * pow2(149)),
{
    lemma_whole_exact(n);
    lemma_of(true, Single::of_whole(n).magnitude());
}

/// A negative whole number and a smaller positive one.
proof fn lemma_minus_plus(a: nat, b: nat)
    requires
        b < a < 0x100_0000,
    ensures
        minus_whole(a).plus(Single::of_whole(b)) == minus_whole((a - b) as nat),
{
    reveal(Single::sum);
    let u = pow2(149);
    let n = (a - b) as nat;
    lemma2_to64();
    lemma_pow2_pos(149);
    lemma_minus_whole(a);
    lemma_whole_exact(b);
    lemma_whole_exact(n);
    lemma_minus_whole(n);
    let k = lemma_on_grid(23, n, 149);
    lemma_rounded_exact(23, INF as nat, n * u, 1, k);
    lemma_of(true, k);
    lemma_of(false, k);
    assert(a * u - b * u == n * u && n * u > 0) by (nonlinear_arith)
        requires n == a - b, n > 0, u > 0;
    lemma_worth(Single::of(false, k), Single::of_whole(n));
    lemma_same(minus_whole(a).plus(Single::of_whole(b)), minus_whole(n));
}

/// The top of a parabola lies toward the higher neighbour: for whole numbers, by the exact quotient
/// of their difference and twice what the middle stands above both.
pub proof fn lemma_vertex(a: nat, b: nat, c: nat)
    requires
        a < c <= b < 0x10_0000,
    ensures
        vertex(Single::of_whole(a), Single::of_whole(b), Single::of_whole(c)) == Single::fraction(
            (c - a) as nat,
            2 * (2 * b - a - c) as nat,
        ),
{
    let u = pow2(149);
    let (y0, y1, y2) = (Single::of_whole(a), Single::of_whole(b), Single::of_whole(c));
    let half = Single::fraction(1, 2);
    let (d, n) = ((2 * b - a - c) as nat, (c - a) as nat);
    lemma2_to64();
    lemma_pow2_pos(149);
    lemma_pow2_adds(148, 1);
    lemma_zero_one();
    lemma_whole_product(2, b);
    assert(2 * b > a);
    lemma_whole_difference(2 * b, a);
    assert(y0.minus(Single::of_whole(2 * b)) == minus_whole((2 * b - a) as nat));
    lemma_minus_plus((2 * b - a) as nat, c);
    let denom = y0.minus(Single::of_whole(2).times(y1)).plus(y2);
    assert(denom == minus_whole(d));
    lemma_minus_whole(d);
    lemma_whole_exact(d);
    lemma_whole_exact(1);
    lemma_whole_exact(n);
    lemma_whole_exact(2 * d);
    lemma_minus_whole(n);
    lemma_whole_difference(c, a);
    assert(y0.minus(y2) == minus_whole(n));
    // What the middle stands above both is 1 at least.
    let least = Single::fraction(1, 1000000000);
    lemma_least_step();
    lemma_of(false, denom.magnitude());
    assert(d * u >= 1 * u) by (nonlinear_arith) requires d >= 1, u > 0;
    lemma_worth(denom.abs(), Single::of_whole(1));
    assert(least.lt(denom.abs()));
    // Half of the difference.
    lemma_fraction(1, 1, 2, 1);
    lemma_half_worth();
    let x = half.times(minus_whole(n));
    let k = lemma_on_grid(23, n, 148);
    assert(x.is_finite() && x.is_negative() && x.worth() == n * pow2(148)) by {
        reveal(Single::product);
        assert(pow2(148) * (n * u) == n * pow2(148) * u) by (nonlinear_arith);
        lemma_rounded_exact(23, INF as nat, pow2(148) * (n * u), u, k);
        lemma_of(true, k);
    }
    // The quotient of two negative numbers.
    let f = Single::fraction(n, 2 * d);
    assert(d * u > 0 && (2 * d) * u > 0) by (nonlinear_arith) requires d > 0, u > 0;
    lemma_worth(Single::of_whole(2 * d), Single::of_whole(2 * d));
    lemma_worth(denom, denom);
    lemma_quotient(Single::of_whole(n), Single::of_whole(2 * d));
    assert(((n * pow2(148)) * u) * ((2 * d) * u) == ((n * u) * u) * (d * u)) by (nonlinear_arith)
        requires u == pow2(148) * 2;
    lemma_same_quotient((n * pow2(148)) * u, d * u, (n * u) * u, (2 * d) * u);
    assert(x.over(denom) == f) by {
        reveal(Single::quotient);
        lemma_of(false, f.magnitude());
        lemma_same(x.over(denom), f);
    }
    // It does not lie beyond the half.
    assert(((n * u) * u) * 2 <= 1 * u * ((2 * d) * u)) by (nonlinear_arith) requires n <= d, u > 0;
    lemma_whole_exact(2);
    lemma_worth(Single::of_whole(2), Single::of_whole(2));
    lemma_quotient(Single::of_whole(1), Single::of_whole(2));
    assert(((n * u) * u) * (2 * u) <= ((1 * u) * u) * ((2 * d) * u)) by (nonlinear_arith)
        requires n <= d, u > 0;
    lemma_rounded_monotone(23, INF as nat, (n * u) * u, (2 * d) * u, (1 * u) * u, 2 * u);
    lemma_of(true, half.magnitude());
    assert(f.clamp(half.neg(), half) == f);
}

proof fn lemma_half_worth()
    ensures
        Single::fraction(1, 2).worth() == pow2(148),
{
    let u = pow2(149);
    lemma2_to64();
    lemma_pow2_pos(149);
    lemma_pow2_adds(148, 1);
    lemma_whole_exact(1);
    lemma_whole_exact(2);
    lemma_worth(Single::of_whole(2), Single::of_whole(2));
    lemma_quotient(Single::of_whole(1), Single::of_whole(2));
    let k = lemma_on_grid(23, 1, 148);
    assert((1 * u) * u == 1 * pow2(148) * (2 * u)) by (nonlinear_arith) requires u == pow2(148) * 2;
    lemma_rounded_exact(23, INF as nat, (1 * u) * u, 2 * u, k);
}

proof fn lemma_least_step()
    ensures
        Single::fraction(1, 1000000000).is_plain(),
        Single::fraction(1, 1000000000).magnitude() < Single::of_whole(1).magnitude(),
{
    let (one, b) = (Single::of_whole(1), Single::of_whole(1000000000));
    let u = pow2(149);
    lemma2_to64();
    lemma_pow2_pos(149);
    lemma_pow2_adds(148, 1);
    lemma_whole_exact(1);
    lemma_whole_exact(2);
    lemma_zero_one();
    lemma_whole_order(2, 1000000000);
    lemma_worth(Single::of_whole(2), b);
    lemma_quotient(one, b);
    let bw = b.worth();
    assert((1 * u) * u <= 1 * pow2(148) * bw) by (nonlinear_arith)
        requires 2 * u <= bw, u == 2 * pow2(148), u > 0;
    lemma_rounds_within((1 * u) * u, bw, 1, 148);
    lemma_worth(one.over(b), one);
}

/// The score of a period of full weight is its correlation and half that of twice the period, at
/// most 2^-18 off.
pub proof fn lemma_full_score(c: Seq<Single>, weights: Seq<Single>, p: nat)
    requires
        weights[p as int] == Single::of_whole(1),
        correlation(c, p).is_share(),
        correlation(c, 2 * p).is_share(),
    ensures
        ({
            let (s, t) = (correlation(c, p).worth(), correlation(c, 2 * p).worth());
            let r = lag_score(c, weights, p);
            &&& r.is_plain()
            &&& 2 * p + 8 < c.len() ==> size(2 * r.worth() - (2 * s + t)) <= pow2(132)
            &&& 2 * p + 8 >= c.len() ==> r.worth() == s
        }),
{
    let (s, t) = (correlation(c, p), correlation(c, p * 2));
    let (u, e) = (pow2(149) as int, pow2(129) as int);
    let (one, half) = (Single::of_whole(1), Single::fraction(1, 2));
    assert(p * 2 == 2 * p);
    lemma2_to64();
    lemma_pow2_pos(149);
    lemma_pow2_pos(129);
    lemma_pow2_adds(148, 1);
    lemma_pow2_adds(3, 129);
    lemma_pow2_adds(20, 129);
    lemma_zero_one();
    lemma_whole_exact(1);
    lemma_worth(s, one);
    lemma_worth(t, one);
    lemma_fraction(1, 1, 2, 1);
    lemma_half_worth();
    lemma_times_share(one, s);
    let h = half.times(t);
    lemma_times_share(half, t);
    lemma_times_error(half, t);
    lemma_worth(h, t);
    lemma_plus_error(s, h);
    lemma_sum(s, h);
    let r = s.plus(h);
    lemma_times_share(one, r);
    let (hw, tw) = (h.worth() as int, t.worth() as int);
    let v = 2 * hw - tw;
    assert(2 * (hw * u - pow2(148) * tw) == v * u) by (nonlinear_arith)
        requires v == 2 * hw - tw, u == 2 * pow2(148);
    assert(-(2 * e) <= v <= 2 * e) by (nonlinear_arith)
        requires -(2 * (e * u)) <= v * u <= 2 * (e * u), u > 0;
}

/// The envelope keeps the last 1024 onsets.
pub proof fn lemma_envelope(m: TempoModel, onset: Single)
    ensures
        ({
            let n = m.pushed(onset);
            &&& n.onsets.last() == onset
            &&& m.onsets.len() < 1024 ==> n.onsets == m.onsets.push(onset)
            &&& m.onsets.len() == 1024 ==> n.onsets.len() == 1024 && n.onsets.take(1023)
                == m.onsets.skip(1)
            &&& n.bpm == m.bpm && n.confidence == m.confidence && n.outliers == m.outliers
        }),
{
    if m.onsets.len() == 1024 {
        assert(m.pushed(onset).onsets.take(1023) =~= m.onsets.skip(1));
    }
}

/// A band remembers the last 128 values of its flux.
pub proof fn lemma_history(
    b: BandModel,
    config: AnalyzerConfig,
    i: int,
    power: Single,
    flux: Single,
    total: Single,
    now: Double,
)
    ensures
        ({
            let h = b.after(config, i, power, flux, total, now).history;
            &&& h.last() == flux
            &&& b.history.len() < 128 ==> h == b.history.push(flux)
            &&& b.history.len() == 128 ==> h.len() == 128 && h.take(127) == b.history.skip(1)
            &&& b.after(config, i, power, flux, total, now).bins == b.bins
        }),
{
    if b.history.len() == 128 {
        let h = b.after(config, i, power, flux, total, now).history;
        assert(h.take(127) =~= b.history.skip(1));
    }
}

/// The tempo is estimated at every 47th hop, of all onsets up to it, and at no other.
pub proof fn lemma_estimates(m: AnalyzerModel, mags: Seq<Single>)
    ensures
        ({
            let heard = m.tempo.pushed(m.onset(mags));
            let due = exists|k: nat| m.hops == #[trigger] (47 * k);
            &&& due ==> m.output(mags).tempo == heard.estimated().1 && m.processed(mags).tempo
                == heard.estimated().0
            &&& !due ==> m.output(mags).tempo is None && m.processed(mags).tempo == heard
        }),
{
    if m.hops % 47 == 0 {
        assert(m.hops == 47 * (m.hops / 47));
    }
}

/// The weight of a tempo falls alike on both sides of the middle, and at nine tenths of an octave
/// its logarithm is minus a half.
pub proof fn lemma_bell(x: Single)
    requires
        x.is_finite(),
    ensures
        bell(x.neg()).magnitude() == bell(x).magnitude(),
        x == Single::fraction(9, 10) ==> bell(x) == Single::fraction(1, 2).neg(),
        x == Single::of_whole(0) ==> bell(x).magnitude() == 0,
{
    reveal(Single::quotient);
    reveal(Single::product);
    let (nine, half, one) = (Single::fraction(9, 10), Single::fraction(1, 2), Single::of_whole(1));
    lemma_zero_one();
    lemma_fraction(9, 9, 10, 1);
    lemma_fraction(1, 1, 2, 1);
    lemma_of(!x.is_negative(), x.magnitude());
    lemma_of(true, half.magnitude());
    lemma_worth(nine, nine);
    let k = rounded(23, INF as nat, x.worth() * pow2(149), nine.worth());
    lemma_rounded_nearest(23, INF as nat, x.worth() * pow2(149), nine.worth());
    lemma_of(true, k);
    lemma_of(false, k);
    let (y, w) = (x.over(nine), x.neg().over(nine));
    assert(y.magnitude() == k && w.magnitude() == k && y.is_negative() != w.is_negative());
    lemma_same_size(half.neg(), half.neg(), y, w);
    lemma_same_size(half.neg().times(y), half.neg().times(w), y, w);
    if x == nine {
        lemma_share(nine, nine);
        lemma_minus_half();
    }
    if x == Single::of_whole(0) {
        lemma_units_zero(23);
        lemma_worth(nine, nine);
        assert(0 * pow2(149) == 0) by (nonlinear_arith);
        lemma_rounded_exact(23, INF as nat, 0, nine.worth(), 0);
        lemma_of(false, 0);
        let y = x.over(nine);
        assert(y.magnitude() == 0);
        let z = half.neg().times(y);
        lemma_of(true, half.magnitude());
        lemma_zero_product(half.neg(), y);
        lemma_zero_product(z, y);
    }
}

/// Products of numbers of the same size are of the same size.
proof fn lemma_same_size(a: Single, b: Single, x: Single, y: Single)
    requires
        a.magnitude() == b.magnitude(),
        x.magnitude() == y.magnitude(),
    ensures
        a.times(x).magnitude() == b.times(y).magnitude(),
{
    reveal(Single::product);
    let n = units(23, a.magnitude()) * units(23, x.magnitude());
    let k = rounded(23, INF as nat, n, pow2(149));
    lemma_rounded_nearest(23, INF as nat, n, pow2(149));
    lemma_of(true, k);
    lemma_of(false, k);
    lemma_of(true, INF as nat);
    lemma_of(false, INF as nat);
}

proof fn lemma_minus_half()
    ensures
        Single::fraction(1, 2).neg().times(Single::of_whole(1)).times(Single::of_whole(1))
            == Single::fraction(1, 2).neg(),
{
    reveal(Single::product);
    let (u, h, one) = (pow2(149), Single::fraction(1, 2), Single::of_whole(1));
    lemma_pow2_pos(149);
    lemma_whole_exact(1);
    lemma_fraction(1, 1, 2, 1);
    lemma_of(true, h.magnitude());
    assert(units(23, h.magnitude()) * (1 * u) == units(23, h.magnitude()) * u);
    lemma_rounded_exact(23, INF as nat, h.worth() * (1 * u), u, h.magnitude());
    lemma_same(h.neg().times(one), h.neg());
}

} // verus!
