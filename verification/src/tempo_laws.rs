//! What holds of the tempo estimate.
use vstd::arithmetic::power2::{lemma2_to64, lemma_pow2_adds, lemma_pow2_pos, pow2};
use vstd::prelude::*;

use crate::accuracy::{lemma_rounding_error, size};
use crate::bounds::{
    is_capped, is_small, lemma_difference_small, lemma_minus_small, lemma_plus_small,
    lemma_power_order, lemma_product_small, lemma_quotient_small, lemma_sum_capped, lemma_sum_small,
};
use crate::order::{
    lemma_doubled, lemma_halved, lemma_of, lemma_product, lemma_product_order, lemma_quotient,
    lemma_quotient_number, lemma_quotient_order, lemma_rounds_beyond, lemma_rounds_within,
    lemma_times_share, lemma_whole_exact, lemma_whole_order, lemma_whole_product,
    lemma_whole_quotient, lemma_worth, lemma_zero_one,
};
use crate::rounding::{lemma_multiple, lemma_on_grid, lemma_rounded_exact, rounded, units};
use crate::single::{Single, INF};
use crate::sums::{mean_of, squares, sum_of};
use crate::tempo::{
    centered, correlation, hop_rate, lag_max, lag_min, lag_scores, lag_tempo, lagged_products,
    lowered, peak, peak_tempo, power, raised, reading, vertex, TempoModel, ONSET_ENVELOPE_LEN,
};

verus! {

/// A positive tempo that is doubled while it is below 70 ends at 70 or above, and not above 140
/// where it had to be doubled.
pub proof fn lemma_raised(x: Single)
    requires
        x.is_plain(),
        x.magnitude() > 0,
    ensures
        raised(x).is_plain(),
        Single::of_whole(70).magnitude() <= raised(x).magnitude(),
        raised(x) == x || raised(x).magnitude() <= Single::of_whole(140).magnitude(),
    decreases INF - x.magnitude(),
{
    let (low, two, top) = (Single::of_whole(70), Single::of_whole(2), Single::of_whole(140));
    lemma_zero_one();
    lemma_whole_exact(2);
    lemma_whole_order(70, 140);
    lemma_whole_product(70, 2);
    if x.lt(low) && Single::of_whole(0).lt(x) {
        lemma_doubled(x);
        lemma_product_order(x, low, two);
        lemma_raised(x.times(two));
    }
}

/// A tempo of 70 or more that is halved while it is above 200 ends from 70 to 200.
proof fn lemma_lowered(x: Single)
    requires
        x.is_plain(),
        Single::of_whole(70).magnitude() <= x.magnitude(),
    ensures
        lowered(x).is_plain(),
        Single::of_whole(70).magnitude() <= lowered(x).magnitude()
            <= Single::of_whole(200).magnitude(),
    decreases x.magnitude(),
{
    let (high, two) = (Single::of_whole(200), Single::of_whole(2));
    lemma_whole_order(70, 100);
    lemma_whole_order(1, 200);
    lemma_whole_order(1, 2);
    lemma_whole_quotient(100, 2);
    if high.lt(x) {
        crate::tempo::lemma_above(x);
        lemma_halved(x);
        lemma_quotient_order(high, x, two);
        lemma_lowered(x.over(two));
    }
}

/// Every tempo above zero is folded into the range of dance music, 70 to 200.
pub proof fn lemma_folded_tempo(x: Single)
    requires
        x.is_finite(),
        Single::of_whole(0).lt(x),
    ensures
        Single::of_whole(70).le(lowered(raised(x))),
        lowered(raised(x)).le(Single::of_whole(200)),
{
    lemma_zero_one();
    lemma_whole_order(70, 200);
    lemma_raised(x);
    lemma_lowered(raised(x));
}

/// A tempo from 70 to 200 is not changed by folding.
pub proof fn lemma_tempo_in_range(x: Single)
    requires
        Single::of_whole(70).le(x),
        x.le(Single::of_whole(200)),
    ensures
        lowered(raised(x)) == x,
{
    lemma_whole_order(70, 200);
}

/// The tracker after a reading.
pub open spec fn after_reading(m: TempoModel, bpm: Single) -> TempoModel {
    let (next, outliers) = m.smoothed(bpm);
    TempoModel { bpm: next, outliers, ..m }
}

/// A reading far from a tempo.
pub open spec fn is_far(m: TempoModel, bpm: Single) -> bool {
    !bpm.minus(m.bpm).abs().lt(Single::of_whole(4))
}

/// A tempo jumps only at the fourth reading in a row that is far from it, and jumps to that one.
pub proof fn lemma_tempo_jumps_late(m: TempoModel, a: Single, b: Single, c: Single, d: Single)
    requires
        Single::of_whole(0).lt(m.bpm),
        m.outliers == 0,
        is_far(m, a),
        is_far(m, b),
        is_far(m, c),
        is_far(m, d),
    ensures
        ({
            let (x, y, z) = (
                after_reading(m, a),
                after_reading(after_reading(m, a), b),
                after_reading(after_reading(after_reading(m, a), b), c),
            );
            &&& x.bpm == m.bpm && y.bpm == m.bpm && z.bpm == m.bpm
            &&& after_reading(z, d).bpm == d
            &&& after_reading(z, d).outliers == 0
        }),
{
}

/// A reading near the tempo forgets the far ones before it.
pub proof fn lemma_near_reading_forgets(m: TempoModel, a: Single)
    requires
        Single::of_whole(0).lt(m.bpm),
        !is_far(m, a),
    ensures
        after_reading(m, a).outliers == 0,
{
}

/// From 70 to 200 beats per minute.
pub open spec fn is_dance_tempo(v: Single) -> bool {
    Single::of_whole(70).le(v) && v.le(Single::of_whole(200))
}

/// No tempo is known yet, or it lies from 70 to 200.
pub open spec fn has_dance_tempo(m: TempoModel) -> bool {
    m.bpm.le(Single::of_whole(0)) || is_dance_tempo(m.bpm)
}

/// The peak is one of the scores.
proof fn lemma_peak(scores: Seq<Single>)
    ensures
        peak(scores).0 matches Some(i) ==> i < scores.len(),
    decreases scores.len(),
{
    if scores.len() > 0 {
        lemma_peak(scores.drop_last());
    }
}

/// One half in units.
proof fn lemma_half()
    ensures
        Single::fraction(1, 2).is_plain(),
        Single::fraction(1, 2).worth() == pow2(148),
{
    let (one, two) = (Single::of_whole(1), Single::of_whole(2));
    lemma2_to64();
    lemma_whole_exact(1);
    lemma_whole_exact(2);
    lemma_pow2_pos(149);
    lemma_worth(two, two);
    lemma_pow2_adds(1, 148);
    assert(2 * pow2(149) > 0) by (nonlinear_arith) requires pow2(149) > 0;
    lemma_quotient(one, two);
    let (n, d) = (one.worth() * pow2(149), two.worth());
    assert(n == 1 * pow2(148) * d) by (nonlinear_arith)
        requires
            n == 1 * pow2(149) * pow2(149),
            d == 2 * pow2(149),
            pow2(149) == 2 * pow2(148),
    ;
    lemma_rounds_within(n, d, 1, 148);
    lemma_rounds_beyond(n, d, 1, 148);
}

/// Hops per minute are positive and finite at every sample rate.
proof fn lemma_hops_per_minute(hz: nat)
    requires
        0 < hz <= u32::MAX,
    ensures
        ({
            let t = Single::of_whole(60).times(hop_rate(Single::of_whole(hz)));
            t.is_plain() && pow2(140) <= t.worth() <= 60 * pow2(172)
        }),
{
    reveal(Single::of_whole);
    let u = pow2(149);
    let (rate, size, sixty) = (Single::of_whole(hz), Single::of_whole(512), Single::of_whole(60));
    lemma2_to64();
    lemma_pow2_pos(149);
    lemma_pow2_adds(32, 149);
    lemma_pow2_adds(9, 172);
    lemma_pow2_adds(9, 140);
    assert(u <= hz * u <= pow2(181)) by (nonlinear_arith)
        requires 0 < hz <= 0x1_0000_0000, u > 0, pow2(181) == 0x1_0000_0000 * u;
    lemma_rounds_within(hz * u, 1, 1, 181);
    lemma_rounds_beyond(hz * u, 1, 1, 149);
    lemma_of(false, rounded(23, INF as nat, hz * u, 1));
    assert(u <= rate.worth() <= pow2(181));
    lemma_whole_exact(512);
    lemma_whole_exact(60);
    lemma_worth(size, size);
    assert(512 * u > 0) by (nonlinear_arith) requires u > 0;
    lemma_quotient(rate, size);
    let hop = rate.over(size);
    let (n, d, rw) = (rate.worth() * u, size.worth(), rate.worth());
    assert(n <= 1 * pow2(172) * d && 1 * pow2(140) * d <= n) by (nonlinear_arith)
        requires
            n == rw * u,
            d == 512 * u,
            u <= rw <= pow2(181),
            pow2(181) == 512 * pow2(172),
            u == 512 * pow2(140),
    ;
    lemma_rounds_within(n, d, 1, 172);
    lemma_rounds_beyond(n, d, 1, 140);
    lemma_product(sixty, hop);
    let (m, hw) = (sixty.worth() * hop.worth(), hop.worth());
    assert(m <= 60 * pow2(172) * u && 1 * pow2(140) * u <= m) by (nonlinear_arith)
        requires m == 60 * u * hw, pow2(140) <= hw <= pow2(172), u > 0;
    lemma_rounds_within(m, u, 60, 172);
    lemma_rounds_beyond(m, u, 1, 140);
}

/// A period that was refined by at most half a hop is positive and finite.
#[verifier::spinoff_prover]
proof fn lemma_refined(lag: nat, v: Single)
    requires
        0 < lag <= u64::MAX,
        !v.is_not_a_number(),
        v.magnitude() <= Single::fraction(1, 2).magnitude(),
    ensures
        Single::of_whole(lag).plus(v).is_plain(),
        pow2(148) <= Single::of_whole(lag).plus(v).worth() <= pow2(214),
{
    reveal(Single::of_whole);
    reveal(Single::sum);
    let u = pow2(149);
    let whole = Single::of_whole(lag);
    lemma2_to64();
    lemma_half();
    lemma_pow2_pos(148);
    lemma_pow2_adds(64, 149);
    lemma_pow2_adds(1, 148);
    lemma_pow2_adds(1, 213);
    lemma_pow2_adds(65, 148);
    assert(u <= lag * u <= pow2(213)) by (nonlinear_arith)
        requires 0 < lag <= 0x1_0000_0000_0000_0000, u >= 0, pow2(213) == 0x1_0000_0000_0000_0000 * u;
    lemma_rounds_within(lag * u, 1, 1, 213);
    lemma_rounds_beyond(lag * u, 1, 1, 149);
    lemma_of(false, rounded(23, INF as nat, lag * u, 1));
    lemma_worth(v, Single::fraction(1, 2));
    assert(pow2(148) <= pow2(213)) by (nonlinear_arith)
        requires pow2(213) == pow2(65) * pow2(148), pow2(65) >= 1, pow2(148) > 0
    {
        lemma_pow2_pos(65);
    }
    let n = (whole.exact() + v.exact()) as nat;
    assert(pow2(148) <= n <= pow2(214));
    lemma_rounds_within(n, 1, 1, 214);
    lemma_rounds_beyond(n, 1, 1, 148);
    lemma_of(false, rounded(23, INF as nat, n, 1));
}

/// The tempo of a period from half a hop up is positive and finite.
proof fn lemma_lag_tempo(hz: nat, lag: Single)
    requires
        0 < hz <= u32::MAX,
        lag.is_plain(),
        pow2(148) <= lag.worth() <= pow2(214),
    ensures
        lag_tempo(Single::of_whole(hz), lag).is_plain(),
        lag_tempo(Single::of_whole(hz), lag).magnitude() > 0,
{
    let u = pow2(149);
    let t = Single::of_whole(60).times(hop_rate(Single::of_whole(hz)));
    lemma2_to64();
    lemma_hops_per_minute(hz);
    lemma_pow2_pos(148);
    lemma_pow2_pos(75);
    lemma_pow2_adds(1, 148);
    lemma_pow2_adds(140, 149);
    lemma_pow2_adds(75, 214);
    lemma_worth(lag, lag);
    lemma_quotient(t, lag);
    let (n, d, tw) = (t.worth() * u, lag.worth(), t.worth());
    assert(n <= 120 * pow2(172) * d) by (nonlinear_arith)
        requires
            n == tw * u,
            tw <= 60 * pow2(172),
            u == 2 * pow2(148),
            pow2(148) <= d,
            pow2(172) >= 0,
            u >= 0,
    ;
    assert(1 * pow2(75) * d <= n) by (nonlinear_arith)
        requires
            n == tw * u,
            pow2(140) <= tw,
            pow2(140) * u == pow2(75) * pow2(214),
            d <= pow2(214),
            u >= 0,
            pow2(75) >= 0,
    ;
    lemma_rounds_within(n, d, 120, 172);
    lemma_rounds_beyond(n, d, 1, 75);
    lemma_worth(t.over(lag), t.over(lag));
}

/// The top of a parabola is at most half a hop away, or not a number.
proof fn lemma_vertex(y0: Single, y1: Single, y2: Single)
    ensures
        vertex(y0, y1, y2).is_not_a_number() || vertex(y0, y1, y2).magnitude() <= Single::fraction(
            1,
            2,
        ).magnitude(),
{
    lemma_half();
    lemma_zero_one();
}

/// What is not a number stays so.
proof fn lemma_lost_tempo(rate: Single, lag: Single, v: Single)
    requires
        v.is_not_a_number(),
    ensures
        lowered(raised(lag_tempo(rate, lag.plus(v)))).is_not_a_number(),
{
    reveal(Single::sum);
    reveal(Single::quotient);
}

proof fn lemma_peak_tempo(c: Seq<Single>, hz: nat, lag: nat)
    requires
        0 < hz <= u32::MAX,
        0 < lag <= u64::MAX,
        !peak_tempo(c, Single::of_whole(hz), lag).is_not_a_number(),
    ensures
        is_dance_tempo(peak_tempo(c, Single::of_whole(hz), lag)),
{
    let rate = Single::of_whole(hz);
    let y0 = correlation(c, (lag - 1) as nat);
    let y1 = correlation(c, lag);
    let y2 = correlation(c, lag + 1);
    let v = vertex(y0, y1, y2);
    lemma_vertex(y0, y1, y2);
    if v.is_not_a_number() {
        lemma_lost_tempo(rate, Single::of_whole(lag), v);
    }
    let refined = Single::of_whole(lag).plus(v);
    lemma_refined(lag, v);
    lemma_lag_tempo(hz, refined);
    lemma_zero_one();
    lemma_folded_tempo(lag_tempo(rate, refined));
}

/// Every reading that is a number lies from 70 to 200.
pub proof fn lemma_reading_range(env: Seq<Single>, hz: nat, weights: Seq<Single>)
    requires
        0 < hz <= u32::MAX,
        reading(env, Single::of_whole(hz), weights) matches Some(r) ==> !r.0.is_not_a_number(),
    ensures
        reading(env, Single::of_whole(hz), weights) matches Some(r) ==> is_dance_tempo(r.0),
{
    let rate = Single::of_whole(hz);
    if reading(env, rate, weights) is Some {
        let c = centered(env);
        let scores = lag_scores(c, weights, lag_min(rate), lag_max(rate));
        lemma_peak(scores);
        let lag = lag_min(rate) + peak(scores).0->Some_0;
        lemma_peak_tempo(c, hz, lag);
    }
}

/// Close numbers from 64 up differ by an exact amount.
#[verifier::spinoff_prover]
proof fn lemma_close(a: Single, b: Single)
    requires
        a.is_plain(),
        b.is_plain(),
        Single::of_whole(70).magnitude() <= b.magnitude() <= a.magnitude(),
        rounded(23, INF as nat, (a.worth() - b.worth()) as nat, 1) < Single::of_whole(4).magnitude(),
    ensures
        units(23, rounded(23, INF as nat, (a.worth() - b.worth()) as nat, 1)) == a.worth()
            - b.worth(),
{
    let (p, u) = (pow2(132), pow2(149));
    let low = Single::of_whole(70);
    lemma2_to64();
    lemma_pow2_pos(132);
    lemma_pow2_adds(17, 132);
    lemma_whole_exact(70);
    lemma_whole_exact(4);
    lemma_worth(b, a);
    lemma_worth(low, b);
    assert(0x80_0000 * p <= 70 * u) by (nonlinear_arith) requires u == 0x2_0000 * p, p > 0;
    crate::rounding::lemma_units_of_parts(23, 132, 0x80_0000);
    let least = 132 * pow2(23) + 0x80_0000;
    if b.magnitude() < least {
        crate::rounding::lemma_units_increase(23, b.magnitude(), least);
    }
    let x = lemma_multiple(23, a.magnitude(), 132);
    let y = lemma_multiple(23, b.magnitude(), 132);
    let n = (a.worth() - b.worth()) as nat;
    assert(x >= y && n == (x - y) * p) by (nonlinear_arith)
        requires n == x * p - y * p, x * p >= y * p, p > 0;
    let c = (x - y) as nat;
    if c >= 0x8_0000 {
        assert(4 * u * 1 <= n) by (nonlinear_arith)
            requires n == c * p, c >= 0x8_0000, u == 0x2_0000 * p, p > 0;
        lemma_rounds_beyond(n, 1, 4, 149);
        let r = rounded(23, INF as nat, n, 1);
        crate::rounding::lemma_units_increase(23, r, Single::of_whole(4).magnitude());
    }
    let g = lemma_on_grid(23, c, 132);
    assert(n == units(23, g) * 1);
    lemma_rounded_exact(23, INF as nat, n, 1, g);
}

/// The sign of a factor does not change the size of a product.
proof fn lemma_signed_product(a: Single, b: Single)
    requires
        a.is_finite(),
        b.is_plain(),
    ensures
        a.times(b).magnitude() == Single::of(false, a.magnitude()).times(b).magnitude(),
        a.times(b).is_negative() == a.is_negative(),
        a.times(b).magnitude() <= INF,
{
    reveal(Single::product);
    let n = units(23, a.magnitude()) * units(23, b.magnitude());
    crate::rounding::lemma_rounded_nearest(23, INF as nat, n, pow2(149));
    lemma_of(false, a.magnitude());
    lemma_of(false, rounded(23, INF as nat, n, pow2(149)));
    lemma_of(true, rounded(23, INF as nat, n, pow2(149)));
}

/// A tempo that is pulled toward a near reading stays from 70 to 200 where both were.
#[verifier::spinoff_prover]
proof fn lemma_pulled(b: Single, x: Single)
    requires
        is_dance_tempo(b),
        is_dance_tempo(x),
        x.minus(b).abs().lt(Single::of_whole(4)),
    ensures
        is_dance_tempo(b.plus(x.minus(b).times(Single::fraction(1, 4)))),
        size(
            4 * b.plus(x.minus(b).times(Single::fraction(1, 4))).worth() - (3 * b.worth()
                + x.worth()),
        ) <= pow2(137),
{
    reveal(Single::sum);
    let (low, high, quarter) = (Single::of_whole(70), Single::of_whole(200), Single::fraction(1, 4));
    let one = Single::of_whole(1);
    let u = pow2(149);
    lemma2_to64();
    lemma_pow2_pos(149);
    lemma_zero_one();
    lemma_whole_exact(70);
    lemma_whole_exact(200);
    lemma_whole_exact(4);
    crate::order::lemma_fraction(1, 1, 4, 1);
    lemma_worth(x, b);
    lemma_worth(low, x);
    lemma_worth(x, high);
    lemma_worth(low, b);
    lemma_worth(b, high);
    lemma_worth(low, high);
    let (xw, bw) = (x.worth(), b.worth());
    let off = x.minus(b);
    let n = (if xw >= bw { xw - bw } else { bw - xw }) as nat;
    let d = rounded(23, INF as nat, n, 1);
    crate::rounding::lemma_rounded_nearest(23, INF as nat, n, 1);
    crate::rounding::lemma_units_zero(23);
    lemma_rounded_exact(23, INF as nat, 0, 1, 0);
    lemma_of(xw < bw, d);
    lemma_of(false, d);
    assert(off.magnitude() == d);
    assert(xw != bw ==> off.is_negative() == (xw < bw));
    assert(off.abs().magnitude() == d);
    if xw >= bw {
        lemma_close(x, b);
    } else {
        lemma_close(b, x);
    }
    let gap = Single::of(false, d);
    lemma_times_share(quarter, gap);
    let q = gap.times(quarter);
    lemma_worth(q, gap);
    let pull = off.times(quarter);
    lemma_signed_product(off, quarter);
    assert(pull.magnitude() == q.magnitude());
    assert(xw != bw ==> pull.is_negative() == (xw < bw));
    let s = b.exact() + pull.exact();
    assert(70 * u <= s <= 200 * u);
    assert(70 * u > 0) by (nonlinear_arith) requires u > 0;
    lemma_rounds_within(s as nat, 1, 200, 149);
    lemma_rounds_beyond(s as nat, 1, 70, 149);
    let r = rounded(23, INF as nat, s as nat, 1);
    lemma_of(false, r);
    lemma_worth(low, Single::of(false, r));
    lemma_worth(Single::of(false, r), high);
    lemma_quarter_gap(gap, n, u);
    lemma_rounding_error(23, INF as nat, s as nat, 1);
    lemma_pow2_adds(16, 133);
    lemma_pow2_adds(4, 133);
    lemma_pow2_pos(133);
    let (rw, e) = (units(23, r), pow2(133));
    assert(size(rw - s) <= 2 * e) by (nonlinear_arith)
        requires
            2 * 0x80_0000 * size(rw * 1 - s) <= (rw + 0x80_0000) * 1,
            rw <= 200 * u,
            u == 0x1_0000 * e,
            e > 0,
    ;
}

/// A quarter of a gap of less than 4.
proof fn lemma_quarter_gap(gap: Single, n: nat, u: nat)
    requires
        gap.is_plain(),
        gap.worth() == n,
        u == pow2(149),
        n <= 200 * u,
    ensures
        size(4 * gap.times(Single::fraction(1, 4)).worth() - n) <= 4 * pow2(133),
{
    let quarter = Single::fraction(1, 4);
    lemma2_to64();
    lemma_pow2_pos(149);
    lemma_pow2_pos(133);
    lemma_pow2_adds(16, 133);
    lemma_pow2_adds(8, 125);
    lemma_pow2_pos(125);
    crate::order::lemma_fraction(1, 1, 4, 1);
    crate::flash_laws::lemma_quarter_worth();
    lemma_times_share(quarter, gap);
    lemma_worth(gap.times(quarter), gap);
    lemma_product(gap, quarter);
    let x = gap.worth() * quarter.worth();
    lemma_rounding_error(23, INF as nat, x, u);
    let (w, e, c) = (gap.times(quarter).worth(), pow2(133), quarter.worth());
    let err = size(w * u - x);
    assert(err <= e * u) by (nonlinear_arith)
        requires
            2 * 0x80_0000 * err <= (w + 0x80_0000) * u,
            w <= 200 * u,
            u == 0x1_0000 * e,
            e >= 256,
            u > 0,
    ;
    assert(-(4 * e) <= 4 * w - n <= 4 * e) by (nonlinear_arith)
        requires -(e * u) <= w * u - n * c <= e * u, 4 * c == u, u > 0;
}

/// A near reading pulls the tempo a quarter of the way, at most 2^-14 off.
pub proof fn lemma_smoothing(m: TempoModel, bpm: Single)
    requires
        is_dance_tempo(bpm),
        is_dance_tempo(m.bpm),
        bpm.minus(m.bpm).abs().lt(Single::of_whole(4)),
    ensures
        size(4 * m.smoothed(bpm).0.worth() - (3 * m.bpm.worth() + bpm.worth())) <= pow2(137),
{
    lemma_zero_one();
    lemma_whole_order(1, 70);
    lemma_pulled(m.bpm, bpm);
}

/// The published tempo stays from 70 to 200: a reading in that range moves a tempo that is in it, or
/// that is not known yet, to one that is in it.
pub proof fn lemma_smoothed_range(m: TempoModel, bpm: Single)
    requires
        is_dance_tempo(bpm),
        has_dance_tempo(m),
    ensures
        is_dance_tempo(m.smoothed(bpm).0),
{
    let off = bpm.minus(m.bpm);
    if !m.bpm.le(Single::of_whole(0)) && off.abs().lt(Single::of_whole(4)) {
        lemma_pulled(m.bpm, bpm);
    }
}

/// Every published tempo lies from 70 to 200, and so does every tempo that is remembered after the
/// first: at any sample rate, where the reading is a number.
pub proof fn lemma_published_tempo(m: TempoModel, hz: nat)
    requires
        0 < hz <= u32::MAX,
        m.rate == Single::of_whole(hz),
        has_dance_tempo(m),
        reading(m.onsets, m.rate, m.weights) matches Some(r) ==> !r.0.is_not_a_number(),
    ensures
        m.estimated().1 matches Some(e) ==> is_dance_tempo(e.bpm) && e.bpm == m.estimated().0.bpm,
        has_dance_tempo(m.estimated().0),
{
    lemma_reading_range(m.onsets, hz, m.weights);
    if let Some(r) = reading(m.onsets, m.rate, m.weights) {
        lemma_smoothed_range(m, r.0);
    }
}

/// Onsets that were measured of magnitudes of at most 2^20, no more than an envelope holds.
pub open spec fn are_onsets(env: Seq<Single>) -> bool {
    env.len() <= ONSET_ENVELOPE_LEN && forall|i: int|
        0 <= i < env.len() ==> is_capped(#[trigger] env[i], 181)
}

/// The least power is not too small.
proof fn lemma_least_power()
    ensures
        Single::fraction(1, 1000000000).is_plain(),
        pow2(119) <= Single::fraction(1, 1000000000).worth(),
{
    reveal(Single::of_whole);
    let (one, d) = (Single::of_whole(1), Single::of_whole(1000000000));
    let u = pow2(149);
    let x = 1000000000 * u;
    lemma2_to64();
    lemma_pow2_pos(149);
    lemma_pow2_adds(30, 149);
    lemma_pow2_adds(119, 30);
    lemma_whole_exact(1);
    lemma_whole_order(1, 1000000000);
    assert(u <= x <= pow2(179)) by (nonlinear_arith)
        requires x == 1000000000 * u, pow2(179) == 0x4000_0000 * u, u > 0;
    lemma_rounds_within(x, 1, 1, 179);
    lemma_rounds_beyond(x, 1, 1, 149);
    lemma_of(false, rounded(23, INF as nat, x, 1));
    let w = d.worth();
    assert(u <= w <= pow2(179));
    lemma_worth(d, d);
    lemma_quotient(one, d);
    let n = one.worth() * u;
    assert(1 * pow2(119) * w <= n) by (nonlinear_arith)
        requires
            n == 1 * u * u,
            w <= pow2(179),
            pow2(179) == pow2(30) * u,
            u == pow2(119) * pow2(30),
    ;
    assert(n <= 1 * u * w) by (nonlinear_arith) requires n == 1 * u * u, u <= w, u > 0;
    lemma_rounds_beyond(n, w, 1, 119);
    lemma_rounds_within(n, w, 1, 149);
}

/// The items of a centered envelope of onsets are small.
#[verifier::spinoff_prover]
proof fn lemma_centered(env: Seq<Single>)
    requires
        are_onsets(env),
        ONSET_ENVELOPE_LEN / 2 <= env.len(),
    ensures
        forall|i: int| 0 <= i < env.len() ==> is_small(#[trigger] centered(env)[i], 182),
{
    let n = env.len();
    let mean = mean_of(env);
    lemma2_to64();
    lemma_pow2_adds(10, 181);
    lemma_pow2_adds(9, 149);
    lemma_sum_capped(env, 181);
    assert(n * pow2(181) <= 1024 * pow2(181)) by (nonlinear_arith) requires n <= 1024;
    lemma_whole_exact(n);
    assert(512 * pow2(149) <= n * pow2(149)) by (nonlinear_arith) requires 512 <= n;
    lemma_quotient_small(sum_of(env), 191, Single::of_whole(n), 158);
    lemma_power_order(181, 182);
    assert forall|i: int| 0 <= i < env.len() implies is_small(#[trigger] centered(env)[i], 182) by {
        assert(is_capped(env[i], 181));
        lemma_difference_small(env[i], mean, 182);
    }
}

/// The autocorrelation of an envelope of onsets is finite.
#[verifier::spinoff_prover]
proof fn lemma_correlation(env: Seq<Single>, lag: nat)
    requires
        are_onsets(env),
        ONSET_ENVELOPE_LEN / 2 <= env.len(),
    ensures
        is_small(correlation(centered(env), lag), 255),
{
    let c = centered(env);
    lemma_centered(env);
    lemma2_to64();
    lemma_pow2_adds(10, 215);
    let products = lagged_products(c, lag);
    assert forall|i: int| 0 <= i < products.len() implies is_small(#[trigger] products[i], 215) by {
        assert(is_small(c[lag + i], 182) && is_small(c[i], 182));
        lemma_product_small(c[lag + i], 182, c[i], 182);
    }
    lemma_sum_small(products, 215);
    assert(products.len() * pow2(215) <= 1024 * pow2(215)) by (nonlinear_arith)
        requires products.len() <= 1024;
    let terms = squares(c);
    assert forall|i: int| 0 <= i < terms.len() implies is_capped(#[trigger] terms[i], 215) by {
        assert(is_small(c[i], 182));
        lemma_product_small(c[i], 182, c[i], 182);
    }
    lemma_sum_capped(terms, 215);
    lemma_least_power();
    lemma_worth(sum_of(terms), Single::fraction(1, 1000000000));
    lemma_quotient_small(sum_of(products), 225, power(c), 119);
}

/// The top of the parabola through three small values is a number.
#[verifier::spinoff_prover]
proof fn lemma_vertex_number(y0: Single, y1: Single, y2: Single)
    requires
        is_small(y0, 255),
        is_small(y1, 255),
        is_small(y2, 255),
    ensures
        !vertex(y0, y1, y2).is_not_a_number(),
{
    let (two, half) = (Single::of_whole(2), Single::fraction(1, 2));
    lemma2_to64();
    lemma_zero_one();
    lemma_whole_exact(2);
    lemma_pow2_adds(1, 149);
    lemma_half();
    lemma_power_order(255, 256);
    lemma_power_order(255, 257);
    lemma_product_small(two, 150, y1, 255);
    lemma_minus_small(y0, two.times(y1), 256);
    lemma_plus_small(y0.minus(two.times(y1)), y2, 257);
    let denom = y0.minus(two.times(y1)).plus(y2);
    lemma_minus_small(y0, y2, 255);
    lemma_product_small(half, 148, y0.minus(y2), 256);
    lemma_least_power();
    lemma_of(false, denom.magnitude());
    if Single::fraction(1, 1000000000).lt(denom.abs()) {
        lemma_quotient_number(half.times(y0.minus(y2)), denom);
        lemma_of(true, half.magnitude());
    }
}

/// Every reading of an envelope of onsets lies from 70 to 200, at any sample rate.
pub proof fn lemma_reading_of_onsets(env: Seq<Single>, hz: nat, weights: Seq<Single>)
    requires
        0 < hz <= u32::MAX,
        are_onsets(env),
    ensures
        reading(env, Single::of_whole(hz), weights) matches Some(r) ==> is_dance_tempo(r.0),
{
    let rate = Single::of_whole(hz);
    if reading(env, rate, weights) is Some {
        let c = centered(env);
        let scores = lag_scores(c, weights, lag_min(rate), lag_max(rate));
        lemma_peak(scores);
        let lag = lag_min(rate) + peak(scores).0->Some_0;
        lemma_correlation(env, (lag - 1) as nat);
        lemma_correlation(env, lag);
        lemma_correlation(env, lag + 1);
        let v = vertex(
            correlation(c, (lag - 1) as nat),
            correlation(c, lag),
            correlation(c, lag + 1),
        );
        lemma_vertex_number(
            correlation(c, (lag - 1) as nat),
            correlation(c, lag),
            correlation(c, lag + 1),
        );
        lemma_vertex(
            correlation(c, (lag - 1) as nat),
            correlation(c, lag),
            correlation(c, lag + 1),
        );
        let refined = Single::of_whole(lag).plus(v);
        lemma_refined(lag, v);
        lemma_lag_tempo(hz, refined);
        lemma_zero_one();
        lemma_folded_tempo(lag_tempo(rate, refined));
    }
}

/// Every tempo that is published of an envelope of onsets lies from 70 to 200, at any sample rate,
/// and the tracker goes on with it.
pub proof fn lemma_tempo_of_onsets(m: TempoModel, hz: nat)
    requires
        0 < hz <= u32::MAX,
        m.rate == Single::of_whole(hz),
        are_onsets(m.onsets),
        has_dance_tempo(m),
    ensures
        m.estimated().1 matches Some(e) ==> is_dance_tempo(e.bpm),
        has_dance_tempo(m.estimated().0),
{
    lemma_reading_of_onsets(m.onsets, hz, m.weights);
    if let Some(r) = reading(m.onsets, m.rate, m.weights) {
        lemma_smoothed_range(m, r.0);
    }
}

} // verus!
