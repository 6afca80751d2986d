//! What holds of the period that the tempo is read from.
use vstd::arithmetic::power2::{
    lemma2_to64, lemma_pow2_adds, lemma_pow2_pos, lemma_pow2_unfold, pow2,
};
use vstd::prelude::*;

use crate::order::{
    lemma_doubled, lemma_fraction, lemma_halved, lemma_product, lemma_product_order, lemma_quotient,
    lemma_rounds_beyond, lemma_rounds_within, lemma_same, lemma_sum_order, lemma_times_share,
    lemma_whole_exact, lemma_whole_order, lemma_whole_sum, lemma_worth, lemma_zero_one,
};
use crate::rounding::{
    lemma_on_grid, lemma_parts, lemma_rounded_exact, lemma_units_increase, lemma_whole_of_multiple,
    rounded, spacing, units, whole, Whole,
};
use crate::single::{Single, INF};
use crate::sums::{squares, sum_of};
use crate::tempo::{
    centered, correlation, hop_rate, lag_max, lag_min, lag_score, lag_scores, lag_tempo,
    lagged_products, lemma_above, lowered, negative_infinity, peak, power, raised, reading, vertex,
};
use crate::tempo_laws::lemma_raised;

verus! {

/// Hops per minute, rounded, are on the side of a whole number of periods that they should be.
proof fn lemma_per_minute(hz: nat, k: nat)
    requires
        0 < hz < 0x100_0000,
        k < 0x100_0000,
    ensures
        ({
            let m = hop_rate(Single::of_whole(hz)).times(Single::of_whole(60));
            &&& m.is_plain()
            &&& 60 * hz <= 512 * k ==> m.worth() <= k * pow2(149)
            &&& 60 * hz >= 512 * k ==> m.worth() >= k * pow2(149)
        }),
{
    let u = pow2(149);
    let h = pow2(140);
    let (rate, size, sixty) = (Single::of_whole(hz), Single::of_whole(512), Single::of_whole(60));
    lemma2_to64();
    lemma_pow2_pos(140);
    lemma_pow2_adds(9, 140);
    lemma_pow2_adds(24, 140);
    lemma_whole_exact(hz);
    lemma_whole_exact(512);
    lemma_whole_exact(60);
    lemma_worth(size, size);
    assert(512 * u > 0);
    lemma_quotient(rate, size);
    let hop = rate.over(size);
    let (n, d) = (rate.worth() * u, size.worth());
    assert(n == hz * h * d) by (nonlinear_arith)
        requires n == hz * u * u, d == 512 * u, u == 512 * h;
    lemma_rounds_within(n, d, hz, 140);
    lemma_rounds_beyond(n, d, hz, 140);
    assert(hop.worth() == hz * h);
    lemma_product(hop, sixty);
    let x = hop.worth() * sixty.worth();
    assert(x <= 64 * pow2(164) * u) by (nonlinear_arith)
        requires x == (hz * h) * (60 * u), hz <= 0x100_0000, pow2(164) == 0x100_0000 * h, h > 0
    {
    }
    if 60 * hz <= 512 * k {
        assert(x <= k * u * u) by (nonlinear_arith)
            requires x == (hz * h) * (60 * u), 60 * hz <= 512 * k, u == 512 * h, h > 0;
        lemma_rounds_within(x, u, k, 149);
    }
    if 60 * hz >= 512 * k {
        assert(k * u * u <= x) by (nonlinear_arith)
            requires x == (hz * h) * (60 * u), 60 * hz >= 512 * k, u == 512 * h, h > 0;
        lemma_rounds_beyond(x, u, k, 149);
    }
    lemma_rounds_within(x, u, 64, 164);
}

/// A number over a whole one is on the side of a whole number that it should be.
proof fn lemma_over_whole(m: Single, d: nat, k: nat)
    requires
        m.is_plain(),
        0 < d < 0x100_0000,
        k < 0x100_0000,
        m.worth() <= 64 * pow2(164),
    ensures
        ({
            let q = m.over(Single::of_whole(d));
            &&& q.is_plain()
            &&& m.worth() <= (d * k) * pow2(149) ==> q.worth() <= k * pow2(149)
            &&& m.worth() >= (d * k) * pow2(149) ==> q.worth() >= k * pow2(149)
        }),
{
    let u = pow2(149);
    let b = Single::of_whole(d);
    lemma_pow2_pos(149);
    lemma_whole_exact(d);
    lemma_worth(b, b);
    assert(u <= d * u) by (nonlinear_arith) requires d > 0;
    lemma_quotient(m, b);
    let (x, y, mw) = (m.worth() * u, b.worth(), m.worth());
    assert(x <= 64 * pow2(164) * y) by (nonlinear_arith)
        requires x == mw * u, y == d * u, mw <= 64 * pow2(164), d > 0, u > 0;
    lemma_rounds_within(x, y, 64, 164);
    if m.worth() <= (d * k) * u {
        assert(x <= k * u * y) by (nonlinear_arith)
            requires x == mw * u, y == d * u, mw <= (d * k) * u;
        lemma_rounds_within(x, y, k, 149);
    }
    if m.worth() >= (d * k) * u {
        assert(k * u * y <= x) by (nonlinear_arith)
            requires x == mw * u, y == d * u, mw >= (d * k) * u;
        lemma_rounds_beyond(x, y, k, 149);
    }
}

proof fn lemma_whole_bounds(q: Single, k: nat)
    requires
        q.is_plain(),
        k < 0x100_0000,
    ensures
        q.worth() <= k * pow2(149) ==> q.to_whole(Whole::Floor) <= k && q.to_whole(Whole::Ceil)
            <= k,
        q.worth() >= k * pow2(149) ==> q.to_whole(Whole::Floor) >= k && q.to_whole(Whole::Ceil)
            >= k,
{
    reveal(Single::whole_number);
    let u = pow2(149) as int;
    let w = q.worth() as int;
    lemma_pow2_pos(149);
    let x = k * u;
    lemma_whole_of_multiple(Whole::Floor, k, pow2(149));
    lemma_whole_of_multiple(Whole::Ceil, k, pow2(149));
    if w <= x {
        vstd::arithmetic::div_mod::lemma_div_is_ordered(w, x, u);
        vstd::arithmetic::div_mod::lemma_div_is_ordered(w + u - 1, x + u - 1, u);
    }
    if w >= x {
        vstd::arithmetic::div_mod::lemma_div_is_ordered(x, w, u);
        vstd::arithmetic::div_mod::lemma_div_is_ordered(x + u - 1, w + u - 1, u);
    }
}

proof fn lemma_lag_side(hz: nat, bpm: nat, p: nat)
    requires
        0 < hz < 0x100_0000,
        60 <= bpm <= 200,
        p < 0x1_0000,
    ensures
        ({
            let q = hop_rate(Single::of_whole(hz)).times(Single::of_whole(60)).over(
                Single::of_whole(bpm),
            );
            &&& 60 * hz <= 512 * bpm * p ==> q.to_whole(Whole::Floor) <= p && q.to_whole(
                Whole::Ceil,
            ) <= p
            &&& 60 * hz >= 512 * bpm * p ==> q.to_whole(Whole::Floor) >= p && q.to_whole(
                Whole::Ceil,
            ) >= p
        }),
{
    let m = hop_rate(Single::of_whole(hz)).times(Single::of_whole(60));
    assert(bpm * p < 0x100_0000 && 512 * bpm * p == 512 * (bpm * p)) by (nonlinear_arith)
        requires bpm <= 200, p < 0x1_0000;
    lemma_per_minute(hz, bpm * p);
    lemma_per_minute_cap(hz);
    lemma_over_whole(m, bpm, p);
    lemma_whole_bounds(m.over(Single::of_whole(bpm)), p);
}

proof fn lemma_per_minute_cap(hz: nat)
    requires
        0 < hz < 0x100_0000,
    ensures
        hop_rate(Single::of_whole(hz)).times(Single::of_whole(60)).worth() <= 64 * pow2(164),
{
    let k = (60 * hz / 512 + 1) as nat;
    lemma2_to64();
    lemma_per_minute(hz, k);
    lemma_pow2_adds(15, 149);
    lemma_pow2_pos(149);
    assert(k * pow2(149) <= 64 * pow2(164)) by (nonlinear_arith)
        requires k <= 0x1e_0001, pow2(164) == 0x8000 * pow2(149), pow2(149) > 0;
}

/// The periods that are looked at are those from 200 down to 60 beats per minute: every whole
/// number `p` of hops of 512 samples with a tempo in that range is among them, and none that is off
/// by a hop or more.
pub proof fn lemma_periods(hz: nat, p: nat)
    requires
        0 < hz < 0x100_0000,
        p < 0x1_0000,
    ensures
        60 * hz <= 200 * (512 * p) && 60 * (512 * p) <= 60 * hz ==> lag_min(Single::of_whole(hz))
            <= p <= lag_max(Single::of_whole(hz)),
        lag_min(Single::of_whole(hz)) <= p <= lag_max(Single::of_whole(hz)) ==> 60 * hz < 200 * (512
            * (p + 1)) && 60 * (512 * (p - 1)) < 60 * hz,
{
    let rate = Single::of_whole(hz);
    lemma_lag_side(hz, 200, p);
    lemma_lag_side(hz, 60, p);
    assert(512 * 200 * p == 200 * (512 * p) && 512 * 60 * p == 60 * (512 * p))
        by (nonlinear_arith);
    assert(512 * 200 * (p + 1) == 200 * (512 * (p + 1))) by (nonlinear_arith);
    assert(512 * 60 * (p - 1) == 60 * (512 * (p - 1))) by (nonlinear_arith);
    if lag_min(rate) <= p && 60 * hz >= 200 * (512 * (p + 1)) {
        assert(p + 1 < 0x1_0000);
        lemma_lag_side(hz, 200, p + 1);
    }
    if p <= lag_max(rate) && p >= 1 && 60 * (512 * (p - 1)) >= 60 * hz {
        lemma_lag_side(hz, 60, (p - 1) as nat);
    }
}

/// The peak is the first of the largest scores.
proof fn lemma_peak_is_largest(scores: Seq<Single>)
    ensures
        peak(scores).0 matches Some(i) ==> i < scores.len() && peak(scores).1 == scores[i as int],
        peak(scores).0 is None ==> peak(scores).1 == negative_infinity(),
        forall|j: int| 0 <= j < scores.len() ==> !peak(scores).1.lt(#[trigger] scores[j]),
    decreases scores.len(),
{
    if scores.len() > 0 {
        let head = scores.drop_last();
        lemma_peak_is_largest(head);
        let p = peak(scores);
        assert forall|j: int| 0 <= j < scores.len() implies !p.1.lt(#[trigger] scores[j]) by {
            if j < head.len() {
                assert(head[j] == scores[j]);
            }
        }
    }
}

/// The tempo is read from the period with the best score: a period from 200 to 60 beats per minute
/// whose score is positive, and no period in that range has a higher one. It may be refined by half
/// a hop, and is brought into the range of dance music by octaves. The correlation at that period,
/// kept from 0 to 1, says how sure the reading is.
pub proof fn lemma_best_period(env: Seq<Single>, hz: nat, weights: Seq<Single>) -> (lag: nat)
    requires
        0 < hz < 0x100_0000,
        env.len() <= 0x1_0000,
        reading(env, Single::of_whole(hz), weights) is Some,
    ensures
        ({
            let c = centered(env);
            let best = lag_score(c, weights, lag);
            let rate = Single::of_whole(hz);
            &&& 60 * hz < 200 * (512 * (lag + 1)) && 60 * (512 * (lag - 1)) < 60 * hz
            &&& Single::of_whole(0).lt(best)
            &&& forall|p: nat|
                60 * hz <= 200 * (512 * p) && 60 * (512 * p) <= 60 * hz ==> !best.lt(
                    #[trigger] lag_score(c, weights, p),
                )
            &&& reading(env, rate, weights) matches Some(r) && r.0 == lowered(
                raised(
                    lag_tempo(
                        rate,
                        Single::of_whole(lag).plus(
                            vertex(
                                correlation(c, (lag - 1) as nat),
                                correlation(c, lag),
                                correlation(c, lag + 1),
                            ),
                        ),
                    ),
                ),
            ) && (correlation(c, lag).is_share() ==> r.1 == correlation(c, lag)) && (
            Single::of_whole(1).le(correlation(c, lag)) ==> r.1 == Single::of_whole(1)) && (
            correlation(c, lag).lt(Single::of_whole(0)) ==> r.1 == Single::of_whole(0))
            &&& env.len() >= 512
        }),
{
    let rate = Single::of_whole(hz);
    let c = centered(env);
    let (lo, hi) = (lag_min(rate), lag_max(rate));
    let scores = lag_scores(c, weights, lo, hi);
    lemma_peak_is_largest(scores);
    lemma_zero_one();
    let (k, top) = peak(scores);
    let i = k->0;
    let lag = lo + i;
    assert(top == lag_score(c, weights, lag));
    lemma_periods(hz, lag);
    let v = correlation(c, lag);
    if Single::of_whole(1).le(v) && !Single::of_whole(1).lt(v) {
        lemma_same(v, Single::of_whole(1));
    }
    assert(!top.is_not_a_number()) by {
        lemma_peak_number(scores);
    }
    assert forall|p: nat| 60 * hz <= 200 * (512 * p) && 60 * (512 * p) <= 60 * hz implies !top.lt(
        #[trigger] lag_score(c, weights, p),
    ) by {
        assert(p < 0x1_0000);
        lemma_periods(hz, p);
        assert(scores[p - lo] == lag_score(c, weights, p));
    }
    lag
}

proof fn lemma_peak_number(scores: Seq<Single>)
    ensures
        !peak(scores).1.is_not_a_number(),
    decreases scores.len(),
{
    if scores.len() > 0 {
        lemma_peak_number(scores.drop_last());
    }
}

/// An envelope that repeats after a period correlates with itself at that period: the products are
/// the squares of all but the last period.
pub proof fn lemma_periodic(c: Seq<Single>, p: nat)
    requires
        p <= c.len(),
        forall|i: int| 0 <= i < c.len() - p ==> #[trigger] c[i] == c[p + i],
    ensures
        lagged_products(c, p) == squares(c.take(c.len() - p)),
        correlation(c, p) == sum_of(squares(c.take(c.len() - p))).over(power(c)),
        p == 0 ==> lagged_products(c, p) == squares(c),
{
    let head = c.take(c.len() - p);
    assert forall|i: int| 0 <= i < c.len() - p implies #[trigger] lagged_products(c, p)[i]
        == squares(head)[i] by {
        assert(c[i] == c[p + i]);
    }
    assert(lagged_products(c, p) =~= squares(head));
    if p == 0 {
        assert(head =~= c);
    }
}

/// Of two periods the one that correlates no less, itself and doubled, and weighs no less has no
/// lower score.
pub proof fn lemma_score_rises(c: Seq<Single>, weights: Seq<Single>, p: nat, q: nat)
    requires
        2 * p + 8 < c.len(),
        2 * q + 8 < c.len(),
        correlation(c, p).is_share(),
        correlation(c, q).is_share(),
        correlation(c, 2 * p).is_share(),
        correlation(c, 2 * q).is_share(),
        weights[p as int].is_share(),
        weights[q as int].is_share(),
        correlation(c, p).le(correlation(c, q)),
        correlation(c, 2 * p).le(correlation(c, 2 * q)),
        weights[p as int].le(weights[q as int]),
    ensures
        lag_score(c, weights, p).le(lag_score(c, weights, q)),
{
    let half = Single::fraction(1, 2);
    let one = Single::of_whole(1);
    lemma_zero_one();
    lemma_whole_exact(1);
    lemma_fraction(1, 1, 2, 1);
    let (a, b) = (correlation(c, p), correlation(c, q));
    let (x, y) = (correlation(c, 2 * p), correlation(c, 2 * q));
    lemma_times_share(x, half);
    lemma_times_share(y, half);
    lemma_product_order(x, y, half);
    lemma_sum_order(a, b, half.times(x), half.times(y));
    let (s, t) = (a.plus(half.times(x)), b.plus(half.times(y)));
    lemma_whole_order(1, 2);
    lemma_whole_sum(1, 1);
    lemma_sum_order(b, one, half.times(y), one);
    lemma_sum_order(a, one, half.times(x), one);
    lemma_product_order(weights[p as int], weights[q as int], s);
    lemma_product_order(s, t, weights[q as int]);
    lemma_times_share(weights[p as int], s);
    lemma_times_share(weights[q as int], s);
    lemma_times_share(weights[q as int], t);
}

/// Doubling is exact below 2^100.
proof fn lemma_twice(x: Single)
    requires
        x.is_plain(),
        x.worth() <= pow2(249),
    ensures
        x.times(Single::of_whole(2)).is_plain(),
        x.times(Single::of_whole(2)).worth() == 2 * x.worth(),
{
    let two = Single::of_whole(2);
    let u = pow2(149);
    lemma2_to64();
    lemma_pow2_pos(149);
    lemma_pow2_adds(1, 249);
    lemma_whole_exact(2);
    lemma_product(x, two);
    let k = x.magnitude();
    let s = spacing(23, k);
    lemma_parts(23, k);
    let c = (k - s * pow2(23)) as nat;
    let n = x.worth() * two.worth();
    lemma_pow2_unfold(s + 1);
    let g = lemma_on_grid(23, c, s + 1);
    assert(c * pow2(s + 1) == 2 * (c * pow2(s))) by (nonlinear_arith)
        requires pow2(s + 1) == 2 * pow2(s);
    assert(units(23, g) == 2 * x.worth());
    assert(n == units(23, g) * u) by (nonlinear_arith)
        requires n == x.worth() * (2 * u), units(23, g) == 2 * x.worth();
    assert(units(23, g) <= 1 * pow2(250));
    let top = lemma_on_grid(23, 1, 251);
    lemma_pow2_unfold(251);
    lemma_pow2_pos(250);
    if g >= top {
        if g > top {
            lemma_units_increase(23, top, g);
        }
    }
    lemma_rounded_exact(23, INF as nat, n, u, g);
}

/// A tempo that is doubled while it is below 70 moves by whole octaves.
proof fn lemma_raised_octaves(x: Single) -> (k: nat)
    requires
        x.is_plain(),
        x.magnitude() > 0,
    ensures
        raised(x).worth() == x.worth() * pow2(k),
    decreases INF - x.magnitude(),
{
    let (low, two) = (Single::of_whole(70), Single::of_whole(2));
    lemma2_to64();
    lemma_zero_one();
    if x.lt(low) && Single::of_whole(0).lt(x) {
        lemma_whole_exact(70);
        lemma_worth(x, low);
        lemma_pow2_adds(100, 149);
        lemma_pow2_adds(7, 93);
        lemma_pow2_pos(93);
        assert(70 * pow2(149) <= pow2(249)) by (nonlinear_arith)
            requires pow2(249) == pow2(100) * pow2(149), pow2(100) == 128 * pow2(93), pow2(93) > 0;
        lemma_twice(x);
        lemma_doubled(x);
        lemma_worth(x.times(two), x.times(two));
        let k = lemma_raised_octaves(x.times(two));
        lemma_pow2_unfold(k + 1);
        assert(2 * x.worth() * pow2(k) == x.worth() * pow2(k + 1)) by (nonlinear_arith)
            requires pow2(k + 1) == 2 * pow2(k);
        k + 1
    } else {
        assert(x.worth() * 1 == x.worth());
        0
    }
}

/// Halving is exact from 1 on.
proof fn lemma_half_of(x: Single)
    requires
        x.is_plain(),
        pow2(149) <= x.worth(),
    ensures
        x.over(Single::of_whole(2)).is_plain(),
        2 * x.over(Single::of_whole(2)).worth() == x.worth(),
{
    let two = Single::of_whole(2);
    let u = pow2(149);
    lemma2_to64();
    lemma_pow2_pos(149);
    lemma_whole_exact(2);
    lemma_worth(two, two);
    assert(2 * u > 0);
    lemma_quotient(x, two);
    let k = x.magnitude();
    let s = spacing(23, k);
    lemma_parts(23, k);
    let c = (k - s * pow2(23)) as nat;
    if s == 0 {
        lemma_pow2_adds(24, 125);
        lemma_pow2_pos(125);
        assert(c * pow2(0) == c) by (nonlinear_arith) requires pow2(0) == 1;
        assert(u > 0x100_0000) by (nonlinear_arith)
            requires u == 0x100_0000 * pow2(125), pow2(125) > 1
        {
        }
        assert(false);
    }
    lemma_pow2_unfold(s);
    let g = lemma_on_grid(23, c, (s - 1) as nat);
    assert(c * pow2(s) == 2 * (c * pow2((s - 1) as nat))) by (nonlinear_arith)
        requires pow2(s) == 2 * pow2((s - 1) as nat);
    let n = x.worth() * u;
    assert(n == units(23, g) * two.worth()) by (nonlinear_arith)
        requires n == x.worth() * u, two.worth() == 2 * u, x.worth() == 2 * units(23, g);
    if g >= k {
        if g > k {
            lemma_units_increase(23, k, g);
        }
    }
    lemma_rounded_exact(23, INF as nat, n, two.worth(), g);
}

/// A tempo that is halved while it is above 200 moves by whole octaves.
proof fn lemma_lowered_octaves(x: Single) -> (k: nat)
    requires
        x.is_plain(),
    ensures
        x.worth() == lowered(x).worth() * pow2(k),
    decreases x.magnitude(),
{
    let (high, two) = (Single::of_whole(200), Single::of_whole(2));
    lemma2_to64();
    if high.lt(x) && x.is_finite() {
        lemma_whole_exact(200);
        lemma_whole_order(1, 200);
        lemma_worth(high, x);
        lemma_pow2_pos(149);
        lemma_half_of(x);
        lemma_above(x);
        lemma_halved(x);
        let k = lemma_lowered_octaves(x.over(two));
        lemma_pow2_unfold(k + 1);
        let w = lowered(x).worth();
        assert(2 * (w * pow2(k)) == w * pow2(k + 1)) by (nonlinear_arith)
            requires pow2(k + 1) == 2 * pow2(k);
        k + 1
    } else {
        assert(x.worth() * 1 == x.worth());
        0
    }
}

/// A tempo is brought into the range of dance music by octaves alone: what comes out differs from
/// it by a power of two.
pub proof fn lemma_folded_by_octaves(x: Single) -> (k: (nat, nat))
    requires
        x.is_plain(),
        x.magnitude() > 0,
    ensures
        lowered(raised(x)).worth() * pow2(k.0) == x.worth() * pow2(k.1),
{
    lemma_raised(x);
    let up = lemma_raised_octaves(x);
    let down = lemma_lowered_octaves(raised(x));
    (down, up)
}

} // verus!
