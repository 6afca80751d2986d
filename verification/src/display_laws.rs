//! What holds of the values that are displayed and published of what was heard.
use vstd::arithmetic::power2::{lemma2_to64, lemma_pow2_adds, lemma_pow2_pos, pow2};
use vstd::prelude::*;

use crate::analysis::{
    band_bins, band_end, band_power, displayed, level, onset_flux, place_level, rise,
    AnalyzerConfig, AnalyzerModel, BandModel, FFT_SIZE, FLUX_HISTORY, HALF, SPECTRUM_BINS,
};
use crate::bounds::{
    is_capped, is_small, lemma_difference_small, lemma_minus_small, lemma_plus_capped,
    lemma_plus_small, lemma_power_order, lemma_product_small, lemma_quotient_capped,
    lemma_root_capped, lemma_root_of_whole, lemma_sum_capped, lemma_whole_at_least,
};
use crate::core_types::FrameModel;
use crate::double::Double;
use crate::order::{
    lemma_clamped, lemma_difference, lemma_fraction, lemma_of, lemma_product, lemma_quotient,
    lemma_quotient_number, lemma_root_of_share, lemma_rounds_beyond, lemma_sum, lemma_times_share,
    lemma_whole_exact, lemma_worth, lemma_zero_one,
};
use crate::rounding::{
    lemma_rounded_above, lemma_rounded_is, lemma_rounded_monotone, lemma_rounded_nearest,
    lemma_units_step, lemma_units_zero, rounded, spacing, units,
};
use crate::single::{Single, INF};
use crate::sums::{mean_of, squared_distances, squares, sum_of};
use crate::stream_laws::{drained, fed, run};
use crate::tempo::{HOP_SIZE, ONSET_ENVELOPE_LEN};
use crate::tempo_laws::{are_onsets, has_dance_tempo, is_dance_tempo, lemma_tempo_of_onsets};

verus! {

/// From 0 to 1.
pub open spec fn in_unit(v: Single) -> bool {
    Single::of_whole(0).le(v) && v.le(Single::of_whole(1))
}

proof fn lemma_clamp_within(v: Single)
    requires
        !v.is_not_a_number(),
    ensures
        in_unit(v.clamp(Single::of_whole(0), Single::of_whole(1))),
        in_unit(v.clamp(Single::of_whole(0), Single::of_whole(1)).sqrt()),
{
    lemma_zero_one();
    let c = v.clamp(Single::of_whole(0), Single::of_whole(1));
    lemma_clamped(v);
    if c.is_share() {
        lemma_root_of_share(c);
    } else {
        reveal(Single::square_root);
    }
}

/// A peak that is kept above a positive least one is a positive number.
proof fn lemma_kept_above(v: Single, least: Single)
    requires
        least.is_plain(),
        least.magnitude() > 0,
    ensures
        !v.max(least).is_not_a_number(),
        !v.max(least).is_negative(),
        v.max(least).magnitude() > 0,
{
}

/// The share of a finite value in a positive peak is displayed from 0 to 1.
proof fn lemma_shown(v: Single, top: Single)
    requires
        v.is_finite(),
        !top.is_not_a_number(),
        top.magnitude() > 0,
    ensures
        in_unit(v.over(top).clamp(Single::of_whole(0), Single::of_whole(1))),
        in_unit(v.over(top).clamp(Single::of_whole(0), Single::of_whole(1)).sqrt()),
{
    lemma_quotient_number(v, top);
    lemma_clamp_within(v.over(top));
}

/// What is displayed of a band lies from 0 to 1, where what is measured of it is finite.
pub proof fn lemma_band_display(
    b: BandModel,
    config: AnalyzerConfig,
    i: int,
    power: Single,
    flux: Single,
    total: Single,
    now: Double,
)
    requires
        power.is_finite(),
        flux.is_finite(),
        b.mean().is_finite(),
        b.threshold(config, i).is_finite(),
    ensures
        ({
            let r = b.reading(config, i, power, flux, total, now);
            in_unit(r.energy) && in_unit(r.flux) && in_unit(r.threshold) && in_unit(r.mean)
        }),
{
    let next = b.after(config, i, power, flux, total, now);
    let decay = Single::fraction(9995, 10000);
    let least = Single::fraction(1, 1000000);
    let threshold = b.threshold(config, i);
    lemma_fraction(1, 1, 1000000, 1);
    lemma_kept_above(b.energy_max.times(decay).max(power), least);
    lemma_kept_above(b.flux_max.times(decay).max(flux).max(threshold), least);
    lemma_shown(power, next.energy_max);
    lemma_shown(flux, next.flux_max);
    lemma_shown(threshold, next.flux_max);
    lemma_shown(b.mean(), next.flux_max);
}

/// A positive peak stays positive when it decays.
proof fn lemma_decayed(p: Single)
    requires
        Single::of_whole(0).lt(p),
    ensures
        Single::of_whole(0).lt(p.times(Single::fraction(9999, 10000))),
{
    reveal(Single::product);
    let c = Single::fraction(9999, 10000);
    let (u, h) = (pow2(149), pow2(147));
    let (a, b) = (Single::of_whole(9999), Single::of_whole(10000));
    lemma_zero_one();
    lemma2_to64();
    lemma_pow2_pos(147);
    lemma_pow2_adds(2, 147);
    lemma_whole_exact(9999);
    lemma_whole_exact(10000);
    lemma_fraction(9999, 9999, 10000, 1);
    lemma_worth(b, b);
    assert(10000 * u > 0) by (nonlinear_arith) requires u == 4 * h, h > 0;
    lemma_quotient(a, b);
    let (n, d) = (a.worth() * u, b.worth());
    assert(3 * h * d <= n) by (nonlinear_arith)
        requires n == 9999 * u * u, d == 10000 * u, u == 4 * h, h > 0;
    lemma_rounds_beyond(n, d, 3, 147);
    lemma_worth(c, c);
    if p.is_finite() {
        lemma_worth(p, p);
        let (pw, cw) = (p.worth(), c.worth());
        lemma_product(p, c);
        let k = rounded(23, INF as nat, pw * cw, u);
        lemma_rounded_nearest(23, INF as nat, pw * cw, u);
        if k == 0 {
            lemma_units_zero(23);
            lemma_units_step(23, 0);
            assert(pw * cw >= 3 * h) by (nonlinear_arith) requires pw >= 1, cw >= 3 * h, h > 0;
            assert((0 + 1) * u == u) by (nonlinear_arith);
        }
    }
}

/// The displayed spectrum has one value for each place, and each lies from 0 to 1, where the levels
/// are finite and the peak is positive; the peak stays positive.
pub proof fn lemma_spectrum_display(mags: Seq<Single>, ranges: Seq<(nat, nat)>, peak: Single)
    requires
        Single::of_whole(0).lt(peak),
        forall|k: int|
            0 <= k < ranges.len() ==> place_level(mags, #[trigger] ranges[k]).is_finite(),
    ensures
        displayed(mags, ranges, peak).0.len() == ranges.len(),
        forall|k: int|
            0 <= k < ranges.len() ==> in_unit(#[trigger] displayed(mags, ranges, peak).0[k]),
        Single::of_whole(0).lt(displayed(mags, ranges, peak).1),
    decreases ranges.len(),
{
    lemma_zero_one();
    if ranges.len() > 0 {
        let head = ranges.drop_last();
        assert forall|k: int| 0 <= k < head.len() implies place_level(
            mags,
            #[trigger] head[k],
        ).is_finite() by {
            assert(head[k] == ranges[k]);
        }
        lemma_spectrum_display(mags, head, peak);
        let (shown, p) = displayed(mags, head, peak);
        assert(ranges[ranges.len() - 1] == ranges.last());
        let v = place_level(mags, ranges.last());
        let q = p.times(Single::fraction(9999, 10000)).max(v);
        lemma_decayed(p);
        lemma_shown(v, q);
        let all = displayed(mags, ranges, peak).0;
        assert forall|k: int| 0 <= k < ranges.len() implies in_unit(#[trigger] all[k]) by {
            if k < head.len() {
                assert(all[k] == shown[k]);
            }
        }
    }
}

/// A sample from -128 to 128, as all are by far: sound is carried from -1 to 1.
pub open spec fn is_sample(v: Single) -> bool {
    is_small(v, 156)
}

/// No larger than 2^20 either way, as sensitivities are by far.
pub open spec fn is_moderate(v: Single) -> bool {
    is_small(v, 169)
}

/// A magnitude of at most 2^20; samples from -1 to 1 give at most 2048.
pub open spec fn is_magnitude(v: Single) -> bool {
    is_capped(v, 169)
}

pub open spec fn are_magnitudes(mags: Seq<Single>) -> bool {
    mags.len() == HALF && forall|i: int| 0 <= i < HALF ==> is_magnitude(#[trigger] mags[i])
}

/// The level of a hop of samples is finite.
proof fn lemma_level(hop: Seq<Single>)
    requires
        hop.len() == HOP_SIZE,
        forall|i: int| 0 <= i < hop.len() ==> is_sample(#[trigger] hop[i]),
    ensures
        level(hop).is_plain(),
{
    let terms = squares(hop);
    assert forall|i: int| 0 <= i < terms.len() implies is_capped(#[trigger] terms[i], 163) by {
        lemma_product_small(hop[i], 156, hop[i], 156);
    }
    lemma_sum_capped(terms, 163);
    lemma2_to64();
    lemma_pow2_adds(9, 163);
    let s = sum_of(terms);
    lemma_whole_at_least(512);
    lemma_quotient_capped(s, Single::of_whole(512), 172);
    lemma_root_capped(s.over(Single::of_whole(512)), 172, 161);
}

/// The increase of magnitudes is finite.
proof fn lemma_rise(mags: Seq<Single>, prev: Seq<Single>, lo: nat, end: nat)
    requires
        are_magnitudes(mags),
        are_magnitudes(prev),
        end <= HALF,
    ensures
        rise(mags, prev, lo, end).is_plain(),
        rise(mags, prev, lo, end).worth() <= end * pow2(169),
    decreases end,
{
    lemma_zero_one();
    lemma_units_zero(23);
    if end <= lo {
        assert(end * pow2(169) >= 0) by (nonlinear_arith);
    } else {
        lemma_rise(mags, prev, lo, (end - 1) as nat);
        let before = rise(mags, prev, lo, (end - 1) as nat);
        let (a, b) = (mags[end - 1], prev[end - 1]);
        let d = a.minus(b);
        assert((end - 1) * pow2(169) + pow2(169) == end * pow2(169)) by (nonlinear_arith);
        if Single::of_whole(0).lt(d) {
            lemma_risen(a, b);
            lemma_worth(d, a);
            lemma_sum(before, d);
            let n = before.worth() + d.worth();
            assert(n <= end * pow2(169) * 1) by (nonlinear_arith)
                requires n <= end * pow2(169);
            crate::order::lemma_rounds_within(n, 1, end, 169);
        }
    }
}

/// A difference above zero is at most what it was taken from.
proof fn lemma_risen(a: Single, b: Single)
    requires
        a.is_plain(),
        b.is_plain(),
        Single::of_whole(0).lt(a.minus(b)),
    ensures
        a.minus(b).is_plain(),
        a.minus(b).magnitude() <= a.magnitude(),
{
    lemma_zero_one();
    if b.magnitude() <= a.magnitude() {
        lemma_difference(a, b);
    } else {
        reveal(Single::sum);
        lemma_worth(a, b);
        let n = (b.worth() - a.worth()) as nat;
        lemma_of(true, b.magnitude());
        lemma_rounded_nearest(23, INF as nat, n, 1);
        lemma_of(true, rounded(23, INF as nat, n, 1));
    }
}

/// What is measured of a band is finite.
proof fn lemma_measured(mags: Seq<Single>, prev: Seq<Single>, bins: (nat, nat))
    requires
        are_magnitudes(mags),
        are_magnitudes(prev),
        bins.0 <= bins.1 <= HALF,
    ensures
        is_capped(onset_flux(mags, prev, bins), 179),
        band_power(mags, bins).is_plain(),
{
    lemma2_to64();
    lemma_pow2_adds(10, 169);
    let end = band_end(bins.1);
    lemma_rise(mags, prev, bins.0, end);
    let r = rise(mags, prev, bins.0, end);
    assert(end * pow2(169) <= 1024 * pow2(169)) by (nonlinear_arith) requires end <= 1024;
    let width = if bins.1 > bins.0 + 1 { (bins.1 - bins.0) as nat } else { 1 };
    lemma_root_of_whole(width);
    lemma_quotient_capped(r, Single::of_whole(width).sqrt(), 179);
    let part = mags.subrange(bins.0 as int, end as int);
    let terms = squares(part);
    assert forall|i: int| 0 <= i < terms.len() implies is_capped(#[trigger] terms[i], 189) by {
        assert(part[i] == mags[bins.0 + i]);
        lemma_product_small(part[i], 169, part[i], 169);
    }
    lemma_sum_capped(terms, 189);
}

/// The mean of remembered flux is finite.
proof fn lemma_mean(history: Seq<Single>)
    requires
        history.len() <= FLUX_HISTORY,
        forall|i: int| 0 <= i < history.len() ==> is_capped(#[trigger] history[i], 179),
    ensures
        is_capped(mean_of(history), 186),
{
    let n = if history.len() > 0 { history.len() } else { 1 };
    lemma2_to64();
    lemma_pow2_adds(7, 179);
    lemma_sum_capped(history, 179);
    assert(history.len() * pow2(179) <= 128 * pow2(179)) by (nonlinear_arith)
        requires history.len() <= 128;
    lemma_whole_at_least(n);
    lemma_quotient_capped(sum_of(history), Single::of_whole(n), 186);
}

/// The deviation of remembered flux is finite.
proof fn lemma_deviation(b: BandModel)
    requires
        b.history.len() <= FLUX_HISTORY,
        forall|i: int| 0 <= i < b.history.len() ==> is_capped(#[trigger] b.history[i], 179),
    ensures
        is_capped(b.deviation(), 190),
{
    let n = if b.history.len() > 0 { b.history.len() } else { 1 };
    let mean = b.mean();
    lemma_mean(b.history);
    lemma_power_order(179, 186);
    let terms = squared_distances(b.history, mean);
    assert forall|i: int| 0 <= i < terms.len() implies is_capped(#[trigger] terms[i], 223) by {
        assert(is_capped(b.history[i], 179));
        lemma_difference_small(b.history[i], mean, 186);
        lemma_product_small(b.history[i].minus(mean), 186, b.history[i].minus(mean), 186);
    }
    lemma_sum_capped(terms, 223);
    lemma2_to64();
    lemma_pow2_adds(7, 223);
    assert(terms.len() * pow2(223) <= 128 * pow2(223)) by (nonlinear_arith)
        requires terms.len() <= 128;
    lemma_whole_at_least(n);
    lemma_quotient_capped(sum_of(terms), Single::of_whole(n), 230);
    lemma_root_capped(sum_of(terms).over(Single::of_whole(n)), 230, 190);
    let (tenth, least) = (Single::fraction(1, 10), Single::fraction(1, 1000000));
    lemma_fraction(1, 1, 10, 1);
    lemma_fraction(1, 1, 1000000, 1);
    lemma_whole_exact(1);
    lemma_worth(least, Single::of_whole(1));
    lemma_times_share(tenth, mean);
    lemma_worth(mean.times(tenth), mean);
    lemma_power_order(149, 186);
    lemma_power_order(187, 190);
    lemma_plus_capped(mean.times(tenth), least, 186);
}

/// A band whose flux was measured of magnitudes.
pub open spec fn is_calm_band(b: BandModel) -> bool {
    b.history.len() <= FLUX_HISTORY && forall|i: int|
        0 <= i < b.history.len() ==> is_capped(#[trigger] b.history[i], 179)
}

/// Moderate sensitivities and finite thresholds.
pub open spec fn is_calm_config(config: AnalyzerConfig) -> bool {
    forall|i: int|
        0 <= i < 4 ==> is_moderate(#[trigger] config.sensitivity@[i])
            && config.manual_threshold@[i].is_finite()
}

/// The threshold of a band is finite.
proof fn lemma_threshold(b: BandModel, config: AnalyzerConfig, i: int)
    requires
        0 <= i < 4,
        is_calm_band(b),
        is_calm_config(config),
    ensures
        b.threshold(config, i).is_finite(),
        b.mean().is_finite(),
{
    assert(is_moderate(config.sensitivity@[i]));
    lemma_mean(b.history);
    lemma_deviation(b);
    lemma_product_small(config.sensitivity@[i], 169, b.deviation(), 190);
    lemma_power_order(186, 210);
    lemma_plus_small(b.mean(), config.sensitivity@[i].times(b.deviation()), 210);
}

/// The share of a level in a peak that is not negative is a share.
proof fn lemma_level_share(v: Single, top: Single)
    requires
        v.is_plain(),
        !top.is_not_a_number(),
        !top.is_negative(),
        top.magnitude() > 0,
    ensures
        v.over(top).clamp(Single::of_whole(0), Single::of_whole(1)).is_share(),
{
    reveal(Single::quotient);
    lemma_zero_one();
    let (n, d) = (units(23, v.magnitude()) * pow2(149), units(23, top.magnitude()));
    lemma_rounded_nearest(23, INF as nat, n, d);
    lemma_of(false, rounded(23, INF as nat, n, d));
    lemma_of(false, 0);
}

/// What is half a step above 1 at most rounds to at most 1.
proof fn lemma_rounds_to_one(n: nat)
    requires
        n <= pow2(149) + pow2(125),
    ensures
        rounded(23, INF as nat, n, 1) <= Single::of_whole(1).magnitude(),
{
    let one = Single::of_whole(1);
    let k = one.magnitude();
    let u = pow2(149);
    lemma2_to64();
    lemma_whole_exact(1);
    lemma_pow2_adds(23, 126);
    lemma_pow2_adds(1, 125);
    crate::rounding::lemma_units_of_parts(23, 126, 0x80_0000);
    let g = 126 * pow2(23) + 0x80_0000;
    lemma_of(false, g);
    lemma_worth(one, Single::of(false, g));
    assert(k == g && k % 2 == 0);
    lemma_units_step(23, k);
    let m = u + pow2(125);
    lemma_units_step(23, (k - 1) as nat);
    assert(crate::rounding::is_nearest(23, INF as nat, m, 1, k)) by {
        lemma_pow2_pos(125);
        lemma_pow2_pos(spacing(23, (k - 1) as nat));
    }
    lemma_rounded_is(23, INF as nat, m, 1, k);
    assert(n * 1 <= m * 1);
    lemma_rounded_monotone(23, INF as nat, n, 1, m, 1);
}

/// An envelope that moves a part of the way toward a share stays a share.
#[verifier::spinoff_prover]
proof fn lemma_moved(env: Single, aim: Single, coef: Single)
    requires
        env.is_share(),
        aim.is_share(),
        coef.is_share(),
    ensures
        env.plus(aim.minus(env).times(coef)).is_share(),
{
    let one = Single::of_whole(1);
    let u = pow2(149);
    lemma2_to64();
    lemma_zero_one();
    lemma_whole_exact(1);
    lemma_worth(env, one);
    lemma_worth(aim, one);
    lemma_worth(env, aim);
    if env.magnitude() <= aim.magnitude() {
        let d = aim.minus(env);
        lemma_difference(aim, env);
        lemma_times_share(coef, d);
        let q = d.times(coef);
        lemma_worth(q, d);
        let n = (aim.worth() - env.worth()) as nat;
        lemma_rounded_above(23, INF as nat, n, 1);
        lemma_pow2_adds(24, 125);
        let dw = d.worth();
        assert(dw <= n + pow2(125)) by (nonlinear_arith)
            requires
                2 * 0x80_0000 * (dw * 1) <= (2 * 0x80_0000 + 1) * n + 0x80_0000 * 1,
                n <= u,
                u == 0x100_0000 * pow2(125),
        ;
        lemma_sum(env, q);
        lemma_rounds_to_one(env.worth() + q.worth());
        let r = env.plus(q);
        assert(r.is_share());
    } else {
        lemma_falling(env, aim, coef);
    }
}

proof fn lemma_falling(env: Single, aim: Single, coef: Single)
    requires
        env.is_share(),
        aim.is_share(),
        coef.is_share(),
        aim.magnitude() < env.magnitude(),
    ensures
        env.plus(aim.minus(env).times(coef)).is_share(),
{
    let d = env.minus(aim);
    lemma_difference(env, aim);
    let off = aim.minus(env);
    lemma_worth(aim, env);
    assert(off == Single::of(true, d.magnitude())) by {
        reveal(Single::sum);
        lemma_of(true, env.magnitude());
    }
    lemma_of(true, d.magnitude());
    lemma_times_share(coef, d);
    let q = d.times(coef);
    let pull = off.times(coef);
    assert(pull == Single::of(true, q.magnitude())) by {
        reveal(Single::product);
        let n = units(23, d.magnitude()) * units(23, coef.magnitude());
        lemma_rounded_nearest(23, INF as nat, n, pow2(149));
        lemma_of(false, rounded(23, INF as nat, n, pow2(149)));
        lemma_of(true, rounded(23, INF as nat, n, pow2(149)));
    }
    lemma_of(true, q.magnitude());
    lemma_difference(env, q);
    assert(env.plus(pull) == env.minus(q));
}

/// An analyzer that has only met moderate samples, magnitudes and settings.
pub open spec fn is_calm(m: AnalyzerModel) -> bool {
    &&& m.is_sound()
    &&& is_calm_config(m.config)
    &&& are_magnitudes(m.prev)
    &&& forall|i: int| 0 <= i < FFT_SIZE ==> is_small(#[trigger] m.window[i], 150)
    &&& forall|i: int| 0 <= i < FFT_SIZE ==> is_sample(#[trigger] m.input[i])
    &&& forall|i: int| 0 <= i < m.pending.len() ==> is_sample(#[trigger] m.pending[i])
    &&& forall|i: int| 0 <= i < 4 ==> is_calm_band(#[trigger] m.bands[i])
    &&& m.rms_env.is_share()
    &&& Single::of_whole(0).lt(m.spectrum_max)
    &&& are_onsets(m.tempo.onsets)
    &&& m.tempo.rate == m.rate
}

/// Everything that a frame displays, from 0 to 1.
pub open spec fn is_displayable(f: FrameModel) -> bool {
    &&& in_unit(f.rms)
    &&& in_unit(f.intensity)
    &&& forall|i: int|
        0 <= i < 4 ==> in_unit(#[trigger] f.band_energy[i]) && in_unit(f.band_flux[i]) && in_unit(
            f.band_threshold[i],
        ) && in_unit(f.band_flux_mean[i])
    &&& f.spectrum.len() == SPECTRUM_BINS
    &&& forall|k: int| 0 <= k < SPECTRUM_BINS ==> in_unit(#[trigger] f.spectrum[k])
}

/// The level and the envelope of a hop of moderate samples are shares.
proof fn lemma_levels(m: AnalyzerModel)
    requires
        is_calm(m),
    ensures
        m.relative_level().is_share(),
        m.envelope().is_share(),
{
    let hop = m.input.skip(FFT_SIZE - HOP_SIZE);
    assert forall|i: int| 0 <= i < hop.len() implies is_sample(#[trigger] hop[i]) by {
        assert(hop[i] == m.input[FFT_SIZE - HOP_SIZE + i]);
    }
    lemma_level(hop);
    lemma_fraction(1, 1, 10000, 1);
    lemma_kept_above(
        m.rms_max.times(Single::fraction(99997, 100000)).max(level(hop)),
        Single::fraction(1, 10000),
    );
    lemma_level_share(level(hop), m.level_peak());
    lemma_fraction(3, 3, 10, 1);
    lemma_fraction(5, 5, 1000, 1);
    let coef = if m.rms_env.lt(m.relative_level()) {
        Single::fraction(3, 10)
    } else {
        Single::fraction(5, 1000)
    };
    lemma_moved(m.rms_env, m.relative_level(), coef);
}

/// The levels of the places of a spectrum are finite.
proof fn lemma_places(mags: Seq<Single>, bins: (nat, nat))
    requires
        are_magnitudes(mags),
        1 <= bins.0 <= HALF,
        bins.0 < bins.1 <= HALF + 1,
    ensures
        place_level(mags, bins).is_finite(),
{
    let part = mags.subrange(bins.0 as int, band_end(bins.1) as int);
    assert forall|i: int| 0 <= i < part.len() implies is_capped(#[trigger] part[i], 169) by {
        assert(part[i] == mags[bins.0 + i]);
    }
    lemma2_to64();
    lemma_pow2_adds(10, 169);
    lemma_sum_capped(part, 169);
    let n = (bins.1 - bins.0) as nat;
    assert(part.len() * pow2(169) <= 1024 * pow2(169)) by (nonlinear_arith)
        requires part.len() <= 1024;
    lemma_whole_at_least(n);
    lemma_quotient_capped(sum_of(part), Single::of_whole(n), 179);
}

/// What a frame displays of a band lies from 0 to 1, and the band stays as it should be.
#[verifier::spinoff_prover]
proof fn lemma_band_of_frame(m: AnalyzerModel, mags: Seq<Single>, i: int)
    requires
        0 <= i < 4,
        is_calm(m),
        m.in_order(),
        are_magnitudes(mags),
    ensures
        is_calm_band(m.processed(mags).bands[i]),
        m.processed(mags).bands[i].bins == m.bands[i].bins,
        in_unit(m.readings(mags)[i].energy),
        in_unit(m.readings(mags)[i].flux),
        in_unit(m.readings(mags)[i].threshold),
        in_unit(m.readings(mags)[i].mean),
{
    let b = m.bands[i];
    let f = m.fluxes(mags);
    assert(b.is_ordered() && is_calm_band(b));
    assert(b.bins == band_bins(m.config, m.rate, i));
    lemma_measured(mags, m.prev, b.bins);
    lemma_threshold(b, m.config, i);
    lemma_band_display(b, m.config, i, band_power(mags, b.bins), f[i], sum_of(f), m.now());
    lemma_remembered(b, f[i]);
}

/// The onset of a hop is capped, and so is an envelope with it.
#[verifier::spinoff_prover]
proof fn lemma_onset(m: AnalyzerModel, mags: Seq<Single>)
    requires
        is_calm(m),
        m.in_order(),
        are_magnitudes(mags),
    ensures
        is_capped(m.onset(mags), 181),
        are_onsets(m.tempo.pushed(m.onset(mags)).onsets),
{
    let f = m.fluxes(mags);
    let (zero, half) = (Single::of_whole(0), Single::fraction(1, 2));
    assert forall|i: int| 0 <= i < 2 implies is_capped(#[trigger] f[i], 179) by {
        let b = m.bands[i];
        assert(b.is_ordered());
        assert(b.bins == band_bins(m.config, m.rate, i));
        lemma_measured(mags, m.prev, b.bins);
    }
    assert(is_capped(f[0], 179) && is_capped(f[1], 179));
    lemma_zero_one();
    lemma_units_zero(23);
    lemma_pow2_pos(179);
    lemma_plus_capped(zero, f[0], 179);
    lemma_fraction(1, 1, 2, 1);
    lemma_times_share(half, f[1]);
    lemma_worth(f[1].times(half), f[1]);
    lemma_power_order(179, 180);
    lemma_plus_capped(zero.plus(f[0]), f[1].times(half), 180);
    let (t, onset) = (m.tempo, m.onset(mags));
    let next = t.pushed(onset).onsets;
    assert forall|i: int| 0 <= i < next.len() implies is_capped(#[trigger] next[i], 181) by {
        if i < next.len() - 1 {
            if t.onsets.len() >= ONSET_ENVELOPE_LEN {
                assert(next[i] == t.onsets[i + 1]);
            } else {
                assert(next[i] == t.onsets[i]);
            }
        }
    }
}

/// What a frame displays of the spectrum lies from 0 to 1, and the peak stays positive.
#[verifier::spinoff_prover]
proof fn lemma_spectrum_of_frame(m: AnalyzerModel, mags: Seq<Single>)
    requires
        is_calm(m),
        are_magnitudes(mags),
    ensures
        m.output(mags).frame.spectrum.len() == SPECTRUM_BINS,
        forall|k: int|
            0 <= k < SPECTRUM_BINS ==> in_unit(#[trigger] m.output(mags).frame.spectrum[k]),
        Single::of_whole(0).lt(m.processed(mags).spectrum_max),
{
    assert forall|k: int| 0 <= k < m.ranges.len() implies place_level(
        mags,
        #[trigger] m.ranges[k],
    ).is_finite() by {
        lemma_places(mags, m.ranges[k]);
    }
    lemma_spectrum_display(mags, m.ranges, m.spectrum_max);
}

/// Everything that a frame displays lies from 0 to 1, whatever was heard, as long as samples
/// are no larger than 128, magnitudes and sensitivities no larger than 2^20, and thresholds finite;
/// and an analyzer that has met no others stays one.
#[verifier::spinoff_prover]
pub proof fn lemma_frame_display(m: AnalyzerModel, mags: Seq<Single>)
    requires
        is_calm(m),
        m.in_order(),
        are_magnitudes(mags),
    ensures
        is_displayable(m.output(mags).frame),
        is_calm(m.processed(mags)),
{
    let frame = m.output(mags).frame;
    let next = m.processed(mags);
    lemma_zero_one();
    lemma_levels(m);
    lemma_onset(m, mags);
    lemma_spectrum_of_frame(m, mags);
    assert forall|i: int| 0 <= i < 4 implies in_unit(#[trigger] frame.band_energy[i]) && in_unit(
        frame.band_flux[i],
    ) && in_unit(frame.band_threshold[i]) && in_unit(frame.band_flux_mean[i]) by {
        lemma_band_of_frame(m, mags, i);
        assert(frame.band_energy[i] == m.readings(mags)[i].energy);
    }
    assert forall|i: int| 0 <= i < 4 implies is_calm_band(#[trigger] next.bands[i])
        && next.bands[i].bins == band_bins(next.config, next.rate, i) by {
        lemma_band_of_frame(m, mags, i);
        assert(m.bands[i].bins == band_bins(m.config, m.rate, i));
    }
}

proof fn lemma_remembered(b: BandModel, flux: Single)
    requires
        is_calm_band(b),
        is_capped(flux, 179),
    ensures
        b.remembered(flux).len() <= FLUX_HISTORY,
        forall|i: int|
            0 <= i < b.remembered(flux).len() ==> is_capped(#[trigger] b.remembered(flux)[i], 179),
{
    let kept = if b.history.len() >= FLUX_HISTORY { b.history.skip(1) } else { b.history };
    assert forall|i: int| 0 <= i < b.remembered(flux).len() implies is_capped(
        #[trigger] b.remembered(flux)[i],
        179,
    ) by {
        if i < kept.len() {
            if b.history.len() >= FLUX_HISTORY {
                assert(kept[i] == b.history[i + 1]);
            } else {
                assert(kept[i] == b.history[i]);
            }
        }
    }
}

/// Moderate samples, moderate settings and a window that slides leave an analyzer one that has met
/// nothing else.
#[verifier::spinoff_prover]
pub proof fn lemma_calm_steps(m: AnalyzerModel, samples: Seq<Single>, config: AnalyzerConfig)
    requires
        is_calm(m),
        forall|i: int| 0 <= i < samples.len() ==> is_sample(#[trigger] samples[i]),
        is_calm_config(config),
    ensures
        is_calm(fed(m, samples)),
        is_calm(m.configured(config)),
        m.pending.len() >= HOP_SIZE ==> is_calm(m.slid()),
{
    let n = fed(m, samples);
    assert forall|i: int| 0 <= i < n.pending.len() implies is_sample(#[trigger] n.pending[i]) by {
        if i < m.pending.len() {
            assert(n.pending[i] == m.pending[i]);
        } else {
            assert(n.pending[i] == samples[i - m.pending.len()]);
        }
    }
    let c = m.configured(config);
    assert forall|i: int| 0 <= i < 4 implies is_calm_band(#[trigger] c.bands[i]) by {
        assert(is_calm_band(m.bands[i]));
    }
    if m.pending.len() >= HOP_SIZE {
        let s = m.slid();
        assert forall|i: int| 0 <= i < FFT_SIZE implies is_sample(#[trigger] s.input[i]) by {
            if i < FFT_SIZE - HOP_SIZE {
                assert(s.input[i] == m.input[i + HOP_SIZE]);
            } else {
                assert(s.input[i] == m.pending[i - (FFT_SIZE - HOP_SIZE)]);
            }
        }
        assert forall|i: int| 0 <= i < s.pending.len() implies is_sample(#[trigger] s.pending[i]) by {
            assert(s.pending[i] == m.pending[i + HOP_SIZE]);
        }
        assert(s.samples == s.hops * HOP_SIZE) by (nonlinear_arith)
            requires
                s.samples == m.samples + 512,
                s.hops == m.hops + 1,
                m.samples == m.hops * 512,
                HOP_SIZE == 512,
        ;
    }
}

/// The weight of a sample in a window is small where its cosine lies from -1 to 1.
proof fn lemma_weight(cosine: Single)
    requires
        is_small(cosine, 149),
    ensures
        is_small(Single::fraction(1, 2).times(Single::of_whole(1).minus(cosine)), 150),
{
    let (one, half) = (Single::of_whole(1), Single::fraction(1, 2));
    lemma_whole_exact(1);
    lemma_fraction(1, 1, 2, 1);
    lemma_worth(half, one);
    lemma_minus_small(one, cosine, 149);
    lemma_product_small(half, 149, one.minus(cosine), 150);
}

/// A fresh analyzer with moderate settings and cosines from -1 to 1 has met nothing else.
pub proof fn lemma_calm_start(
    rate: Single,
    config: AnalyzerConfig,
    cosines: Seq<Single>,
    powers: Seq<Single>,
    weights: Seq<Single>,
)
    requires
        is_calm_config(config),
        cosines.len() == FFT_SIZE,
        forall|i: int| 0 <= i < FFT_SIZE ==> is_small(#[trigger] cosines[i], 149),
        powers.len() == SPECTRUM_BINS + 1,
    ensures
        is_calm(AnalyzerModel::initial(rate, config, cosines, powers, weights)),
        has_dance_tempo(AnalyzerModel::initial(rate, config, cosines, powers, weights).tempo),
{
    let m = AnalyzerModel::initial(rate, config, cosines, powers, weights);
    lemma_zero_one();
    lemma_units_zero(23);
    lemma_fraction(1, 1, 1000000, 1);
    assert forall|i: int| 0 <= i < FFT_SIZE implies is_small(#[trigger] m.window[i], 150) by {
        assert(is_small(cosines[i], 149));
        lemma_weight(cosines[i]);
    }
}

/// Every tempo that is published lies from 70 to 200, at any sample rate, whatever was heard, as
/// long as samples, magnitudes and settings are moderate.
pub proof fn lemma_heard_tempo(m: AnalyzerModel, mags: Seq<Single>, hz: nat)
    requires
        0 < hz <= u32::MAX,
        m.rate == Single::of_whole(hz),
        is_calm(m),
        m.in_order(),
        are_magnitudes(mags),
        has_dance_tempo(m.tempo),
    ensures
        m.output(mags).tempo matches Some(e) ==> is_dance_tempo(e.bpm),
        has_dance_tempo(m.processed(mags).tempo),
{
    lemma_onset(m, mags);
    lemma_tempo_of_onsets(m.tempo.pushed(m.onset(mags)), hz);
}

/// The transform gives magnitudes of at most 2^20 for values from -256 to 256: the sum of as many as
/// a window holds is no larger.
pub open spec fn is_moderate_transform(transform: spec_fn(Seq<Single>) -> Seq<Single>) -> bool {
    forall|w: Seq<Single>|
        w.len() == FFT_SIZE && (forall|i: int| 0 <= i < FFT_SIZE ==> is_small(#[trigger] w[i], 157))
            ==> are_magnitudes(#[trigger] transform(w))
}

/// The samples to transform are no larger than 256.
proof fn lemma_windowed(m: AnalyzerModel)
    requires
        is_calm(m),
    ensures
        m.windowed().len() == FFT_SIZE,
        forall|i: int| 0 <= i < FFT_SIZE ==> is_small(#[trigger] m.windowed()[i], 157),
{
    assert forall|i: int| 0 <= i < FFT_SIZE implies is_small(#[trigger] m.windowed()[i], 157) by {
        assert(is_sample(m.input[i]) && is_small(m.window[i], 150));
        lemma_product_small(m.input[i], 156, m.window[i], 150);
    }
}

/// A feed of moderate samples gives only frames that display values from 0 to 1 and tempos from 70
/// to 200, and leaves an analyzer of which the same holds at the next feed.
pub proof fn lemma_heard_feed(
    m: AnalyzerModel,
    samples: Seq<Single>,
    transform: spec_fn(Seq<Single>) -> Seq<Single>,
    hz: nat,
)
    requires
        0 < hz <= u32::MAX,
        m.rate == Single::of_whole(hz),
        is_calm(m),
        m.in_order(),
        has_dance_tempo(m.tempo),
        is_moderate_transform(transform),
        forall|i: int| 0 <= i < samples.len() ==> is_sample(#[trigger] samples[i]),
    ensures
        ({
            let (rest, outs) = run(m, samples, transform);
            &&& forall|k: int|
                0 <= k < outs.len() ==> is_displayable((#[trigger] outs[k]).frame) && (
                outs[k].tempo matches Some(e) ==> is_dance_tempo(e.bpm))
            &&& is_calm(rest) && rest.in_order() && has_dance_tempo(rest.tempo)
            &&& rest.rate == m.rate
        }),
{
    lemma_calm_steps(m, samples, m.config);
    lemma_heard_drained(fed(m, samples), transform, hz);
}

#[verifier::spinoff_prover]
proof fn lemma_heard_drained(
    m: AnalyzerModel,
    transform: spec_fn(Seq<Single>) -> Seq<Single>,
    hz: nat,
)
    requires
        0 < hz <= u32::MAX,
        m.rate == Single::of_whole(hz),
        is_calm(m),
        m.in_order(),
        has_dance_tempo(m.tempo),
        is_moderate_transform(transform),
    ensures
        ({
            let (rest, outs) = drained(m, transform);
            &&& forall|k: int|
                0 <= k < outs.len() ==> is_displayable((#[trigger] outs[k]).frame) && (
                outs[k].tempo matches Some(e) ==> is_dance_tempo(e.bpm))
            &&& is_calm(rest) && rest.in_order() && has_dance_tempo(rest.tempo)
            &&& rest.rate == m.rate
        }),
    decreases m.pending.len(),
{
    if m.pending.len() >= HOP_SIZE {
        lemma_calm_steps(m, Seq::empty(), m.config);
        let s = m.slid();
        let mags = transform(s.windowed());
        lemma_windowed(s);
        assert(are_magnitudes(mags));
        assert(s.in_order()) by {
            assert forall|i: int| 0 <= i < 4 implies (#[trigger] s.bands[i]).is_ordered() by {
                assert(m.bands[i].is_ordered());
            }
        }
        lemma_frame_display(s, mags);
        lemma_heard_tempo(s, mags, hz);
        let p = s.processed(mags);
        assert(p.in_order()) by {
            assert forall|i: int| 0 <= i < 4 implies (#[trigger] p.bands[i]).is_ordered() by {
                assert(s.bands[i].is_ordered());
            }
        }
        lemma_heard_drained(p, transform, hz);
        let (rest, later) = drained(p, transform);
        let outs = drained(m, transform).1;
        assert forall|k: int| 0 <= k < outs.len() implies is_displayable(
            (#[trigger] outs[k]).frame,
        ) && (outs[k].tempo matches Some(e) ==> is_dance_tempo(e.bpm)) by {
            if k == 0 {
                assert(outs[k] == s.output(mags));
            } else {
                assert(outs[k] == later[k - 1]);
            }
        }
    }
}

} // verus!
