//! What holds of the analysis of a stream of samples.
use vstd::arithmetic::power2::{lemma2_to64, lemma_pow2_adds, lemma_pow2_pos, pow2};
use vstd::prelude::*;

use crate::analysis::{band_power, AnalyzerConfig, AnalyzerModel, BandModel, HopModel};
use crate::core_types::ThresholdMode;
use crate::double::{Double, INF};
use crate::engine::WindowModel;
use crate::engine_laws::{in_order, lemma_frames_in_order};
use crate::order::{lemma_fraction, lemma_of};
use crate::rounding::{
    lemma_on_grid, lemma_parts, lemma_rounded_exact, lemma_rounded_monotone, lemma_rounded_nearest,
    lemma_units_increase, lemma_units_step, lemma_units_zero, rounded, spacing, units, Whole,
};
use crate::single::Single;
use crate::sums::sum_of;
use crate::tempo::HOP_SIZE;

verus! {

/// The analyzer with samples fed to it.
pub open spec fn fed(m: AnalyzerModel, samples: Seq<Single>) -> AnalyzerModel {
    AnalyzerModel { pending: m.pending + samples, ..m }
}

/// The analyzer after all complete hops were processed, and what they gave, where `transform` is
/// the transform that stands outside.
pub open spec fn drained(m: AnalyzerModel, transform: spec_fn(Seq<Single>) -> Seq<Single>) -> (
    AnalyzerModel,
    Seq<HopModel>,
)
    decreases m.pending.len(),
{
    if m.pending.len() < HOP_SIZE {
        (m, Seq::empty())
    } else {
        let s = m.slid();
        let mags = transform(s.windowed());
        let (rest, outs) = drained(s.processed(mags), transform);
        (rest, seq![s.output(mags)] + outs)
    }
}

/// The analyzer after samples were fed and all complete hops were processed, and what they gave.
pub open spec fn run(
    m: AnalyzerModel,
    samples: Seq<Single>,
    transform: spec_fn(Seq<Single>) -> Seq<Single>,
) -> (AnalyzerModel, Seq<HopModel>) {
    drained(fed(m, samples), transform)
}

/// A feed gives one output per complete hop and keeps the samples of an incomplete one.
pub proof fn lemma_hops_per_feed(
    m: AnalyzerModel,
    samples: Seq<Single>,
    transform: spec_fn(Seq<Single>) -> Seq<Single>,
)
    ensures
        ({
            let (rest, outs) = run(m, samples, transform);
            let waiting = m.pending.len() + samples.len();
            &&& outs.len() == waiting / (HOP_SIZE as nat)
            &&& rest.pending.len() == waiting % (HOP_SIZE as nat)
            &&& rest.samples == m.samples + outs.len() * HOP_SIZE
            &&& rest.hops == m.hops + outs.len()
        }),
{
    lemma_drained_count(fed(m, samples), transform);
}

proof fn lemma_drained_count(m: AnalyzerModel, transform: spec_fn(Seq<Single>) -> Seq<Single>)
    ensures
        ({
            let (rest, outs) = drained(m, transform);
            &&& outs.len() == m.pending.len() / (HOP_SIZE as nat)
            &&& rest.pending.len() == m.pending.len() % (HOP_SIZE as nat)
            &&& rest.samples == m.samples + outs.len() * HOP_SIZE
            &&& rest.hops == m.hops + outs.len()
        }),
    decreases m.pending.len(),
{
    if m.pending.len() >= HOP_SIZE {
        let s = m.slid();
        lemma_drained_count(s.processed(transform(s.windowed())), transform);
    }
}

/// What is fed while a hop is complete changes nothing of that hop.
proof fn lemma_fed_hop(s: AnalyzerModel, x: Seq<Single>, mags: Seq<Single>)
    ensures
        fed(s, x).windowed() == s.windowed(),
        fed(s, x).output(mags) == s.output(mags),
        fed(s, x).processed(mags) == fed(s.processed(mags), x),
{
    let n = fed(s, x);
    assert(n.windowed() =~= s.windowed());
    assert(n.fluxes(mags) =~= s.fluxes(mags));
    assert(n.readings(mags) =~= s.readings(mags));
    assert(n.processed(mags).bands =~= s.processed(mags).bands);
}

/// It does not matter how a stream is cut into pieces: feeding two pieces gives the outputs, and
/// leaves the state, of feeding them as one.
pub proof fn lemma_feeding_in_parts(
    m: AnalyzerModel,
    a: Seq<Single>,
    b: Seq<Single>,
    transform: spec_fn(Seq<Single>) -> Seq<Single>,
)
    ensures
        ({
            let (first, head) = run(m, a, transform);
            let (second, tail) = run(first, b, transform);
            run(m, a + b, transform) == (second, head + tail)
        }),
{
    lemma_drained_parts(fed(m, a), b, transform);
    assert(fed(fed(m, a), b).pending =~= fed(m, a + b).pending);
}

#[verifier::spinoff_prover]
proof fn lemma_drained_parts(
    m: AnalyzerModel,
    b: Seq<Single>,
    transform: spec_fn(Seq<Single>) -> Seq<Single>,
)
    ensures
        ({
            let (first, head) = drained(m, transform);
            let (second, tail) = drained(fed(first, b), transform);
            drained(fed(m, b), transform) == (second, head + tail)
        }),
    decreases m.pending.len(),
{
    let (first, head) = drained(m, transform);
    let (second, tail) = drained(fed(first, b), transform);
    if m.pending.len() < HOP_SIZE {
        assert(head + tail =~= tail);
    } else {
        let s = m.slid();
        let mags = transform(s.windowed());
        let n = fed(m, b);
        assert(n.slid().input =~= s.input);
        assert(n.slid().pending =~= fed(s, b).pending);
        assert(n.slid() == fed(s, b));
        lemma_fed_hop(s, b, mags);
        lemma_drained_parts(s.processed(mags), b, transform);
        let (_, later) = drained(s.processed(mags), transform);
        assert(seq![s.output(mags)] + (later + tail) =~= head + tail);
    }
}

/// The analyzer with the same settings but adaptive thresholds.
pub open spec fn adaptive(m: AnalyzerModel) -> AnalyzerModel {
    AnalyzerModel {
        config: AnalyzerConfig { threshold_mode: ThresholdMode::Auto, ..m.config },
        ..m
    }
}

/// In the manual mode a band without a threshold of its own behaves as in the adaptive mode: a hop
/// says the same of it, and leaves it in the same state.
pub proof fn lemma_unset_band(m: AnalyzerModel, mags: Seq<Single>, i: int)
    requires
        0 <= i < 4,
        !Single::of_whole(0).lt(m.config.manual_threshold@[i]),
    ensures
        m.readings(mags)[i] == adaptive(m).readings(mags)[i],
        m.processed(mags).bands[i] == adaptive(m).processed(mags).bands[i],
{
    assert(m.fluxes(mags) =~= adaptive(m).fluxes(mags));
}

/// No band has a threshold of its own.
pub open spec fn is_unset(config: AnalyzerConfig) -> bool {
    forall|i: int| 0 <= i < 4 ==> !Single::of_whole(0).lt(#[trigger] config.manual_threshold@[i])
}

proof fn lemma_unset_hop(s: AnalyzerModel, mags: Seq<Single>)
    requires
        is_unset(s.config),
    ensures
        adaptive(s).windowed() == s.windowed(),
        adaptive(s).output(mags) == s.output(mags),
        adaptive(s).processed(mags) == adaptive(s.processed(mags)),
{
    let n = adaptive(s);
    assert(n.windowed() =~= s.windowed());
    assert(n.fluxes(mags) =~= s.fluxes(mags));
    assert forall|i: int| 0 <= i < 4 implies n.readings(mags)[i] == s.readings(mags)[i]
        && n.processed(mags).bands[i] == s.processed(mags).bands[i] by {
        assert(!Single::of_whole(0).lt(s.config.manual_threshold@[i]));
        lemma_unset_band(s, mags, i);
    }
    assert(n.readings(mags) =~= s.readings(mags));
    assert(n.processed(mags).bands =~= s.processed(mags).bands);
}

/// The manual mode with no threshold set gives, over a whole feed, all that the adaptive mode
/// gives, and leaves the same state.
pub proof fn lemma_unset_is_adaptive(
    m: AnalyzerModel,
    samples: Seq<Single>,
    transform: spec_fn(Seq<Single>) -> Seq<Single>,
)
    requires
        is_unset(m.config),
    ensures
        run(adaptive(m), samples, transform).1 == run(m, samples, transform).1,
        run(adaptive(m), samples, transform).0 == adaptive(run(m, samples, transform).0),
{
    assert(fed(adaptive(m), samples) == adaptive(fed(m, samples)));
    lemma_unset_drained(fed(m, samples), transform);
}

proof fn lemma_unset_drained(m: AnalyzerModel, transform: spec_fn(Seq<Single>) -> Seq<Single>)
    requires
        is_unset(m.config),
    ensures
        drained(adaptive(m), transform).1 == drained(m, transform).1,
        drained(adaptive(m), transform).0 == adaptive(drained(m, transform).0),
    decreases m.pending.len(),
{
    if m.pending.len() >= HOP_SIZE {
        let s = m.slid();
        let mags = transform(s.windowed());
        assert(adaptive(m).slid() == adaptive(s));
        lemma_unset_hop(s, mags);
        lemma_unset_drained(s.processed(mags), transform);
    }
}

/// New settings keep all that was learned: the flux history, its peak, the energy peak, the time of
/// the last beat, the tempo and the levels, so that nothing has to settle again and the time goes
/// on.
pub proof fn lemma_settings_keep_state(m: AnalyzerModel, config: AnalyzerConfig, i: int)
    requires
        0 <= i < 4,
        m.bands.len() == 4,
    ensures
        ({
            let n = m.configured(config);
            &&& n.bands[i].history == m.bands[i].history
            &&& n.bands[i].flux_max == m.bands[i].flux_max
            &&& n.bands[i].energy_max == m.bands[i].energy_max
            &&& n.bands[i].last_beat == m.bands[i].last_beat
            &&& n.tempo == m.tempo
            &&& n.rms_env == m.rms_env && n.rms_max == m.rms_max
            &&& n.spectrum_max == m.spectrum_max
            &&& n.input == m.input && n.pending == m.pending && n.prev == m.prev
            &&& n.samples == m.samples && n.hops == m.hops
            &&& n.now() == m.now()
        }),
{
}

/// Settings that are already in force change nothing: not the state, and so not what any later feed
/// gives.
pub proof fn lemma_same_settings(
    m: AnalyzerModel,
    samples: Seq<Single>,
    transform: spec_fn(Seq<Single>) -> Seq<Single>,
)
    requires
        m.is_sound(),
    ensures
        m.configured(m.config) == m,
        run(m.configured(m.config), samples, transform) == run(m, samples, transform),
{
    assert(m.configured(m.config).bands =~= m.bands);
}

/// A flux peak is not below the old one after one step of its decay.
proof fn lemma_peak_decays(
    b: BandModel,
    config: AnalyzerConfig,
    i: int,
    power: Single,
    flux: Single,
    total: Single,
    now: Double,
)
    requires
        !b.flux_max.is_not_a_number(),
    ensures
        b.flux_max.times(Single::fraction(9995, 10000)).le(
            b.reading(config, i, power, flux, total, now).flux_max,
        ),
{
    let decay = Single::fraction(9995, 10000);
    let kept = b.flux_max.times(decay);
    lemma_fraction(9995, 9995, 10000, 1);
    lemma_product_number(b.flux_max, decay);
    lemma_never_lower(kept, flux);
    lemma_never_lower(kept.max(flux), b.threshold(config, i));
    lemma_never_lower(kept.max(flux).max(b.threshold(config, i)), Single::fraction(1, 1000000));
}

proof fn lemma_never_lower(a: Single, b: Single)
    requires
        !a.is_not_a_number(),
    ensures
        a.le(a.max(b)),
{
}

proof fn lemma_product_number(a: Single, b: Single)
    requires
        !a.is_not_a_number(),
        b.is_plain(),
        b.magnitude() > 0,
    ensures
        !a.times(b).is_not_a_number(),
{
    reveal(Single::product);
    let n = units(23, a.magnitude()) * units(23, b.magnitude());
    lemma_rounded_nearest(23, crate::single::INF as nat, n, pow2(149));
    lemma_of(false, rounded(23, crate::single::INF as nat, n, pow2(149)));
    lemma_of(true, rounded(23, crate::single::INF as nat, n, pow2(149)));
}

/// The first hop after new settings goes on from what was learned: its time, its level and its
/// displayed spectrum are the same, and the flux peak of a band is not below the old one after one
/// step of its decay.
#[verifier::spinoff_prover]
pub proof fn lemma_retuned_hop(m: AnalyzerModel, config: AnalyzerConfig, mags: Seq<Single>, i: int)
    requires
        0 <= i < 4,
        m.bands.len() == 4,
        !m.bands[i].flux_max.is_not_a_number(),
    ensures
        ({
            let before = m.slid().output(mags);
            let after = m.configured(config).slid().output(mags);
            &&& after.frame.timestamp_ms == before.frame.timestamp_ms
            &&& after.frame.rms == before.frame.rms
            &&& after.frame.intensity == before.frame.intensity
            &&& after.frame.spectrum == before.frame.spectrum
            &&& m.bands[i].flux_max.times(Single::fraction(9995, 10000)).le(
                after.frame.band_flux_max[i],
            )
        }),
{
    let n = m.configured(config).slid();
    let f = n.fluxes(mags);
    lemma_peak_decays(
        n.bands[i],
        config,
        i,
        band_power(mags, n.bands[i].bins),
        f[i],
        sum_of(f),
        n.now(),
    );
    assert(n.output(mags).frame.band_flux_max[i] == n.readings(mags)[i].flux_max);
}

/// The time of the analyzer in whole milliseconds.
pub open spec fn clock(m: AnalyzerModel) -> u64 {
    m.now().to_whole(Whole::Floor)
}

/// Zero or above it, or infinite.
spec fn is_forth(x: Double) -> bool {
    !x.is_not_a_number() && !x.is_negative()
}

proof fn lemma_double_of(k: nat)
    requires
        k <= INF,
    ensures
        Double::of(false, k).magnitude() == k,
        is_forth(Double::of(false, k)),
{
}

proof fn lemma_units_order(j: nat, k: nat)
    requires
        j <= k,
    ensures
        units(52, j) <= units(52, k),
{
    if j < k {
        lemma_units_increase(52, j, k);
    }
}

pub proof fn lemma_fraction_bits()
    ensures
        pow2(0) == 1,
        pow2(23) == 0x80_0000,
        pow2(52) == 0x10_0000_0000_0000,
{
    lemma2_to64();
    lemma_pow2_adds(26, 26);
}

proof fn lemma_double_whole(a: nat, b: nat)
    requires
        a <= b,
    ensures
        is_forth(Double::of_whole(a)),
        is_forth(Double::of_whole(b)),
        Double::of_whole(a).magnitude() <= Double::of_whole(b).magnitude(),
        a > 0 ==> Double::of_whole(a).magnitude() > 0,
        a == 0 ==> Double::of_whole(a).magnitude() == 0,
{
    reveal(Double::of_whole);
    let u = pow2(1074);
    lemma_pow2_pos(1074);
    assert(a * u * 1 <= b * u * 1) by (nonlinear_arith) requires a <= b;
    lemma_rounded_monotone(52, INF as nat, a * u, 1, b * u, 1);
    lemma_double_of(rounded(52, INF as nat, a * u, 1));
    lemma_double_of(rounded(52, INF as nat, b * u, 1));
    lemma_units_zero(52);
    if a == 0 {
        assert(0 * u == 0) by (nonlinear_arith);
        lemma_rounded_exact(52, INF as nat, 0, 1, 0);
    } else {
        lemma_fraction_bits();
        lemma_units_step(52, 0);
        lemma_rounded_exact(52, INF as nat, 1, 1, 1);
        assert(1 * 1 <= a * u * 1) by (nonlinear_arith) requires a > 0, u > 0;
        lemma_rounded_monotone(52, INF as nat, 1, 1, a * u, 1);
    }
}

proof fn lemma_double_product(x: Double, y: Double, c: Double)
    requires
        is_forth(x),
        is_forth(y),
        x.magnitude() <= y.magnitude(),
        is_forth(c),
        c.is_finite(),
        c.magnitude() > 0,
    ensures
        is_forth(x.times(c)),
        is_forth(y.times(c)),
        x.times(c).magnitude() <= y.times(c).magnitude(),
{
    reveal(Double::product);
    let u = pow2(1074);
    lemma_pow2_pos(1074);
    lemma_units_order(x.magnitude(), y.magnitude());
    let (a, b, w) = (units(52, x.magnitude()), units(52, y.magnitude()), units(52, c.magnitude()));
    assert((a * w) * u <= (b * w) * u) by (nonlinear_arith) requires a <= b, w >= 0, u >= 0;
    lemma_rounded_monotone(52, INF as nat, a * w, u, b * w, u);
    lemma_double_of(INF as nat);
    lemma_double_of(rounded(52, INF as nat, a * w, u));
    lemma_double_of(rounded(52, INF as nat, b * w, u));
}

proof fn lemma_double_quotient(x: Double, y: Double, c: Double)
    requires
        is_forth(x),
        is_forth(y),
        x.magnitude() <= y.magnitude(),
        is_forth(c),
        c.is_finite(),
        c.magnitude() > 0,
    ensures
        is_forth(x.over(c)),
        is_forth(y.over(c)),
        x.over(c).magnitude() <= y.over(c).magnitude(),
{
    reveal(Double::quotient);
    let u = pow2(1074);
    lemma_pow2_pos(1074);
    lemma_units_order(x.magnitude(), y.magnitude());
    let (a, b, w) = (units(52, x.magnitude()), units(52, y.magnitude()), units(52, c.magnitude()));
    lemma_units_zero(52);
    lemma_units_increase(52, 0, c.magnitude());
    assert((a * u) * w <= (b * u) * w) by (nonlinear_arith) requires a <= b, w >= 0, u >= 0;
    lemma_rounded_monotone(52, INF as nat, a * u, w, b * u, w);
    lemma_double_of(INF as nat);
    lemma_double_of(rounded(52, INF as nat, a * u, w));
    lemma_double_of(rounded(52, INF as nat, b * u, w));
}

proof fn lemma_double_floor(x: Double, y: Double)
    requires
        is_forth(x),
        is_forth(y),
        x.magnitude() <= y.magnitude(),
    ensures
        x.to_whole(Whole::Floor) <= y.to_whole(Whole::Floor),
{
    reveal(Double::whole_number);
    lemma_pow2_pos(1074);
    lemma_units_order(x.magnitude(), y.magnitude());
    vstd::arithmetic::div_mod::lemma_div_is_ordered(
        units(52, x.magnitude()) as int,
        units(52, y.magnitude()) as int,
        pow2(1074) as int,
    );
}

/// The time of an analyzer never goes back while samples come in.
pub proof fn lemma_clock(m: AnalyzerModel, n: AnalyzerModel)
    requires
        m.rate == n.rate,
        m.rate.is_plain(),
        m.samples <= n.samples,
    ensures
        clock(m) <= clock(n),
{
    let thousand = Double::of_whole(1000);
    let rate = Double::widen(m.rate);
    let (x, y) = (Double::of_whole(m.samples), Double::of_whole(n.samples));
    lemma_double_whole(m.samples, n.samples);
    lemma_double_whole(1000, 1000);
    lemma_widened(m.rate);
    lemma_thousand();
    lemma_double_product(x, y, thousand);
    if rate.magnitude() > 0 {
        lemma_double_quotient(x.times(thousand), y.times(thousand), rate);
        lemma_double_floor(m.now(), n.now());
    } else {
        reveal(Double::quotient);
        reveal(Double::whole_number);
        lemma_double_of(INF as nat);
    }
}

proof fn lemma_thousand()
    ensures
        Double::of_whole(1000).is_finite(),
{
    reveal(Double::of_whole);
    lemma_fraction_bits();
    let k = lemma_on_grid(52, 1000, 1074);
    lemma_rounded_exact(52, INF as nat, 1000 * pow2(1074), 1, k);
    lemma_double_of(k);
}

#[verifier::spinoff_prover]
proof fn lemma_widened(x: Single)
    requires
        x.is_plain(),
    ensures
        is_forth(Double::widen(x)),
        Double::widen(x).is_finite(),
{
    reveal(Double::widen);
    lemma_fraction_bits();
    let s = spacing(23, x.magnitude());
    lemma_parts(23, x.magnitude());
    let c = (x.magnitude() - s * pow2(23)) as nat;
    let k = lemma_on_grid(52, c, s + 925);
    lemma_pow2_adds(s, 925);
    assert(c * pow2(s) * pow2(925) == c * (pow2(s) * pow2(925))) by (nonlinear_arith);
    assert(s < 255) by (nonlinear_arith)
        requires s * 0x80_0000 <= x.magnitude(), x.magnitude() < 0x7f80_0000;
    assert((s + 925 + 2) * pow2(52) <= 1181 * 0x10_0000_0000_0000) by (nonlinear_arith)
        requires s < 255, pow2(52) == 0x10_0000_0000_0000;
    lemma_rounded_exact(52, INF as nat, units(23, x.magnitude()) * pow2(925), 1, k);
    lemma_double_of(k);
}

/// The frames of a feed come in the order of their times: none is before the time at which the feed
/// began, and none after the time at which it ended.
pub proof fn lemma_frames_of_feed(
    m: AnalyzerModel,
    samples: Seq<Single>,
    transform: spec_fn(Seq<Single>) -> Seq<Single>,
)
    requires
        m.rate.is_plain(),
    ensures
        ({
            let (rest, outs) = run(m, samples, transform);
            &&& in_order(outs.map_values(|h: HopModel| h.frame))
            &&& clock(m) <= clock(rest)
            &&& forall|k: int|
                0 <= k < outs.len() ==> clock(m) <= (#[trigger] outs[k]).frame.timestamp_ms
                    <= clock(rest)
        }),
{
    let n = fed(m, samples);
    assert(n.now() == m.now());
    lemma_drained_times(n, transform);
    let (rest, outs) = drained(n, transform);
    let frames = outs.map_values(|h: HopModel| h.frame);
    assert forall|i: int, j: int| 0 <= i <= j < frames.len() implies frames[i].timestamp_ms
        <= frames[j].timestamp_ms by {
        assert(outs[i].frame.timestamp_ms <= outs[j].frame.timestamp_ms);
    }
}

proof fn lemma_drained_times(m: AnalyzerModel, transform: spec_fn(Seq<Single>) -> Seq<Single>)
    requires
        m.rate.is_plain(),
    ensures
        ({
            let (rest, outs) = drained(m, transform);
            &&& clock(m) <= clock(rest)
            &&& forall|k: int|
                0 <= k < outs.len() ==> clock(m) <= (#[trigger] outs[k]).frame.timestamp_ms
                    <= clock(rest)
            &&& forall|i: int, j: int|
                0 <= i <= j < outs.len() ==> (#[trigger] outs[i]).frame.timestamp_ms <= (
                #[trigger] outs[j]).frame.timestamp_ms
        }),
    decreases m.pending.len(),
{
    if m.pending.len() >= HOP_SIZE {
        let s = m.slid();
        let mags = transform(s.windowed());
        let p = s.processed(mags);
        lemma_clock(m, s);
        assert(p.now() == s.now());
        assert(s.output(mags).frame.timestamp_ms == clock(s));
        lemma_drained_times(p, transform);
        let (rest, later) = drained(p, transform);
        let outs = drained(m, transform).1;
        assert forall|k: int| 0 <= k < outs.len() implies clock(s) <= (
        #[trigger] outs[k]).frame.timestamp_ms <= clock(rest) by {
            if k > 0 {
                assert(outs[k] == later[k - 1]);
            }
        }
        assert forall|i: int, j: int| 0 <= i <= j < outs.len() implies (
        #[trigger] outs[i]).frame.timestamp_ms <= (#[trigger] outs[j]).frame.timestamp_ms by {
            if i > 0 {
                assert(outs[i] == later[i - 1]);
                assert(outs[j] == later[j - 1]);
            }
        }
    }
}

/// A window of frames after the frames of some hops came in.
pub open spec fn shown(w: WindowModel, outs: Seq<HopModel>) -> WindowModel
    decreases outs.len(),
{
    if outs.len() == 0 {
        w
    } else {
        shown(w, outs.drop_last()).with_frame(outs.last().frame)
    }
}

/// Frames in order, none after a time.
pub open spec fn is_past(w: WindowModel, time: u64) -> bool {
    in_order(w.frames) && forall|i: int|
        0 <= i < w.frames.len() ==> (#[trigger] w.frames[i]).timestamp_ms <= time
}

/// The frames of an analyzer can be handed to a window feed after feed: each can be taken in, since
/// no frame is older than those that the window holds, and the same holds of the next feed.
#[verifier::spinoff_prover]
pub proof fn lemma_window_of_feed(
    w: WindowModel,
    m: AnalyzerModel,
    samples: Seq<Single>,
    transform: spec_fn(Seq<Single>) -> Seq<Single>,
)
    requires
        m.rate.is_plain(),
        is_past(w, clock(m)),
    ensures
        ({
            let (rest, outs) = run(m, samples, transform);
            &&& forall|k: int|
                0 <= k < outs.len() ==> shown(w, #[trigger] outs.take(k)).with_frame(
                    outs[k].frame,
                ).is_forward()
            &&& is_past(shown(w, outs), clock(rest))
        }),
{
    let (rest, outs) = run(m, samples, transform);
    lemma_frames_of_feed(m, samples, transform);
    let frames = outs.map_values(|h: HopModel| h.frame);
    assert forall|i: int, j: int| 0 <= i <= j < outs.len() implies (
    #[trigger] outs[i]).frame.timestamp_ms <= (#[trigger] outs[j]).frame.timestamp_ms by {
        assert(frames[i].timestamp_ms <= frames[j].timestamp_ms);
    }
    assert forall|k: int| 0 <= k < outs.len() implies shown(w, #[trigger] outs.take(k)).with_frame(
        outs[k].frame,
    ).is_forward() by {
        lemma_window_step(w, clock(m), outs, k + 1);
        assert(outs.take(k + 1).drop_last() =~= outs.take(k));
    }
    lemma_window_step(w, clock(m), outs, outs.len() as int);
    assert(outs.take(outs.len() as int) =~= outs);
}

proof fn lemma_window_step(w: WindowModel, time: u64, outs: Seq<HopModel>, k: int)
    requires
        0 <= k <= outs.len(),
        is_past(w, time),
        forall|i: int| 0 <= i < outs.len() ==> time <= (#[trigger] outs[i]).frame.timestamp_ms,
        forall|i: int, j: int|
            0 <= i <= j < outs.len() ==> (#[trigger] outs[i]).frame.timestamp_ms <= (
            #[trigger] outs[j]).frame.timestamp_ms,
    ensures
        is_past(
            shown(w, outs.take(k)),
            if k == 0 {
                time
            } else {
                outs[k - 1].frame.timestamp_ms
            },
        ),
        k > 0 ==> shown(w, outs.take(k)).is_forward(),
    decreases k,
{
    if k > 0 {
        lemma_window_step(w, time, outs, k - 1);
        let before = shown(w, outs.take(k - 1));
        let f = outs[k - 1].frame;
        assert(outs.take(k).drop_last() =~= outs.take(k - 1));
        assert(outs.take(k).last() == outs[k - 1]);
        if k > 1 {
            assert(outs[k - 2].frame.timestamp_ms <= outs[k - 1].frame.timestamp_ms);
        }
        let all = before.frames.push(f);
        assert(in_order(all));
        lemma_frames_in_order(before, f);
        let after = before.with_frame(f);
        assert forall|i: int| 0 <= i < after.frames.len() implies (
        #[trigger] after.frames[i]).timestamp_ms <= f.timestamp_ms by {
            assert(after.frames[i].timestamp_ms <= after.frames[after.frames.len()
                - 1].timestamp_ms);
        }
    }
}

} // verus!
