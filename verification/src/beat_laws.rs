//! What holds of the detection of beats in each of the four bands.
use vstd::prelude::*;

use crate::analysis::{
    band_end, band_power, beats_of, onset_flux, rise, AnalyzerConfig, AnalyzerModel, BandModel,
    BandReading,
};
use crate::core_types::{Band, ThresholdMode};
use crate::double::Double;
use crate::rounding::Whole;
use crate::single::Single;
use crate::sums::{mean_of, sum_of};

verus! {

/// The band at a place, from the lowest frequencies to the highest.
pub open spec fn band_at(i: int) -> Band {
    if i == 0 {
        Band::Low
    } else if i == 1 {
        Band::LowMid
    } else if i == 2 {
        Band::HighMid
    } else {
        Band::High
    }
}

/// Each band beats by itself, and by the same condition as every other: where all bands are
/// wanted and the threshold adapts, a flux beats that stands above the mean of at least 32 recent
/// ones by more than the sensitivity times their deviation, that is at least 0.15 of the flux of
/// all bands, and that comes no earlier than the shortest interval after the last beat.
pub proof fn lemma_every_band_beats(
    b: BandModel,
    config: AnalyzerConfig,
    i: int,
    power: Single,
    flux: Single,
    total: Single,
    now: Double,
)
    requires
        0 <= i < 4,
        !config.low_only,
        config.threshold_mode == ThresholdMode::Auto,
    ensures
        ({
            let above = mean_of(b.history).plus(
                config.sensitivity@[i].times(b.deviation()),
            ).lt(flux);
            let dominant = total.times(Single::fraction(15, 100)).le(flux);
            let rested = Double::widen(config.min_interval_ms@[i]).le(now.minus(b.last_beat));
            let beat = b.reading(config, i, power, flux, total, now).beat;
            &&& b.history.len() >= 32 && above && dominant && rested ==> beat is Some
            &&& beat matches Some(e) ==> {
                &&& b.history.len() >= 32 && above && dominant && rested
                &&& e.band == band_at(i)
                &&& e.timestamp_ms == now.to_whole(Whole::Floor)
            }
        }),
{
}

/// A band with a threshold of its own in the manual mode beats on every flux above it, without a
/// history, and on no other.
pub proof fn lemma_manual_band_beats(
    b: BandModel,
    config: AnalyzerConfig,
    i: int,
    power: Single,
    flux: Single,
    total: Single,
    now: Double,
)
    requires
        0 <= i < 4,
        !config.low_only,
        config.threshold_mode == ThresholdMode::Manual,
        Single::of_whole(0).lt(config.manual_threshold@[i]),
    ensures
        ({
            let dominant = total.times(Single::fraction(15, 100)).le(flux);
            let rested = Double::widen(config.min_interval_ms@[i]).le(now.minus(b.last_beat));
            let beat = b.reading(config, i, power, flux, total, now).beat;
            &&& beat is Some <==> config.manual_threshold@[i].lt(flux) && dominant && rested
            &&& beat matches Some(e) ==> e.band == band_at(i)
        }),
{
}

/// The low band beats alike whether the others are wanted or not.
pub proof fn lemma_low_band_beats(
    b: BandModel,
    config: AnalyzerConfig,
    power: Single,
    flux: Single,
    total: Single,
    now: Double,
)
    ensures
        b.reading(config, 0, power, flux, total, now).beat == b.reading(
            (AnalyzerConfig { low_only: !config.low_only, ..config }),
            0,
            power,
            flux,
            total,
            now,
        ).beat,
{
}

/// Bands with the same settings beat alike.
pub proof fn lemma_bands_beat_alike(
    b: BandModel,
    config: AnalyzerConfig,
    i: int,
    j: int,
    power: Single,
    flux: Single,
    total: Single,
    now: Double,
)
    requires
        0 <= i < 4,
        0 <= j < 4,
        !config.low_only,
        config.sensitivity@[i] == config.sensitivity@[j],
        config.min_interval_ms@[i] == config.min_interval_ms@[j],
        config.manual_threshold@[i] == config.manual_threshold@[j],
    ensures
        ({
            let (x, y) = (
                b.reading(config, i, power, flux, total, now),
                b.reading(config, j, power, flux, total, now),
            );
            &&& x.beat is Some == y.beat is Some
            &&& x.beat is Some ==> x.beat->0.strength == y.beat->0.strength
            &&& x.energy == y.energy && x.flux == y.flux && x.threshold == y.threshold
            &&& x.mean == y.mean && x.deviation == y.deviation && x.flux_max == y.flux_max
        }),
{
}

/// A beat of a reading is among those of all.
proof fn lemma_beat_is_listed(r: Seq<BandReading>, i: int)
    requires
        0 <= i < r.len(),
        r[i].beat is Some,
    ensures
        beats_of(r).contains(r[i].beat->0),
    decreases r.len(),
{
    let head = r.drop_last();
    let (before, all) = (beats_of(head), beats_of(r));
    if i < head.len() {
        assert(head[i] == r[i]);
        lemma_beat_is_listed(head, i);
        let k = before.index_of(r[i].beat->0);
        assert(all[k] == before[k]);
    } else {
        assert(all[all.len() - 1] == r[i].beat->0);
    }
}

/// A beat of all is of one of the readings.
proof fn lemma_listed_beat(r: Seq<BandReading>, k: int) -> (i: int)
    requires
        0 <= k < beats_of(r).len(),
    ensures
        0 <= i < r.len(),
        r[i].beat == Some(beats_of(r)[k]),
    decreases r.len(),
{
    let head = r.drop_last();
    let before = beats_of(head);
    if k < before.len() {
        let i = lemma_listed_beat(head, k);
        assert(head[i] == r[i]);
        i
    } else {
        r.len() - 1
    }
}

/// The flux of a hop in each band, as the magnitudes of its bins have risen.
pub open spec fn flux_of(m: AnalyzerModel, mags: Seq<Single>, i: int) -> Single {
    onset_flux(mags, m.prev, m.bands[i].bins)
}

/// A hop gives a beat of each band whose flux beats, whatever the other bands do, and no others.
pub proof fn lemma_hop_beats(m: AnalyzerModel, mags: Seq<Single>, i: int)
    requires
        0 <= i < 4,
        !m.config.low_only,
        m.config.threshold_mode == ThresholdMode::Auto,
    ensures
        ({
            let b = m.bands[i];
            let flux = flux_of(m, mags, i);
            let total = sum_of(Seq::new(4, |j: int| flux_of(m, mags, j)));
            let beats = b.history.len() >= 32 && mean_of(b.history).plus(
                m.config.sensitivity@[i].times(b.deviation()),
            ).lt(flux) && total.times(Single::fraction(15, 100)).le(flux) && Double::widen(
                m.config.min_interval_ms@[i],
            ).le(m.now().minus(b.last_beat));
            beats <==> exists|k: int|
                0 <= k < m.output(mags).beats.len() && (#[trigger] m.output(mags).beats[k]).band
                    == band_at(i)
        }),
{
    let r = m.readings(mags);
    let all = m.output(mags).beats;
    let f = m.fluxes(mags);
    assert(f =~= Seq::new(4, |j: int| flux_of(m, mags, j)));
    assert forall|j: int| 0 <= j < 4 implies ((#[trigger] r[j]).beat matches Some(e) ==> e.band
        == band_at(j)) by {
        lemma_every_band_beats(
            m.bands[j],
            m.config,
            j,
            band_power(mags, m.bands[j].bins),
            f[j],
            sum_of(f),
            m.now(),
        );
    }
    lemma_every_band_beats(
        m.bands[i],
        m.config,
        i,
        band_power(mags, m.bands[i].bins),
        f[i],
        sum_of(f),
        m.now(),
    );
    if r[i].beat is Some {
        lemma_beat_is_listed(r, i);
        let k = all.index_of(r[i].beat->0);
        assert(all[k].band == band_at(i));
    }
    if exists|k: int| 0 <= k < all.len() && (#[trigger] all[k]).band == band_at(i) {
        let k = choose|k: int| 0 <= k < all.len() && (#[trigger] all[k]).band == band_at(i);
        let j = lemma_listed_beat(r, k);
        assert(r[j].beat is Some);
        assert(band_at(j) == band_at(i));
        assert(i == j);
    }
}

/// The flux of a band depends on nothing but the bins of the band.
pub proof fn lemma_flux_is_local(
    mags: Seq<Single>,
    other: Seq<Single>,
    prev: Seq<Single>,
    before: Seq<Single>,
    bins: (nat, nat),
)
    requires
        forall|k: int|
            bins.0 <= k < bins.1 ==> #[trigger] mags[k] == other[k] && prev[k] == before[k],
    ensures
        onset_flux(mags, prev, bins) == onset_flux(other, before, bins),
{
    lemma_rise_is_local(mags, other, prev, before, bins.0, band_end(bins.1));
}

proof fn lemma_rise_is_local(
    mags: Seq<Single>,
    other: Seq<Single>,
    prev: Seq<Single>,
    before: Seq<Single>,
    lo: nat,
    end: nat,
)
    requires
        forall|k: int| lo <= k < end ==> #[trigger] mags[k] == other[k] && prev[k] == before[k],
    ensures
        rise(mags, prev, lo, end) == rise(other, before, lo, end),
    decreases end,
{
    if end > lo {
        lemma_rise_is_local(mags, other, prev, before, lo, (end - 1) as nat);
        assert(mags[end - 1] == other[end - 1]);
    }
}

} // verus!
