//! What holds of the analysis of one hop.
use vstd::prelude::*;

use crate::analysis::{beats_of, AnalyzerConfig, AnalyzerModel, BandModel, BandReading};
use crate::core_types::Band;
use crate::double::Double;
use crate::single::Single;

verus! {

/// A band other than the low one does not beat where only the low band is wanted.
proof fn lemma_silent_bands(
    b: BandModel,
    config: AnalyzerConfig,
    i: int,
    power: Single,
    flux: Single,
    total: Single,
    now: Double,
)
    requires
        config.low_only,
    ensures
        b.reading(config, i, power, flux, total, now).beat matches Some(e) ==> e.band == Band::Low,
{
    assert(Band::ALL@[0] == Band::Low);
}

/// Beats are those of the readings.
proof fn lemma_beats_from(r: Seq<BandReading>, band: Band)
    requires
        forall|i: int|
            0 <= i < r.len() ==> ((#[trigger] r[i]).beat matches Some(e) ==> e.band == band),
    ensures
        forall|k: int| 0 <= k < beats_of(r).len() ==> (#[trigger] beats_of(r)[k]).band == band,
    decreases r.len(),
{
    if r.len() > 0 {
        let head = r.drop_last();
        assert forall|i: int| 0 <= i < head.len() implies ((#[trigger] head[i]).beat matches Some(e)
            ==> e.band == band) by {
            assert(head[i] == r[i]);
        }
        lemma_beats_from(head, band);
        assert(r[r.len() - 1] == r.last());
        let (before, all) = (beats_of(head), beats_of(r));
        assert forall|k: int| 0 <= k < all.len() implies (#[trigger] all[k]).band == band by {
            if k < before.len() {
                assert(all[k] == before[k]);
            }
        }
    }
}

/// Where only the low band is wanted, all beats are of the low band.
pub proof fn lemma_low_only(m: AnalyzerModel, mags: Seq<Single>, k: int)
    requires
        m.config.low_only,
        0 <= k < m.output(mags).beats.len(),
    ensures
        m.output(mags).beats[k].band == Band::Low,
{
    let r = m.readings(mags);
    let f = m.fluxes(mags);
    assert forall|i: int| 0 <= i < r.len() implies ((#[trigger] r[i]).beat matches Some(e) ==> e.band
        == Band::Low) by {
        lemma_silent_bands(
            m.bands[i],
            m.config,
            i,
            crate::analysis::band_power(mags, m.bands[i].bins),
            f[i],
            crate::sums::sum_of(f),
            m.now(),
        );
    }
    lemma_beats_from(r, Band::Low);
}

/// A beat is never closer to the last one of its band than the shortest interval: after a beat the
/// clock of the band stands at its time, without one it stands still, and the next beat waits for
/// the interval.
pub proof fn lemma_beats_keep_distance(
    b: BandModel,
    config: AnalyzerConfig,
    i: int,
    power: Single,
    flux: Single,
    total: Single,
    now: Double,
)
    ensures
        b.fires(config, i, flux, total, now) ==> Double::widen(config.min_interval_ms@[i]).le(
            now.minus(b.last_beat),
        ) && b.after(config, i, power, flux, total, now).last_beat == now,
        !b.fires(config, i, flux, total, now) ==> b.after(
            config,
            i,
            power,
            flux,
            total,
            now,
        ).last_beat == b.last_beat,
{
}

} // verus!
