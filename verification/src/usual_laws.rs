//! What happens where no settings are given.
use vstd::prelude::*;

use crate::config::AnalyzerSettings;
use crate::core_types::{Band, BandBeatEvent, ThresholdMode};
use crate::effects::{BandAssignment, EffectMode, EngineModel, SettingsModel};
use crate::flash_laws::lemma_cancelled;
use crate::order::lemma_zero_one;
use crate::route_laws::reacts;
use crate::single::Single;

verus! {

/// With the usual settings and a palette of four colours, each band flashes in a colour of its
/// own, in their order, and every light of the band flashes, whatever is drawn. Strong beats
/// strobe where the music is intense.
pub proof fn lemma_usual_show(m: EngineModel, beat: BandBeatEvent, draws: Seq<Single>, i: int)
    requires
        m.settings == SettingsModel::usual(),
        m.palette.colors.len() == 4,
        0 <= i < m.channels.len(),
    ensures
        ({
            let (c, colors) = (m.flash(beat).color, m.palette.colors);
            &&& beat.band == Band::Low ==> c == colors[0]
            &&& beat.band == Band::LowMid ==> c == colors[1]
            &&& beat.band == Band::HighMid ==> c == colors[2]
            &&& beat.band == Band::High ==> c == colors[3]
            &&& m.reacting(beat, draws)[i] == reacts(m.channels[i].bands, beat.band)
            &&& m.flash(beat).strobe == (Single::fraction(9, 10).lt(beat.strength)
                && Single::fraction(3, 4).lt(m.intensity))
        }),
{
    lemma_zero_one();
}

/// The usual lights stay at two twenty-fifths of their brightness at least, fade over 350 ms, take
/// 120 ms for a colour and 80 ms for a chase, and are grouped by their height.
pub proof fn lemma_usual_times()
    ensures
        ({
            let s = SettingsModel::usual();
            &&& s.brightness_min == Single::fraction(2, 25)
            &&& s.brightness_max == Single::of_whole(1)
            &&& s.fade_ms == Single::of_whole(350) && s.color_fade_ms == Single::of_whole(120)
            &&& s.chase_ms == Single::of_whole(80) && s.mode == EffectMode::Auto
            &&& s.assignment == BandAssignment::ByHeight
        }),
{
    lemma_cancelled(2, 25, 4);
}

/// Usually all bands beat by adaptive thresholds: the lowest at 11/5 deviations above the mean and
/// the others at 12/5, and none within 150, 100, 100 and 80 ms of its last beat.
pub proof fn lemma_usual_beats(s: AnalyzerSettings, i: int)
    requires
        s.is_usual(),
        0 <= i < 4,
    ensures
        !s.low_only,
        s.threshold_mode == ThresholdMode::Auto,
        s.sensitivity@[i] == Single::fraction(
            if i == 0 {
                11
            } else {
                12
            },
            5,
        ),
        s.min_interval_ms@[i] == Single::of_whole(
            if i == 0 {
                150
            } else if i == 3 {
                80
            } else {
                100
            },
        ),
        !Single::of_whole(0).lt(s.manual_threshold@[i]),
{
    lemma_cancelled(11, 5, 2);
    lemma_cancelled(12, 5, 2);
}

} // verus!
