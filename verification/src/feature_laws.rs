//! What the features of a window say of its frames and beats.
use vstd::arithmetic::power2::pow2;
use vstd::prelude::*;

use crate::accuracy::{lemma_mean_error, size, total};
use crate::bounds::is_capped;
use crate::core_types::{Band, BandBeatEvent, FrameModel};
use crate::engine::{
    intervals, is_near, median, near_count, recent_beats, recent_frames, sorted, times_of,
    WindowModel,
};
use crate::engine_laws::is_rising;
use crate::order::{lemma_share, lemma_whole_order, lemma_whole_product};
use crate::single::Single;

verus! {

/// The beats of a band.
pub open spec fn beats_of_band(beats: Seq<BandBeatEvent>, band: Band) -> Seq<BandBeatEvent> {
    beats.filter(|b: BandBeatEvent| b.band == band)
}

/// The times that are taken of a band are those of all its beats, in their order, and of no others.
pub proof fn lemma_band_times(beats: Seq<BandBeatEvent>, band: Band)
    ensures
        times_of(beats, band) == beats_of_band(beats, band).map_values(
            |b: BandBeatEvent| b.timestamp_ms,
        ),
        times_of(beats, band).len() <= beats.len(),
    decreases beats.len(),
{
    reveal(Seq::filter);
    if beats.len() > 0 {
        lemma_band_times(beats.drop_last(), band);
    }
    assert(times_of(beats, band) =~= beats_of_band(beats, band).map_values(
        |b: BandBeatEvent| b.timestamp_ms,
    ));
}

/// The densities count kicks in the low band, snares in the upper middle one and hats in the high
/// one, per second between the first and the last frame.
pub proof fn lemma_densities(w: WindowModel, ms: nat)
    requires
        w.frames.len() > 0,
        w.frames.last().timestamp_ms == w.frames[0].timestamp_ms + ms,
        0 < ms,
        w.beats.len() <= 16000,
    ensures
        ({
            let f = w.features();
            let per_second = |band: Band|
                Single::fraction(1000 * beats_of_band(w.beats, band).len(), ms);
            &&& f.kick_density == per_second(Band::Low)
            &&& f.snare_density == per_second(Band::HighMid)
            &&& f.hat_density == per_second(Band::High)
        }),
{
    assert forall|band: Band| #[trigger]
        w.density(band) == Single::fraction(1000 * beats_of_band(w.beats, band).len(), ms) by {
        lemma_band_times(w.beats, band);
        lemma_whole_product(times_of(w.beats, band).len(), 1000);
        assert(times_of(w.beats, band).len() * 1000 == 1000 * times_of(w.beats, band).len());
    }
}

/// Numbers that are all the same are in order.
proof fn lemma_sorted_same(n: nat, x: u64)
    ensures
        sorted(Seq::new(n, |i: int| x)) == Seq::new(n, |i: int| x),
        near_count(Seq::new(n, |i: int| x), x) == n,
    decreases n,
{
    let s = Seq::new(n, |i: int| x);
    if n > 0 {
        let m = (n - 1) as nat;
        lemma_sorted_same(m, x);
        assert(s.drop_last() =~= Seq::new(m, |i: int| x));
        assert(sorted(s) =~= s);
        assert(is_near(x, x));
    } else {
        assert(sorted(s) =~= s);
    }
}

/// Of intervals in rising order the median is the middle one, of an even number the later of the
/// two in the middle.
pub proof fn lemma_median_of_rising(s: Seq<u64>)
    requires
        s.len() > 0,
        is_rising(s),
    ensures
        s.len() % 2 == 1 ==> median(s) == s[(s.len() - 1) / 2],
        s.len() % 2 == 0 ==> median(s) == s[s.len() as int / 2],
{
    lemma_rising_stays(s);
}

proof fn lemma_rising_stays(s: Seq<u64>)
    requires
        is_rising(s),
    ensures
        sorted(s) == s,
    decreases s.len(),
{
    if s.len() > 0 {
        let r = s.drop_last();
        assert(is_rising(r));
        lemma_rising_stays(r);
        assert(r.push(s.last()) =~= s);
    } else {
        assert(sorted(s) =~= s);
    }
}

/// Kicks that follow each other at one interval have the tempo of that interval, and are regular in
/// full.
pub proof fn lemma_regular_kicks(w: WindowModel, gap: u64)
    requires
        gap > 0,
        beats_of_band(w.beats, Band::Low).len() >= 2,
        beats_of_band(w.beats, Band::Low).len() <= u64::MAX,
        forall|i: int|
            0 <= i < beats_of_band(w.beats, Band::Low).len() ==> (#[trigger] beats_of_band(
                w.beats,
                Band::Low,
            )[i]).timestamp_ms == beats_of_band(w.beats, Band::Low)[0].timestamp_ms + i * gap,
    ensures
        w.features().kick_ibi_bpm == Single::fraction(60000, gap as nat),
        w.features().kick_regularity == Single::of_whole(1),
{
    let kicks = beats_of_band(w.beats, Band::Low);
    let times = times_of(w.beats, Band::Low);
    let d = intervals(times);
    let n = d.len();
    lemma_band_times(w.beats, Band::Low);
    assert(times.len() == kicks.len());
    assert forall|i: int| 0 <= i < n implies d[i] == gap by {
        let (j, t0) = (i + 1, kicks[0].timestamp_ms);
        assert(times[i] == kicks[i].timestamp_ms && times[j] == kicks[j].timestamp_ms);
        assert(j * gap == i * gap + gap) by (nonlinear_arith) requires j == i + 1;
    }
    assert(d =~= Seq::new(n, |i: int| gap));
    lemma_sorted_same(n, gap);
    assert(median(d) == gap);
    lemma_whole_order(1, n);
    lemma_share(Single::of_whole(n), Single::of_whole(n));
}

/// Fewer than two kicks have no tempo and no regularity.
pub proof fn lemma_no_kicks(w: WindowModel)
    requires
        beats_of_band(w.beats, Band::Low).len() < 2,
    ensures
        w.features().kick_ibi_bpm == Single::of_whole(0),
        w.features().kick_regularity == Single::of_whole(0),
{
    lemma_band_times(w.beats, Band::Low);
}

/// Regular are the intervals from nine to eleven tenths of the median.
pub proof fn lemma_near(s: Seq<u64>, m: u64)
    ensures
        near_count(s, m) == s.filter(|x: u64| 9 * m <= 10 * x && 10 * x <= 11 * m).len(),
    decreases s.len(),
{
    reveal(Seq::filter);
    if s.len() > 0 {
        lemma_near(s.drop_last(), m);
    }
}

/// What is left of the beats begins at the first one that is not too old.
proof fn lemma_recent_beats(beats: Seq<BandBeatEvent>, cutoff: u64) -> (n: nat)
    ensures
        n <= beats.len(),
        recent_beats(beats, cutoff) == beats.skip(n as int),
        forall|i: int| 0 <= i < n ==> (#[trigger] beats[i]).timestamp_ms < cutoff,
        n < beats.len() ==> beats[n as int].timestamp_ms >= cutoff,
    decreases beats.len(),
{
    if beats.len() > 0 && beats[0].timestamp_ms < cutoff {
        let r = beats.skip(1);
        let m = lemma_recent_beats(r, cutoff);
        assert(r.skip(m as int) =~= beats.skip(m as int + 1));
        assert forall|i: int| 0 <= i < m + 1 implies (#[trigger] beats[i]).timestamp_ms
            < cutoff by {
            if i > 0 {
                assert(r[i - 1] == beats[i]);
            }
        }
        if m < r.len() {
            assert(r[m as int] == beats[m as int + 1]);
        }
        m + 1
    } else {
        assert(beats.skip(0) =~= beats);
        0
    }
}

/// What is left of the frames begins at the first one that is not too old.
proof fn lemma_recent_frames(frames: Seq<FrameModel>, cutoff: u64) -> (n: nat)
    ensures
        n <= frames.len(),
        recent_frames(frames, cutoff) == frames.skip(n as int),
        forall|i: int| 0 <= i < n ==> (#[trigger] frames[i]).timestamp_ms < cutoff,
        n < frames.len() ==> frames[n as int].timestamp_ms >= cutoff,
    decreases frames.len(),
{
    if frames.len() > 0 && frames[0].timestamp_ms < cutoff {
        let r = frames.skip(1);
        let m = lemma_recent_frames(r, cutoff);
        assert(r.skip(m as int) =~= frames.skip(m as int + 1));
        assert forall|i: int| 0 <= i < m + 1 implies (#[trigger] frames[i]).timestamp_ms
            < cutoff by {
            if i > 0 {
                assert(r[i - 1] == frames[i]);
            }
        }
        if m < r.len() {
            assert(r[m as int] == frames[m as int + 1]);
        }
        m + 1
    } else {
        assert(frames.skip(0) =~= frames);
        0
    }
}

/// A new frame drops, from the front, the beats and frames that are more than eight seconds older
/// than it, and nothing else.
pub proof fn lemma_window_drops(w: WindowModel, f: FrameModel) -> (dropped: (nat, nat))
    ensures
        ({
            let (a, b) = dropped;
            let (frames, beats) = (w.frames.push(f), w.beats);
            let now = f.timestamp_ms;
            &&& a <= frames.len() && w.with_frame(f).frames == frames.skip(a as int)
            &&& b <= beats.len() && w.with_frame(f).beats == beats.skip(b as int)
            &&& forall|i: int| 0 <= i < a ==> (#[trigger] frames[i]).timestamp_ms + 8000 < now
            &&& forall|i: int| 0 <= i < b ==> (#[trigger] beats[i]).timestamp_ms + 8000 < now
            &&& a < frames.len() ==> frames[a as int].timestamp_ms + 8000 >= now
            &&& b < beats.len() ==> beats[b as int].timestamp_ms + 8000 >= now
            &&& w.with_frame(f).tempo == w.tempo
        }),
{
    let cutoff = if f.timestamp_ms >= 8000 {
        (f.timestamp_ms - 8000) as u64
    } else {
        0
    };
    (lemma_recent_frames(w.frames.push(f), cutoff), lemma_recent_beats(w.beats, cutoff))
}

/// The energies of the bands and the intensity are means over the frames, each close to the exact
/// one where all values lie from 0 to 1.
pub proof fn lemma_mean_levels(w: WindowModel, i: int)
    requires
        0 <= i < 4,
        0 < w.frames.len() < 0x100_0000,
        forall|k: int|
            0 <= k < w.frames.len() ==> is_capped((#[trigger] w.frames[k]).band_energy[i], 149)
                && is_capped(w.frames[k].intensity, 149),
    ensures
        ({
            let (f, n) = (w.features(), w.frames.len());
            let energies = Seq::new(n, |k: int| w.frames[k].band_energy[i]);
            let intensities = Seq::new(n, |k: int| w.frames[k].intensity);
            &&& pow2(24) * size(f.band_energy[i].worth() * n - total(energies)) <= n * (n + 3)
                * pow2(149)
            &&& pow2(24) * size(f.intensity.worth() * n - total(intensities)) <= n * (n + 3)
                * pow2(149)
        }),
{
    let n = w.frames.len();
    let energies = Seq::new(n, |k: int| w.frames[k].band_energy[i]);
    let intensities = Seq::new(n, |k: int| w.frames[k].intensity);
    assert(w.frames.map_values(|f: FrameModel| f.band_energy[i]) =~= energies);
    assert(w.frames.map_values(|f: FrameModel| f.intensity) =~= intensities);
    lemma_mean_error(energies, 149);
    lemma_mean_error(intensities, 149);
}

/// The centroid is the mean over the frames, close to the exact one where all of them lie below
/// 2^15 Hz.
pub proof fn lemma_mean_centroid(w: WindowModel)
    requires
        0 < w.frames.len() < 0x100_0000,
        forall|k: int|
            0 <= k < w.frames.len() ==> is_capped((#[trigger] w.frames[k]).spectral_centroid, 164),
    ensures
        ({
            let n = w.frames.len();
            let centroids = Seq::new(n, |k: int| w.frames[k].spectral_centroid);
            pow2(24) * size(w.features().centroid.worth() * n - total(centroids)) <= n * (n + 3)
                * pow2(164)
        }),
{
    let n = w.frames.len();
    let centroids = Seq::new(n, |k: int| w.frames[k].spectral_centroid);
    assert(w.frames.map_values(|f: FrameModel| f.spectral_centroid) =~= centroids);
    lemma_mean_error(centroids, 164);
}

/// The tempo and its confidence are those of the last estimate; without one both are 0.
pub proof fn lemma_known_tempo(w: WindowModel)
    ensures
        w.tempo matches Some(t) ==> w.features().bpm == t.bpm && w.features().bpm_confidence
            == t.confidence,
        w.tempo is None ==> w.features().bpm == Single::of_whole(0) && w.features().bpm_confidence
            == Single::of_whole(0),
{
}

} // verus!
