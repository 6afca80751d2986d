//! What drives the pipeline: features for the genre, the conductor of analysis events, the light
//! loop and the steps of a connection.
use std::collections::VecDeque;

use vstd::prelude::*;
use vstd::string::*;

use crate::core_types::{
    genre_with, same_text, AnalysisFrame, Band, BandBeatEvent, FrameModel, Genre, Palette,
    PaletteModel, TempoEstimate,
};
use crate::effects::ChannelInfo;
use crate::genre::{ClassifierModel, GenreClassifier, RuleBasedClassifier};
use crate::genre_rules::Features;
use crate::hue_client::{EntertainmentConfig, EntertainmentModel};
use crate::palette::{PaletteStore, StoreModel};
use crate::single::Single;
use crate::sums::sum_of;

verus! {

/// The length of the window that features are taken over, in ms.
pub const FEATURE_WINDOW_MS: u64 = 8000;

/// Frames that a window must hold before features are taken.
pub const MIN_FRAMES: usize = 50;

/// What a feature window holds.
pub struct WindowModel {
    pub frames: Seq<FrameModel>,
    pub beats: Seq<BandBeatEvent>,
    pub tempo: Option<TempoEstimate>,
}

/// The frames without those at the front that are older than a time.
pub open spec fn recent_frames(frames: Seq<FrameModel>, cutoff: u64) -> Seq<FrameModel>
    decreases frames.len(),
{
    if frames.len() > 0 && frames[0].timestamp_ms < cutoff {
        recent_frames(frames.skip(1), cutoff)
    } else {
        frames
    }
}

/// The beats without those at the front that are older than a time.
pub open spec fn recent_beats(beats: Seq<BandBeatEvent>, cutoff: u64) -> Seq<BandBeatEvent>
    decreases beats.len(),
{
    if beats.len() > 0 && beats[0].timestamp_ms < cutoff {
        recent_beats(beats.skip(1), cutoff)
    } else {
        beats
    }
}

/// The times of the beats of a band.
pub open spec fn times_of(beats: Seq<BandBeatEvent>, band: Band) -> Seq<u64>
    decreases beats.len(),
{
    if beats.len() == 0 {
        Seq::empty()
    } else {
        let before = times_of(beats.drop_last(), band);
        if beats.last().band == band {
            before.push(beats.last().timestamp_ms)
        } else {
            before
        }
    }
}

/// The times between neighbours.
pub open spec fn intervals(times: Seq<u64>) -> Seq<u64> {
    Seq::new(
        if times.len() > 0 { (times.len() - 1) as nat } else { 0 },
        |i: int|
            if times[i + 1] >= times[i] {
                (times[i + 1] - times[i]) as u64
            } else {
                0
            },
    )
}

/// A number placed into a rising sequence.
pub open spec fn sorted_in(s: Seq<u64>, x: u64) -> Seq<u64>
    decreases s.len(),
{
    if s.len() == 0 {
        seq![x]
    } else if x < s.last() {
        sorted_in(s.drop_last(), x).push(s.last())
    } else {
        s.push(x)
    }
}

/// The numbers in rising order.
pub open spec fn sorted(s: Seq<u64>) -> Seq<u64>
    decreases s.len(),
{
    if s.len() == 0 {
        Seq::empty()
    } else {
        sorted_in(sorted(s.drop_last()), s.last())
    }
}

/// The median: the middle one in rising order, of two the larger.
pub open spec fn median(s: Seq<u64>) -> u64 {
    sorted(s)[(s.len() / 2) as int]
}

/// An interval is within a tenth of another.
pub open spec fn is_near(x: u64, m: u64) -> bool {
    (if x >= m { x - m } else { m - x }) * 10 <= m
}

/// How many intervals are within a tenth of `m`.
pub open spec fn near_count(s: Seq<u64>, m: u64) -> nat
    decreases s.len(),
{
    if s.len() == 0 {
        0
    } else {
        near_count(s.drop_last(), m) + if is_near(s.last(), m) { 1nat } else { 0 }
    }
}

/// The tempo of the median time between kicks; 0 where it is not known.
pub open spec fn kick_tempo(beats: Seq<BandBeatEvent>) -> Single {
    let d = intervals(times_of(beats, Band::Low));
    if d.len() > 0 && median(d) > 0 {
        Single::of_whole(60000).over(Single::of_whole(median(d) as nat))
    } else {
        Single::of_whole(0)
    }
}

/// The share of the times between kicks that are within a tenth of the median; 0 where it is not
/// known.
pub open spec fn kick_steadiness(beats: Seq<BandBeatEvent>) -> Single {
    let d = intervals(times_of(beats, Band::Low));
    if d.len() > 0 && median(d) > 0 {
        Single::of_whole(near_count(d, median(d))).over(Single::of_whole(d.len()))
    } else {
        Single::of_whole(0)
    }
}

impl WindowModel {
    /// The window with a frame more: what is older than the length of the window goes.
    pub open spec fn with_frame(self, f: FrameModel) -> WindowModel {
        let cutoff = if f.timestamp_ms >= FEATURE_WINDOW_MS {
            (f.timestamp_ms - FEATURE_WINDOW_MS) as u64
        } else {
            0
        };
        WindowModel {
            frames: recent_frames(self.frames.push(f), cutoff),
            beats: recent_beats(self.beats, cutoff),
            ..self
        }
    }

    /// The last frame is not older than the first, where features are taken.
    pub open spec fn is_forward(self) -> bool {
        self.frames.len() >= MIN_FRAMES ==> self.frames[0].timestamp_ms
            <= self.frames.last().timestamp_ms
    }

    /// The milliseconds from the first frame to the last, 1 at least.
    pub open spec fn span(self) -> nat {
        let d = self.frames.last().timestamp_ms - self.frames[0].timestamp_ms;
        if d > 1 {
            d as nat
        } else {
            1
        }
    }

    /// Beats of a band per second.
    pub open spec fn density(self, band: Band) -> Single {
        Single::of_whole(times_of(self.beats, band).len()).times(Single::of_whole(1000)).over(
            Single::of_whole(self.span()),
        )
    }

    /// The mean energy of a band.
    pub open spec fn mean_energy(self, i: int) -> Single {
        sum_of(self.frames.map_values(|f: FrameModel| f.band_energy[i])).over(
            Single::of_whole(self.frames.len()),
        )
    }

    pub open spec fn mean_centroid(self) -> Single {
        sum_of(self.frames.map_values(|f: FrameModel| f.spectral_centroid)).over(
            Single::of_whole(self.frames.len()),
        )
    }

    pub open spec fn mean_intensity(self) -> Single {
        sum_of(self.frames.map_values(|f: FrameModel| f.intensity)).over(
            Single::of_whole(self.frames.len()),
        )
    }

    /// The features of the window.
    pub open spec fn features(self) -> Features {
        Features {
            bpm: match self.tempo {
                Some(t) => t.bpm,
                None => Single::of_whole(0),
            },
            bpm_confidence: match self.tempo {
                Some(t) => t.confidence,
                None => Single::of_whole(0),
            },
            band_energy: [
                self.mean_energy(0),
                self.mean_energy(1),
                self.mean_energy(2),
                self.mean_energy(3),
            ],
            kick_density: self.density(Band::Low),
            snare_density: self.density(Band::HighMid),
            hat_density: self.density(Band::High),
            kick_ibi_bpm: kick_tempo(self.beats),
            kick_regularity: kick_steadiness(self.beats),
            centroid: self.mean_centroid(),
            intensity: self.mean_intensity(),
        }
    }
}

/// A rolling window that features are taken over.
pub struct FeatureAggregator {
    frames: VecDeque<AnalysisFrame>,
    beats: VecDeque<BandBeatEvent>,
    last_tempo: Option<TempoEstimate>,
}

impl View for FeatureAggregator {
    type V = WindowModel;

    closed spec fn view(&self) -> WindowModel {
        WindowModel {
            frames: self.frames@.map_values(|f: AnalysisFrame| f@),
            beats: self.beats@,
            tempo: self.last_tempo,
        }
    }
}

/// The sums over frames, step by step.
proof fn lemma_frame_sums(frames: Seq<FrameModel>, i: int)
    requires
        0 <= i < frames.len(),
    ensures
        forall|b: int| #[trigger]
            energy_sum(frames.take(i + 1), b) == energy_sum(frames.take(i), b).plus(
                frames[i].band_energy[b],
            ),
        sum_of(frames.take(i + 1).map_values(|f: FrameModel| f.spectral_centroid)) == sum_of(
            frames.take(i).map_values(|f: FrameModel| f.spectral_centroid),
        ).plus(frames[i].spectral_centroid),
        sum_of(frames.take(i + 1).map_values(|f: FrameModel| f.intensity)) == sum_of(
            frames.take(i).map_values(|f: FrameModel| f.intensity),
        ).plus(frames[i].intensity),
{
    let (a, b) = (frames.take(i), frames.take(i + 1));
    assert forall|k: int| #[trigger]
        energy_sum(b, k) == energy_sum(a, k).plus(frames[i].band_energy[k]) by {
        assert(b.map_values(|f: FrameModel| f.band_energy[k]).drop_last() =~= a.map_values(
            |f: FrameModel| f.band_energy[k],
        ));
    }
    assert(b.map_values(|f: FrameModel| f.spectral_centroid).drop_last() =~= a.map_values(
        |f: FrameModel| f.spectral_centroid,
    ));
    assert(b.map_values(|f: FrameModel| f.intensity).drop_last() =~= a.map_values(
        |f: FrameModel| f.intensity,
    ));
}

spec fn energy_sum(frames: Seq<FrameModel>, i: int) -> Single {
    sum_of(frames.map_values(|f: FrameModel| f.band_energy[i]))
}

fn place_sorted(s: &mut Vec<u64>, x: u64)
    ensures
        final(s)@ == sorted_in(old(s)@, x),
{
    let ghost before = s@;
    let mut k: usize = s.len();
    proof {
        assert(before.take(k as int) =~= before);
        assert(sorted_in(before, x) =~= sorted_in(before.take(k as int), x) + before.skip(k as int));
    }
    while k > 0 && x < s[k - 1]
        invariant
            k <= before.len(),
            s@ == before,
            sorted_in(before, x) == sorted_in(before.take(k as int), x) + before.skip(k as int),
        decreases k,
    {
        proof {
            let head = before.take(k as int);
            assert(head.last() == before[k - 1]);
            assert(head.drop_last() =~= before.take(k - 1));
            assert(seq![before[k - 1]] + before.skip(k as int) =~= before.skip(k - 1));
            let p = sorted_in(before.take(k - 1), x);
            assert(p.push(before[k - 1]) + before.skip(k as int) =~= p + before.skip(k - 1));
        }
        k = k - 1;
    }
    s.insert(k, x);
    proof {
        let head = before.take(k as int);
        if k > 0 {
            assert(head.last() == before[k - 1]);
        }
        assert(sorted_in(head, x) =~= head.push(x));
        assert(s@ =~= head.push(x) + before.skip(k as int));
    }
}

/// Sorting keeps the length.
proof fn lemma_sorted_len(s: Seq<u64>)
    ensures
        sorted(s).len() == s.len(),
    decreases s.len(),
{
    if s.len() > 0 {
        lemma_sorted_len(s.drop_last());
        lemma_sorted_in_len(sorted(s.drop_last()), s.last());
    }
}

proof fn lemma_sorted_in_len(s: Seq<u64>, x: u64)
    ensures
        sorted_in(s, x).len() == s.len() + 1,
    decreases s.len(),
{
    if s.len() > 0 && x < s.last() {
        lemma_sorted_in_len(s.drop_last(), x);
    }
}

/// The tempo of the kicks and how steady they are.
fn kick_grid(d: &Vec<u64>) -> (r: (Single, Single))
    ensures
        r.0 == (if d@.len() > 0 && median(d@) > 0 {
            Single::of_whole(60000).over(Single::of_whole(median(d@) as nat))
        } else {
            Single::of_whole(0)
        }),
        r.1 == (if d@.len() > 0 && median(d@) > 0 {
            Single::of_whole(near_count(d@, median(d@))).over(Single::of_whole(d@.len()))
        } else {
            Single::of_whole(0)
        }),
{
    let zero = Single::from_whole(0);
    let n: usize = d.len();
    if n == 0 {
        return (zero, zero);
    }
    let mut s: Vec<u64> = Vec::new();
    let mut i: usize = 0;
    assert(d@.take(0) =~= Seq::<u64>::empty());
    while i < n
        invariant
            i <= n == d@.len(),
            s@ == sorted(d@.take(i as int)),
        decreases n - i,
    {
        proof {
            assert(d@.take(i + 1).drop_last() =~= d@.take(i as int));
        }
        place_sorted(&mut s, d[i]);
        i = i + 1;
    }
    proof {
        assert(d@.take(i as int) =~= d@);
        lemma_sorted_len(d@);
    }
    let m: u64 = s[n / 2];
    if m == 0 {
        return (zero, zero);
    }
    let mut near: u64 = 0;
    let mut k: usize = 0;
    while k < n
        invariant
            k <= n == d@.len(),
            near <= k,
            near == near_count(d@.take(k as int), m),
        decreases n - k,
    {
        proof {
            assert(d@.take(k + 1).drop_last() =~= d@.take(k as int));
        }
        let x: u64 = d[k];
        let off: u64 = if x >= m { x - m } else { m - x };
        if off as u128 * 10 <= m as u128 {
            near = near + 1;
        }
        k = k + 1;
    }
    assert(d@.take(k as int) =~= d@);
    (
        Single::from_whole(60000).over(Single::from_whole(m)),
        Single::from_whole(near).over(Single::from_whole(n as u64)),
    )
}

impl FeatureAggregator {
    pub fn new() -> (a: FeatureAggregator)
        ensures
            a@ == (WindowModel { frames: Seq::empty(), beats: Seq::empty(), tempo: None }),
    {
        let a = FeatureAggregator {
            frames: VecDeque::new(),
            beats: VecDeque::new(),
            last_tempo: None,
        };
        assert(a@.frames =~= Seq::<FrameModel>::empty());
        a
    }

    /// Takes in a beat.
    pub fn push_beat(&mut self, beat: BandBeatEvent)
        ensures
            final(self)@ == (WindowModel { beats: old(self)@.beats.push(beat), ..old(self)@ }),
    {
        self.beats.push_back(beat);
    }

    /// Takes in a tempo estimate.
    pub fn set_tempo(&mut self, tempo: TempoEstimate)
        ensures
            final(self)@ == (WindowModel { tempo: Some(tempo), ..old(self)@ }),
    {
        self.last_tempo = Some(tempo);
    }

    /// Takes in a frame, and lets go of what is too old.
    pub fn push_frame(&mut self, f: AnalysisFrame)
        ensures
            final(self)@ == old(self)@.with_frame(f@),
    {
        let ghost before = self@;
        let ghost added = before.frames.push(f@);
        let cutoff: u64 = if f.timestamp_ms >= FEATURE_WINDOW_MS {
            f.timestamp_ms - FEATURE_WINDOW_MS
        } else {
            0
        };
        self.frames.push_back(f);
        proof {
            assert(self@.frames =~= added);
        }
        while self.frames.len() > 0 && self.frames[0].timestamp_ms < cutoff
            invariant
                self@.beats == before.beats,
                self@.tempo == before.tempo,
                recent_frames(self@.frames, cutoff) == recent_frames(added, cutoff),
            decreases self.frames@.len(),
        {
            let ghost prior = self@.frames;
            self.frames.pop_front();
            assert(self@.frames =~= prior.skip(1));
        }
        while self.beats.len() > 0 && self.beats[0].timestamp_ms < cutoff
            invariant
                self@.frames == recent_frames(added, cutoff),
                self@.tempo == before.tempo,
                recent_beats(self@.beats, cutoff) == recent_beats(before.beats, cutoff),
            decreases self.beats@.len(),
        {
            let ghost prior = self@.beats;
            self.beats.pop_front();
            assert(self@.beats =~= prior.skip(1));
        }
    }

    /// The times of the beats of a band.
    fn times(&self, band: Band) -> (t: Vec<u64>)
        ensures
            t@ == times_of(self@.beats, band),
    {
        let mut t: Vec<u64> = Vec::new();
        let mut i: usize = 0;
        assert(self.beats@.take(0) =~= Seq::<BandBeatEvent>::empty());
        while i < self.beats.len()
            invariant
                i <= self.beats@.len(),
                t@ == times_of(self.beats@.take(i as int), band),
            decreases self.beats@.len() - i,
        {
            proof {
                assert(self.beats@.take(i + 1).drop_last() =~= self.beats@.take(i as int));
            }
            let b = self.beats[i];
            if b.band == band {
                t.push(b.timestamp_ms);
            }
            i = i + 1;
        }
        assert(self.beats@.take(i as int) =~= self.beats@);
        t
    }

    /// Beats per second.
    fn per_second(count: usize, span: u64) -> (r: Single)
        ensures
            r == Single::of_whole(count as nat).times(Single::of_whole(1000)).over(
                Single::of_whole(span as nat),
            ),
    {
        Single::from_whole(count as u64).times(Single::from_whole(1000)).over(
            Single::from_whole(span),
        )
    }

    /// The features of the window, once it holds enough frames.
    pub fn features(&self) -> (r: Option<Features>)
        requires
            self@.is_forward(),
        ensures
            r is Some == (self@.frames.len() >= MIN_FRAMES),
            r matches Some(f) ==> f == self@.features(),
    {
        let count: usize = self.frames.len();
        if count < MIN_FRAMES {
            return None;
        }
        let n = Single::from_whole(count as u64);
        let zero = Single::from_whole(0);
        let ghost frames = self@.frames;
        let mut e0 = zero;
        let mut e1 = zero;
        let mut e2 = zero;
        let mut e3 = zero;
        let mut centroid = zero;
        let mut intensity = zero;
        let mut i: usize = 0;
        proof {
            assert(frames.take(0).map_values(|f: FrameModel| f.spectral_centroid) =~= Seq::<Single>::empty());
            assert(frames.take(0).map_values(|f: FrameModel| f.intensity) =~= Seq::<Single>::empty());
            assert forall|b: int| #[trigger] energy_sum(frames.take(0), b) == Single::of_whole(0) by {
                assert(frames.take(0).map_values(|f: FrameModel| f.band_energy[b]) =~= Seq::<Single>::empty());
            }
        }
        while i < count
            invariant
                i <= count == self.frames@.len(),
                frames == self@.frames,
                e0 == energy_sum(frames.take(i as int), 0),
                e1 == energy_sum(frames.take(i as int), 1),
                e2 == energy_sum(frames.take(i as int), 2),
                e3 == energy_sum(frames.take(i as int), 3),
                centroid == sum_of(
                    frames.take(i as int).map_values(|f: FrameModel| f.spectral_centroid),
                ),
                intensity == sum_of(frames.take(i as int).map_values(|f: FrameModel| f.intensity)),
            decreases count - i,
        {
            let f: &AnalysisFrame = &self.frames[i];
            proof {
                lemma_frame_sums(frames, i as int);
                assert(frames[i as int] == f@);
                assert(energy_sum(frames.take(i + 1), 0) == e0.plus(f@.band_energy[0]));
                assert(energy_sum(frames.take(i + 1), 1) == e1.plus(f@.band_energy[1]));
                assert(energy_sum(frames.take(i + 1), 2) == e2.plus(f@.band_energy[2]));
                assert(energy_sum(frames.take(i + 1), 3) == e3.plus(f@.band_energy[3]));
            }
            e0 = e0.plus(f.band_energy[0]);
            e1 = e1.plus(f.band_energy[1]);
            e2 = e2.plus(f.band_energy[2]);
            e3 = e3.plus(f.band_energy[3]);
            centroid = centroid.plus(f.spectral_centroid);
            intensity = intensity.plus(f.intensity);
            i = i + 1;
        }
        assert(frames.take(i as int) =~= frames);
        let first: u64 = self.frames[0].timestamp_ms;
        let last: u64 = self.frames[count - 1].timestamp_ms;
        proof {
            assert(frames[0].timestamp_ms == first);
            assert(frames[count - 1].timestamp_ms == last);
        }
        let span: u64 = if last - first > 1 { last - first } else { 1 };
        assert(span == self@.span());
        let kicks = self.times(Band::Low);
        let snares = self.times(Band::HighMid);
        let hats = self.times(Band::High);
        let gaps = find_intervals(&kicks);
        let (kick_ibi_bpm, kick_regularity) = kick_grid(&gaps);
        let (bpm, bpm_confidence) = match self.last_tempo {
            Some(t) => (t.bpm, t.confidence),
            None => (zero, zero),
        };
        let f = Features {
            bpm,
            bpm_confidence,
            band_energy: [e0.over(n), e1.over(n), e2.over(n), e3.over(n)],
            kick_density: FeatureAggregator::per_second(kicks.len(), span),
            snare_density: FeatureAggregator::per_second(snares.len(), span),
            hat_density: FeatureAggregator::per_second(hats.len(), span),
            kick_ibi_bpm,
            kick_regularity,
            centroid: centroid.over(n),
            intensity: intensity.over(n),
        };
        Some(f)
    }
}

fn find_intervals(times: &Vec<u64>) -> (d: Vec<u64>)
    ensures
        d@ == intervals(times@),
{
    let mut d: Vec<u64> = Vec::new();
    let mut i: usize = 1;
    while i < times.len()
        invariant
            1 <= i,
            times@.len() > 0 ==> i <= times@.len(),
            times@.len() == 0 ==> i == 1,
            d@.len() == i - 1,
            forall|k: int| 0 <= k < i - 1 ==> #[trigger] d@[k] == intervals(times@)[k],
        decreases times@.len() - i,
    {
        let (a, b) = (times[i - 1], times[i]);
        let x: u64 = if b >= a { b - a } else { 0 };
        d.push(x);
        i = i + 1;
    }
    assert(d@ =~= intervals(times@));
    d
}

/// The genre with an identifier.
pub fn genre_from_id(id: &str) -> (r: Option<Genre>)
    ensures
        r == genre_with(id@),
{
    Genre::from_id(id)
}

/// The lights of an area, or lights that only the preview shows.
pub struct ChannelPlan {
    pub channels: Vec<ChannelInfo>,
    /// The lights are those of an area, so a stream can be opened to them.
    pub stream: bool,
}

/// The configuration with an identifier, the first where there are several.
pub open spec fn config_with(configs: Seq<EntertainmentModel>, id: Seq<char>) -> Option<
    EntertainmentModel,
>
    decreases configs.len(),
{
    if configs.len() == 0 {
        None
    } else if configs[0].id == id {
        Some(configs[0])
    } else {
        config_with(configs.skip(1), id)
    }
}

/// A light in the middle of the room.
pub open spec fn centered_channel(id: u8) -> ChannelInfo {
    let zero = Single::of_whole(0);
    ChannelInfo { id, x: zero, y: zero, z: zero }
}

/// The lights of a configuration; one where it has none.
pub open spec fn lights_of(c: EntertainmentModel) -> Seq<ChannelInfo> {
    if c.channels.len() == 0 {
        seq![centered_channel(0)]
    } else {
        Seq::new(
            c.channels.len(),
            |i: int|
                ChannelInfo {
                    id: c.channels[i].channel_id,
                    x: c.channels[i].x.to_single(),
                    y: c.channels[i].y.to_single(),
                    z: c.channels[i].z.to_single(),
                },
        )
    }
}

/// Four lights for the preview.
pub open spec fn virtual_lights() -> Seq<ChannelInfo> {
    seq![
        centered_channel(0),
        centered_channel(1),
        centered_channel(2),
        centered_channel(3),
    ]
}

fn make_centered(id: u8) -> (c: ChannelInfo)
    ensures
        c == centered_channel(id),
{
    let zero = Single::from_whole(0);
    ChannelInfo { id, x: zero, y: zero, z: zero }
}

pub fn find_config<'a>(configs: &'a Vec<EntertainmentConfig>, id: &str) -> (r: Option<&'a EntertainmentConfig>)
    ensures
        r is Some == config_with(configs@.map_values(|c: EntertainmentConfig| c@), id@) is Some,
        r matches Some(c) ==> Some(c@) == config_with(
            configs@.map_values(|c: EntertainmentConfig| c@),
            id@,
        ),
{
    let ghost model = configs@.map_values(|c: EntertainmentConfig| c@);
    let mut i: usize = 0;
    assert(model.skip(0) =~= model);
    while i < configs.len()
        invariant
            i <= configs@.len(),
            model == configs@.map_values(|c: EntertainmentConfig| c@),
            config_with(model, id@) == config_with(model.skip(i as int), id@),
        decreases configs@.len() - i,
    {
        assert(model.skip(i as int)[0] == configs@[i as int]@);
        if same_text(configs[i].id.as_str(), id) {
            return Some(&configs[i]);
        }
        assert(model.skip(i as int).skip(1) =~= model.skip(i + 1));
        i = i + 1;
    }
    None
}

/// The lights to drive: those of the wanted configuration, or four for the preview where there is
/// no such configuration.
pub fn plan_channels(configs: &Vec<EntertainmentConfig>, wanted: &str) -> (p: ChannelPlan)
    ensures
        p.stream == config_with(configs@.map_values(|c: EntertainmentConfig| c@), wanted@) is Some,
        p.channels@ == (match config_with(
            configs@.map_values(|c: EntertainmentConfig| c@),
            wanted@,
        ) {
            Some(c) => lights_of(c),
            None => virtual_lights(),
        }),
{
    match find_config(configs, wanted) {
        Some(c) => {
            let mut channels: Vec<ChannelInfo> = Vec::new();
            if c.channels.len() == 0 {
                channels.push(make_centered(0));
                assert(channels@ =~= lights_of(c@));
                return ChannelPlan { channels, stream: true };
            }
            let mut i: usize = 0;
            while i < c.channels.len()
                invariant
                    i <= c.channels@.len(),
                    c.channels@.len() > 0,
                    channels@.len() == i,
                    forall|k: int| 0 <= k < i ==> #[trigger] channels@[k] == lights_of(c@)[k],
                decreases c.channels@.len() - i,
            {
                let ch = c.channels[i];
                channels.push(
                    ChannelInfo {
                        id: ch.channel_id,
                        x: ch.x.to_single(),
                        y: ch.y.to_single(),
                        z: ch.z.to_single(),
                    },
                );
                i = i + 1;
            }
            assert(channels@ =~= lights_of(c@));
            ChannelPlan { channels, stream: true }
        },
        None => {
            let channels = vec![
                make_centered(0),
                make_centered(1),
                make_centered(2),
                make_centered(3),
            ];
            assert(channels@ =~= virtual_lights());
            ChannelPlan { channels, stream: false }
        },
    }
}

/// The identifiers of the channels of a configuration; 0 alone where there is no such
/// configuration.
pub open spec fn channel_ids(configs: Seq<EntertainmentModel>, wanted: Seq<char>) -> Seq<u8> {
    match config_with(configs, wanted) {
        Some(c) => Seq::new(c.channels.len(), |i: int| c.channels[i].channel_id),
        None => seq![0],
    }
}

/// The channels that a test pattern goes to.
pub fn pattern_channels(configs: &Vec<EntertainmentConfig>, wanted: &str) -> (ids: Vec<u8>)
    ensures
        ids@ == channel_ids(configs@.map_values(|c: EntertainmentConfig| c@), wanted@),
{
    match find_config(configs, wanted) {
        Some(c) => {
            let mut ids: Vec<u8> = Vec::new();
            let mut i: usize = 0;
            while i < c.channels.len()
                invariant
                    i <= c.channels@.len(),
                    ids@.len() == i,
                    forall|k: int| 0 <= k < i ==> #[trigger] ids@[k] == c@.channels[k].channel_id,
                decreases c.channels@.len() - i,
            {
                ids.push(c.channels[i].channel_id);
                i = i + 1;
            }
            assert(ids@ =~= channel_ids(
                configs@.map_values(|c: EntertainmentConfig| c@),
                wanted@,
            ));
            ids
        },
        None => vec![0],
    }
}

/// What a conductor remembers.
pub struct ConductorModel {
    pub window: WindowModel,
    pub classifier: ClassifierModel,
    pub frames: nat,
    /// The genre follows the music.
    pub auto_genre: bool,
    pub genre: Genre,
    pub palette: PaletteModel,
    pub bpm: Single,
}

/// What is to be done after a frame.
pub struct FrameOutcome {
    /// The frame goes to the display.
    pub show: bool,
    /// The intensity goes out as an OSC message.
    pub send_intensity: bool,
    /// The time since the last genre update starts anew.
    pub restart_timer: bool,
    /// The genre has changed; lights, display and OSC get its palette.
    pub change: Option<(Genre, Palette)>,
}

/// What is to be done, with the palette as its model.
pub struct OutcomeModel {
    pub show: bool,
    pub send_intensity: bool,
    pub restart_timer: bool,
    pub change: Option<(Genre, PaletteModel)>,
}

impl View for FrameOutcome {
    type V = OutcomeModel;

    open spec fn view(&self) -> OutcomeModel {
        OutcomeModel {
            show: self.show,
            send_intensity: self.send_intensity,
            restart_timer: self.restart_timer,
            change: match self.change {
                Some((g, p)) => Some((g, p@)),
                None => None,
            },
        }
    }
}

/// Milliseconds that pass between two genre updates at least.
pub const GENRE_UPDATE_MS: u64 = 1000;

impl ConductorModel {
    /// A genre update is due: the genre follows the music, and more than a second has passed.
    pub open spec fn is_due(self, elapsed_ms: u64) -> bool {
        self.auto_genre && elapsed_ms > GENRE_UPDATE_MS
    }

    /// The classifier after a frame, and the genre that it changes to: it is asked where an
    /// update is due and there are features.
    pub open spec fn classified(self, w: WindowModel, elapsed_ms: u64) -> (
        ClassifierModel,
        Option<Genre>,
    ) {
        if self.is_due(elapsed_ms) && w.frames.len() >= MIN_FRAMES {
            self.classifier.updated(w.features())
        } else {
            (self.classifier, None)
        }
    }

    /// The conductor after a frame.
    pub open spec fn after_frame(
        self,
        f: FrameModel,
        elapsed_ms: u64,
        store: StoreModel,
    ) -> ConductorModel {
        let w = self.window.with_frame(f);
        let (classifier, change) = self.classified(w, elapsed_ms);
        ConductorModel {
            window: w,
            classifier,
            frames: self.frames + 1,
            genre: match change {
                Some(g) => g,
                None => self.genre,
            },
            palette: match change {
                Some(g) => store.palette_for(g),
                None => self.palette,
            },
            ..self
        }
    }

    /// What is to be done after a frame: every third goes to the display, and every 24th sends the
    /// intensity.
    pub open spec fn outcome(
        self,
        f: FrameModel,
        elapsed_ms: u64,
        store: StoreModel,
    ) -> OutcomeModel {
        OutcomeModel {
            show: (self.frames + 1) % 3 == 0,
            send_intensity: (self.frames + 1) % 24 == 0,
            restart_timer: self.is_due(elapsed_ms),
            change: match self.classified(self.window.with_frame(f), elapsed_ms).1 {
                Some(g) => Some((g, store.palette_for(g))),
                None => None,
            },
        }
    }
}

/// Follows the events of an analysis: the tempo, the genre and its palette.
pub struct Conductor {
    aggregator: FeatureAggregator,
    classifier: RuleBasedClassifier,
    frame_counter: u64,
    auto_genre: bool,
    current_genre: Genre,
    current_palette: Palette,
    last_bpm: Single,
}

impl View for Conductor {
    type V = ConductorModel;

    closed spec fn view(&self) -> ConductorModel {
        ConductorModel {
            window: self.aggregator@,
            classifier: self.classifier@,
            frames: self.frame_counter as nat,
            auto_genre: self.auto_genre,
            genre: self.current_genre,
            palette: self.current_palette@,
            bpm: self.last_bpm,
        }
    }
}

/// The genre that an override forces.
pub open spec fn forced_genre(palette_override: Option<&str>) -> Option<Genre> {
    match palette_override {
        Some(id) => genre_with(id@),
        None => None,
    }
}

impl ConductorModel {
    /// The conductor under another override: the genre and the palette that it names are pinned;
    /// without one, or with a name that no genre has, the genre follows the music from here on.
    pub open spec fn overridden(
        self,
        palette_override: Option<&str>,
        store: StoreModel,
    ) -> ConductorModel {
        match forced_genre(palette_override) {
            Some(g) => ConductorModel {
                auto_genre: false,
                genre: g,
                palette: store.palette_for(g),
                ..self
            },
            None => ConductorModel { auto_genre: true, ..self },
        }
    }
}

impl Conductor {
    /// A conductor whose genre is the one that the override names, or else follows the music.
    pub fn new(palette_override: Option<&str>, palettes: &PaletteStore) -> (c: Conductor)
        ensures
            c@ == (ConductorModel {
                window: WindowModel { frames: Seq::empty(), beats: Seq::empty(), tempo: None },
                classifier: ClassifierModel::initial(),
                frames: 0,
                auto_genre: forced_genre(palette_override) is None,
                genre: match forced_genre(palette_override) {
                    Some(g) => g,
                    None => Genre::Unknown,
                },
                palette: palettes@.palette_for(
                    match forced_genre(palette_override) {
                        Some(g) => g,
                        None => Genre::Unknown,
                    },
                ),
                bpm: Single::of_whole(0),
            }),
    {
        let forced: Option<Genre> = match palette_override {
            Some(id) => genre_from_id(id),
            None => None,
        };
        let (genre, auto_genre) = match forced {
            Some(g) => (g, false),
            None => (Genre::Unknown, true),
        };
        Conductor {
            aggregator: FeatureAggregator::new(),
            classifier: RuleBasedClassifier::default(),
            frame_counter: 0,
            auto_genre,
            current_genre: genre,
            current_palette: palettes.palette_for(genre),
            last_bpm: Single::from_whole(0),
        }
    }

    /// Takes in a beat.
    pub fn on_beat(&mut self, beat: &BandBeatEvent)
        ensures
            final(self)@ == (ConductorModel {
                window: WindowModel {
                    beats: old(self)@.window.beats.push(*beat),
                    ..old(self)@.window
                },
                ..old(self)@
            }),
    {
        self.aggregator.push_beat(*beat);
    }

    /// Takes in a tempo estimate.
    pub fn on_tempo(&mut self, tempo: &TempoEstimate)
        ensures
            final(self)@ == (ConductorModel {
                window: WindowModel { tempo: Some(*tempo), ..old(self)@.window },
                bpm: tempo.bpm,
                ..old(self)@
            }),
    {
        self.last_bpm = tempo.bpm;
        self.aggregator.set_tempo(*tempo);
    }

    /// Takes in a frame, at a time since the last genre update.
    pub fn on_frame(
        &mut self,
        frame: AnalysisFrame,
        elapsed_ms: u64,
        palettes: &PaletteStore,
    ) -> (r: FrameOutcome)
        requires
            old(self)@.frames < u64::MAX,
            old(self)@.is_due(elapsed_ms) ==> old(self)@.window.with_frame(frame@).is_forward(),
        ensures
            final(self)@ == old(self)@.after_frame(frame@, elapsed_ms, palettes@),
            r@ == old(self)@.outcome(frame@, elapsed_ms, palettes@),
    {
        self.frame_counter = self.frame_counter + 1;
        self.aggregator.push_frame(frame);
        let due: bool = self.auto_genre && elapsed_ms > GENRE_UPDATE_MS;
        let mut change: Option<(Genre, Palette)> = None;
        if due {
            if let Some(features) = self.aggregator.features() {
                if let Some(genre) = self.classifier.update(&features) {
                    let palette = palettes.palette_for(genre);
                    self.current_genre = genre;
                    self.current_palette = palette.clone();
                    change = Some((genre, palette));
                }
            }
        }
        FrameOutcome {
            show: self.frame_counter % 3 == 0,
            send_intensity: self.frame_counter % 24 == 0,
            restart_timer: due,
            change,
        }
    }

    /// Takes another override while it runs; gives the palette to show at once where a genre is
    /// pinned.
    pub fn set_override(
        &mut self,
        palette_override: Option<&str>,
        palettes: &PaletteStore,
    ) -> (p: Option<Palette>)
        ensures
            final(self)@ == old(self)@.overridden(palette_override, palettes@),
            p is Some == forced_genre(palette_override) is Some,
            p matches Some(q) ==> q@ == final(self)@.palette,
    {
        let forced: Option<Genre> = match palette_override {
            Some(id) => genre_from_id(id),
            None => None,
        };
        match forced {
            Some(g) => {
                let palette = palettes.palette_for(g);
                self.auto_genre = false;
                self.current_genre = g;
                self.current_palette = palette.clone();
                Some(palette)
            },
            None => {
                self.auto_genre = true;
                None
            },
        }
    }

    /// Shows another palette; the genre stays.
    pub fn set_palette(&mut self, palette: Palette)
        ensures
            final(self)@ == (ConductorModel { palette: palette@, ..old(self)@ }),
    {
        self.current_palette = palette;
    }

    pub fn current_genre(&self) -> (g: Genre)
        ensures
            g == self@.genre,
    {
        self.current_genre
    }

    pub fn current_palette(&self) -> (p: &Palette)
        ensures
            p@ == self@.palette,
    {
        &self.current_palette
    }

    pub fn last_bpm(&self) -> (b: Single)
        ensures
            b == self@.bpm,
    {
        self.last_bpm
    }
}

/// The loop that sends frames to the lights.
#[derive(Debug, Clone, Copy, PartialEq, Eq, Structural)]
pub struct LightLoop {
    /// The next frame goes to the preview.
    pub preview_next: bool,
    /// Frames go out to the lights.
    pub streaming: bool,
}

impl LightLoop {
    pub fn new(streaming: bool) -> (l: LightLoop)
        ensures
            l == (LightLoop { preview_next: false, streaming }),
    {
        LightLoop { preview_next: false, streaming }
    }

    /// Counts a frame; every second one goes to the preview.
    pub fn tick(&mut self) -> (preview: bool)
        ensures
            preview == old(self).preview_next,
            *final(self) == (LightLoop { preview_next: !old(self).preview_next, ..*old(self) }),
    {
        let preview: bool = self.preview_next;
        self.preview_next = !preview;
        preview
    }

    /// Takes in whether a frame could be sent; the first failure ends the stream for good.
    pub fn sent(&mut self, ok: bool)
        ensures
            *final(self) == (LightLoop { streaming: old(self).streaming && ok, ..*old(self) }),
    {
        if !ok {
            self.streaming = false;
        }
    }
}

/// The next step of opening a stream.
#[derive(Debug)]
pub enum ConnectStep {
    /// Ask the bridge for the identity.
    Identify,
    /// Tell the bridge to open its port.
    Start { identity: String },
    /// Shake hands.
    Handshake { identity: String },
    /// Tell the bridge to close its port.
    Abort { error: String },
    Connected,
    Failed { error: String },
}

/// The step with its texts as characters.
pub enum StepModel {
    Identify,
    Start { identity: Seq<char> },
    Handshake { identity: Seq<char> },
    Abort { error: Seq<char> },
    Connected,
    Failed { error: Seq<char> },
}

impl View for ConnectStep {
    type V = StepModel;

    open spec fn view(&self) -> StepModel {
        match self {
            ConnectStep::Identify => StepModel::Identify,
            ConnectStep::Start { identity } => StepModel::Start { identity: identity@ },
            ConnectStep::Handshake { identity } => StepModel::Handshake { identity: identity@ },
            ConnectStep::Abort { error } => StepModel::Abort { error: error@ },
            ConnectStep::Connected => StepModel::Connected,
            ConnectStep::Failed { error } => StepModel::Failed { error: error@ },
        }
    }
}

impl StepModel {
    /// The step after one has succeeded, with what it gave, or failed, with its error. Where the
    /// bridge gives no identity, the application key stands in for it.
    pub open spec fn next(
        self,
        app_key: Seq<char>,
        outcome: Result<Seq<char>, Seq<char>>,
    ) -> StepModel {
        match (self, outcome) {
            (StepModel::Identify, Ok(id)) => StepModel::Start { identity: id },
            (StepModel::Identify, Err(_)) => StepModel::Start { identity: app_key },
            (StepModel::Start { identity }, Ok(_)) => StepModel::Handshake { identity },
            (StepModel::Start { identity: _ }, Err(e)) => StepModel::Failed { error: e },
            (StepModel::Handshake { identity: _ }, Ok(_)) => StepModel::Connected,
            (StepModel::Handshake { identity: _ }, Err(e)) => StepModel::Abort { error: e },
            (StepModel::Abort { error }, _) => StepModel::Failed { error },
            (StepModel::Connected, _) => StepModel::Connected,
            (StepModel::Failed { error }, _) => StepModel::Failed { error },
        }
    }
}

/// The outcome of a step with its text as characters.
pub open spec fn outcome_view(r: Result<String, String>) -> Result<Seq<char>, Seq<char>> {
    match r {
        Ok(s) => Ok(s@),
        Err(s) => Err(s@),
    }
}

impl ConnectStep {
    /// The step after this one.
    pub fn next(self, app_key: &str, outcome: Result<String, String>) -> (s: ConnectStep)
        ensures
            s@ == self@.next(app_key@, outcome_view(outcome)),
    {
        match self {
            ConnectStep::Identify => match outcome {
                Ok(id) => ConnectStep::Start { identity: id },
                Err(_) => ConnectStep::Start { identity: app_key.to_owned() },
            },
            ConnectStep::Start { identity } => match outcome {
                Ok(_) => ConnectStep::Handshake { identity },
                Err(e) => ConnectStep::Failed { error: e },
            },
            ConnectStep::Handshake { identity: _ } => match outcome {
                Ok(_) => ConnectStep::Connected,
                Err(e) => ConnectStep::Abort { error: e },
            },
            ConnectStep::Abort { error } => ConnectStep::Failed { error },
            ConnectStep::Connected => ConnectStep::Connected,
            ConnectStep::Failed { error } => ConnectStep::Failed { error },
        }
    }
}

/// However its steps go, opening a stream ends connected or failed: with the error of the request to
/// open the port where that failed, and after a handshake that failed with its error, once the port
/// was told to close.
pub proof fn lemma_connecting(
    app_key: Seq<char>,
    identified: Result<Seq<char>, Seq<char>>,
    started: Result<Seq<char>, Seq<char>>,
    shaken: Result<Seq<char>, Seq<char>>,
    stopped: Result<Seq<char>, Seq<char>>,
)
    ensures
        ({
            let s = StepModel::Identify.next(app_key, identified);
            let h = s.next(app_key, started);
            let e = h.next(app_key, shaken);
            let d = e.next(app_key, stopped);
            &&& s == (StepModel::Start {
                identity: match identified {
                    Ok(id) => id,
                    Err(_) => app_key,
                },
            })
            &&& started matches Err(x) ==> h == (StepModel::Failed { error: x }) && d == h
            &&& started is Ok && shaken is Ok ==> e == StepModel::Connected && d == e
            &&& started is Ok ==> (shaken matches Err(x) ==> e == (StepModel::Abort { error: x })
                && d == (StepModel::Failed { error: x }))
        }),
{
}

} // verus!
