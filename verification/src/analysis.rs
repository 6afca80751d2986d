//! Real-time music analysis: beat detection per frequency band by spectral flux with adaptive
//! thresholds, tempo estimation, and loudness tracking.
//!
//! The Fourier transform itself stands outside: `next_window` hands out the samples of one
//! transform, and `process_hop` takes the magnitudes of its bins.
use std::collections::VecDeque;

use vstd::prelude::*;

use crate::core_types::{
    AnalysisFrame, Band, BandBeatEvent, BandConfig, FrameModel, TempoEstimate, ThresholdMode,
};
use crate::double::Double;
use crate::rounding::Whole;
use crate::single::Single;
use crate::sums::{lemma_sum_ends, lemma_sum_step, mean_of, squared_distances, squares, sum_of};
use crate::tempo::{lag_count, TempoModel, TempoTracker, HOP_SIZE};

verus! {

pub const FFT_SIZE: usize = 2048;

/// Bins of a transform that are used.
pub const HALF: usize = 1024;

/// Resolution of the displayed spectrum, in log-spaced bins.
pub const SPECTRUM_BINS: usize = 32;

/// Hops of flux that a threshold adapts to.
pub const FLUX_HISTORY: usize = 128;

/// Hops between two tempo estimates, about half a second.
pub const TEMPO_RECALC_HOPS: u64 = 47;

#[derive(Debug, Clone, Copy)]
pub struct AnalyzerConfig {
    pub bands: BandConfig,
    /// Threshold per band in standard deviations above the mean flux; lower is more sensitive.
    pub sensitivity: [Single; 4],
    /// Shortest time between two beats of a band, in ms.
    pub min_interval_ms: [Single; 4],
    /// Only detect beats in the low band.
    pub low_only: bool,
    /// Adaptive or fixed beat threshold.
    pub threshold_mode: ThresholdMode,
    /// Fixed threshold per band in raw flux units, for the manual mode; a value that is not above
    /// zero is unset, and the band stays adaptive.
    pub manual_threshold: [Single; 4],
}

impl Default for AnalyzerConfig {
    fn default() -> (c: AnalyzerConfig)
        ensures
            c.bands.edges@ == seq![
                Single::of_whole(20),
                Single::of_whole(150),
                Single::of_whole(800),
                Single::of_whole(4000),
                Single::of_whole(16000),
            ],
            c.sensitivity@ == seq![
                Single::fraction(22, 10),
                Single::fraction(24, 10),
                Single::fraction(24, 10),
                Single::fraction(24, 10),
            ],
            c.min_interval_ms@ == seq![
                Single::of_whole(150),
                Single::of_whole(100),
                Single::of_whole(100),
                Single::of_whole(80),
            ],
            !c.low_only,
            c.threshold_mode == ThresholdMode::Auto,
            c.manual_threshold@ == seq![
                Single::of_whole(0),
                Single::of_whole(0),
                Single::of_whole(0),
                Single::of_whole(0),
            ],
    {
        let wide = Single::ratio(24, 10);
        let zero = Single::from_whole(0);
        AnalyzerConfig {
            bands: BandConfig::default(),
            sensitivity: [Single::ratio(22, 10), wide, wide, wide],
            min_interval_ms: [
                Single::from_whole(150),
                Single::from_whole(100),
                Single::from_whole(100),
                Single::from_whole(80),
            ],
            low_only: false,
            threshold_mode: ThresholdMode::Auto,
            manual_threshold: [zero, zero, zero, zero],
        }
    }
}

/// What feeding one hop of audio gives.
pub struct HopOutput {
    pub frame: AnalysisFrame,
    pub beats: Vec<BandBeatEvent>,
    pub tempo: Option<TempoEstimate>,
}

pub struct HopModel {
    pub frame: FrameModel,
    pub beats: Seq<BandBeatEvent>,
    pub tempo: Option<TempoEstimate>,
}

impl View for HopOutput {
    type V = HopModel;

    open spec fn view(&self) -> HopModel {
        HopModel { frame: self.frame@, beats: self.beats@, tempo: self.tempo }
    }
}

/// The width of a bin in Hz.
pub open spec fn bin_width(rate: Single) -> Single {
    rate.over(Single::of_whole(FFT_SIZE as nat))
}

/// The bin of a frequency, from 1 to `HALF`.
pub open spec fn bin_of(hz: Single, width: Single) -> nat {
    let b = hz.over(width).to_whole(Whole::Nearest);
    if b < 1 {
        1
    } else if b > HALF {
        HALF as nat
    } else {
        b as nat
    }
}

fn bin_for(hz: Single, width: Single) -> (b: usize)
    ensures
        b == bin_of(hz, width),
        1 <= b <= HALF,
{
    let b: u64 = hz.over(width).to_whole(Whole::Nearest);
    if b < 1 {
        1
    } else if b > HALF as u64 {
        HALF
    } else {
        b as usize
    }
}

/// The bins of band `i`.
pub open spec fn band_bins(config: AnalyzerConfig, rate: Single, i: int) -> (nat, nat) {
    (
        bin_of(config.bands.edges@[i], bin_width(rate)),
        bin_of(config.bands.edges@[i + 1], bin_width(rate)),
    )
}

/// The increase of the magnitudes from bin `lo` up to bin `end`.
pub open spec fn rise(mags: Seq<Single>, prev: Seq<Single>, lo: nat, end: nat) -> Single
    decreases end,
{
    if end <= lo {
        Single::of_whole(0)
    } else {
        let before = rise(mags, prev, lo, (end - 1) as nat);
        let d = mags[end - 1].minus(prev[end - 1]);
        if Single::of_whole(0).lt(d) {
            before.plus(d)
        } else {
            before
        }
    }
}

/// The last bin of a band, exclusively.
pub open spec fn band_end(hi: nat) -> nat {
    if hi < HALF {
        hi
    } else {
        HALF as nat
    }
}

/// The onset flux of a band, by its width, so that sensitivities are comparable.
pub open spec fn onset_flux(mags: Seq<Single>, prev: Seq<Single>, bins: (nat, nat)) -> Single {
    let width = if bins.1 > bins.0 + 1 { (bins.1 - bins.0) as nat } else { 1 };
    rise(mags, prev, bins.0, band_end(bins.1)).over(Single::of_whole(width).sqrt())
}

/// The energy of a band.
pub open spec fn band_power(mags: Seq<Single>, bins: (nat, nat)) -> Single {
    sum_of(squares(mags.subrange(bins.0 as int, band_end(bins.1) as int)))
}

/// What one hop says of a band.
pub struct BandReading {
    pub energy: Single,
    pub flux: Single,
    pub threshold: Single,
    pub mean: Single,
    pub deviation: Single,
    pub flux_max: Single,
    pub beat: Option<BandBeatEvent>,
}

/// What is remembered of a band.
pub struct BandModel {
    pub bins: (nat, nat),
    pub history: Seq<Single>,
    pub last_beat: Double,
    pub energy_max: Single,
    pub flux_max: Single,
}

impl BandModel {
    /// The band does not end below its beginning.
    pub open spec fn is_ordered(self) -> bool {
        self.bins.0 <= self.bins.1
    }

    /// The mean of the recent flux.
    pub open spec fn mean(self) -> Single {
        mean_of(self.history)
    }

    /// The standard deviation of the recent flux, kept away from zero.
    pub open spec fn deviation(self) -> Single {
        let n = if self.history.len() > 0 { self.history.len() } else { 1 };
        sum_of(squared_distances(self.history, self.mean())).over(Single::of_whole(n)).sqrt().max(
            self.mean().times(Single::fraction(1, 10)).plus(Single::fraction(1, 1000000)),
        )
    }

    /// A fixed threshold is set for the band.
    pub open spec fn is_manual(config: AnalyzerConfig, i: int) -> bool {
        config.threshold_mode == ThresholdMode::Manual && Single::of_whole(0).lt(
            config.manual_threshold@[i],
        )
    }

    /// The flux above which the band beats.
    pub open spec fn threshold(self, config: AnalyzerConfig, i: int) -> Single {
        if BandModel::is_manual(config, i) {
            config.manual_threshold@[i]
        } else {
            self.mean().plus(config.sensitivity@[i].times(self.deviation()))
        }
    }

    /// The band beats: it is enabled, it carries a meaningful share of the onset energy of this
    /// hop, so that a kick does not trigger the high band by leakage, its threshold is fixed or has
    /// had time to adapt, the flux is above it, and the last beat is long enough ago.
    pub open spec fn fires(
        self,
        config: AnalyzerConfig,
        i: int,
        flux: Single,
        total: Single,
        now: Double,
    ) -> bool {
        &&& !config.low_only || i == 0
        &&& total.times(Single::fraction(15, 100)).le(flux)
        &&& BandModel::is_manual(config, i) || self.history.len() >= FLUX_HISTORY / 4
        &&& self.threshold(config, i).lt(flux)
        &&& Double::widen(config.min_interval_ms@[i]).le(now.minus(self.last_beat))
    }

    /// How far a flux stands out.
    pub open spec fn strength(self, flux: Single) -> Single {
        flux.minus(self.mean()).over(self.deviation()).over(Single::of_whole(6)).clamp(
            Single::fraction(5, 100),
            Single::fraction(15, 10),
        )
    }

    /// The history with one flux more, the oldest dropped when it is full.
    pub open spec fn remembered(self, flux: Single) -> Seq<Single> {
        (if self.history.len() >= FLUX_HISTORY { self.history.skip(1) } else { self.history }).push(flux)
    }

    /// The band after one hop.
    pub open spec fn after(
        self,
        config: AnalyzerConfig,
        i: int,
        power: Single,
        flux: Single,
        total: Single,
        now: Double,
    ) -> BandModel {
        let decay = Single::fraction(9995, 10000);
        let least = Single::fraction(1, 1000000);
        BandModel {
            bins: self.bins,
            history: self.remembered(flux),
            last_beat: if self.fires(config, i, flux, total, now) { now } else { self.last_beat },
            energy_max: self.energy_max.times(decay).max(power).max(least),
            flux_max: self.flux_max.times(decay).max(flux).max(self.threshold(config, i)).max(least),
        }
    }

    /// What one hop says of the band: flux and thresholds as shares of the slowly decaying peak.
    pub open spec fn reading(
        self,
        config: AnalyzerConfig,
        i: int,
        power: Single,
        flux: Single,
        total: Single,
        now: Double,
    ) -> BandReading {
        let zero = Single::of_whole(0);
        let one = Single::of_whole(1);
        let next = self.after(config, i, power, flux, total, now);
        BandReading {
            energy: power.over(next.energy_max).clamp(zero, one).sqrt(),
            flux: flux.over(next.flux_max).clamp(zero, one),
            threshold: self.threshold(config, i).over(next.flux_max).clamp(zero, one),
            mean: self.mean().over(next.flux_max).clamp(zero, one),
            deviation: self.deviation().over(next.flux_max).max(Single::fraction(1, 10000)),
            flux_max: next.flux_max,
            beat: if self.fires(config, i, flux, total, now) {
                Some(
                    BandBeatEvent {
                        band: Band::ALL@[i],
                        strength: self.strength(flux),
                        timestamp_ms: now.to_whole(Whole::Floor),
                    },
                )
            } else {
                None
            },
        }
    }
}

/// The state of one band.
pub struct BandState {
    pub bin_range: (usize, usize),
    pub flux_history: VecDeque<Single>,
    pub last_beat_ms: Double,
    pub energy_max: Single,
    /// The slowly decaying peak of the flux.
    pub flux_max: Single,
}

impl View for BandState {
    type V = BandModel;

    open spec fn view(&self) -> BandModel {
        BandModel {
            bins: (self.bin_range.0 as nat, self.bin_range.1 as nat),
            history: self.flux_history@,
            last_beat: self.last_beat_ms,
            energy_max: self.energy_max,
            flux_max: self.flux_max,
        }
    }
}

impl BandState {
    pub open spec fn in_range(self) -> bool {
        &&& 1 <= self.bin_range.0 <= HALF
        &&& 1 <= self.bin_range.1 <= HALF
        &&& self.flux_history@.len() <= FLUX_HISTORY
    }

    fn flux(&self, mags: &Vec<Single>, prev: &Vec<Single>) -> (r: Single)
        requires
            self.in_range(),
            self@.is_ordered(),
            mags@.len() == HALF,
            prev@.len() == HALF,
        ensures
            r == onset_flux(mags@, prev@, self@.bins),
    {
        let (a, b) = self.bin_range;
        let zero = Single::from_whole(0);
        let mut flux = zero;
        let mut i: usize = a;
        while i < b
            invariant
                a <= i <= b <= HALF,
                mags@.len() == HALF,
                prev@.len() == HALF,
                zero == Single::of_whole(0),
                flux == rise(mags@, prev@, a as nat, i as nat),
            decreases b - i,
        {
            let d = mags[i].minus(prev[i]);
            if zero.lt(d) {
                flux = flux.plus(d);
            }
            i = i + 1;
        }
        let width: usize = if b - a > 1 { b - a } else { 1 };
        flux.over(Single::from_whole(width as u64).sqrt())
    }

    fn power(&self, mags: &Vec<Single>) -> (r: Single)
        requires
            self.in_range(),
            self@.is_ordered(),
            mags@.len() == HALF,
        ensures
            r == band_power(mags@, self@.bins),
    {
        let (a, b) = self.bin_range;
        let ghost terms = squares(mags@.subrange(a as int, b as int));
        let mut s = Single::from_whole(0);
        let mut i: usize = a;
        proof {
            lemma_sum_ends(terms);
        }
        while i < b
            invariant
                a <= i <= b <= HALF,
                mags@.len() == HALF,
                terms == squares(mags@.subrange(a as int, b as int)),
                s == sum_of(terms.take(i - a)),
            decreases b - i,
        {
            proof {
                lemma_sum_step(terms, i - a);
            }
            s = s.plus(mags[i].times(mags[i]));
            i = i + 1;
        }
        s
    }

    fn mean(&self) -> (r: Single)
        requires
            self.in_range(),
        ensures
            r == self@.mean(),
    {
        let n: usize = self.flux_history.len();
        let mut s = Single::from_whole(0);
        let mut i: usize = 0;
        proof {
            lemma_sum_ends(self.flux_history@);
        }
        while i < n
            invariant
                i <= n == self.flux_history@.len(),
                s == sum_of(self.flux_history@.take(i as int)),
            decreases n - i,
        {
            proof {
                lemma_sum_step(self.flux_history@, i as int);
            }
            s = s.plus(self.flux_history[i]);
            i = i + 1;
        }
        let count: usize = if n > 0 { n } else { 1 };
        s.over(Single::from_whole(count as u64))
    }

    fn deviation(&self, mean: Single) -> (r: Single)
        requires
            self.in_range(),
            mean == self@.mean(),
        ensures
            r == self@.deviation(),
    {
        let n: usize = self.flux_history.len();
        let ghost terms = squared_distances(self.flux_history@, mean);
        let mut s = Single::from_whole(0);
        let mut i: usize = 0;
        proof {
            lemma_sum_ends(terms);
        }
        while i < n
            invariant
                i <= n == self.flux_history@.len(),
                terms == squared_distances(self.flux_history@, mean),
                s == sum_of(terms.take(i as int)),
            decreases n - i,
        {
            proof {
                lemma_sum_step(terms, i as int);
            }
            let d = self.flux_history[i].minus(mean);
            s = s.plus(d.times(d));
            i = i + 1;
        }
        let count: usize = if n > 0 { n } else { 1 };
        s.over(Single::from_whole(count as u64)).sqrt().max(
            mean.times(Single::ratio(1, 10)).plus(Single::ratio(1, 1000000)),
        )
    }

    /// Takes in one hop.
    fn advance(
        &mut self,
        config: &AnalyzerConfig,
        i: usize,
        mags: &Vec<Single>,
        flux: Single,
        total: Single,
        now: Double,
    ) -> (r: BandReading)
        requires
            old(self).in_range(),
            old(self)@.is_ordered(),
            i < 4,
            mags@.len() == HALF,
        ensures
            final(self).in_range(),
            final(self)@ == old(self)@.after(
                *config,
                i as int,
                band_power(mags@, old(self)@.bins),
                flux,
                total,
                now,
            ),
            r == old(self)@.reading(
                *config,
                i as int,
                band_power(mags@, old(self)@.bins),
                flux,
                total,
                now,
            ),
    {
        let ghost before = self@;
        let band = Band::at(i);
        let zero = Single::from_whole(0);
        let one = Single::from_whole(1);
        let decay = Single::ratio(9995, 10000);
        let least = Single::ratio(1, 1000000);
        let power = self.power(mags);
        self.energy_max = self.energy_max.times(decay).max(power).max(least);
        let energy = power.over(self.energy_max).clamp(zero, one).sqrt();

        let mean = self.mean();
        let deviation = self.deviation(mean);
        let manual: bool = config.threshold_mode == ThresholdMode::Manual && zero.lt(
            config.manual_threshold[i],
        );
        let threshold = if manual {
            config.manual_threshold[i]
        } else {
            mean.plus(config.sensitivity[i].times(deviation))
        };
        self.flux_max = self.flux_max.times(decay).max(flux).max(threshold).max(least);

        let enabled: bool = !config.low_only || i == 0;
        let dominant: bool = total.times(Single::ratio(15, 100)).le(flux);
        let settled: bool = manual || self.flux_history.len() >= FLUX_HISTORY / 4;
        let rested: bool = Double::from_single(config.min_interval_ms[i]).le(
            now.minus(self.last_beat_ms),
        );
        let mut beat: Option<BandBeatEvent> = None;
        if enabled && dominant && settled && threshold.lt(flux) && rested {
            self.last_beat_ms = now;
            let strength = flux.minus(mean).over(deviation).over(Single::from_whole(6)).clamp(
                Single::ratio(5, 100),
                Single::ratio(15, 10),
            );
            beat = Some(
                BandBeatEvent { band, strength, timestamp_ms: now.to_whole(Whole::Floor) },
            );
        }
        if self.flux_history.len() >= FLUX_HISTORY {
            self.flux_history.pop_front();
            assert(self.flux_history@ =~= before.history.skip(1));
        }
        self.flux_history.push_back(flux);
        let r = BandReading {
            energy,
            flux: flux.over(self.flux_max).clamp(zero, one),
            threshold: threshold.over(self.flux_max).clamp(zero, one),
            mean: mean.over(self.flux_max).clamp(zero, one),
            deviation: deviation.over(self.flux_max).max(Single::ratio(1, 10000)),
            flux_max: self.flux_max,
            beat,
        };
        assert(self@ == before.after(
            *config,
            i as int,
            band_power(mags@, before.bins),
            flux,
            total,
            now,
        ));
        assert(r == before.reading(
            *config,
            i as int,
            band_power(mags@, before.bins),
            flux,
            total,
            now,
        ));
        r
    }
}

/// The tables of functions that are computed elsewhere: the cosines of `window_angles`, the powers
/// of `spectrum_span` with the exponents 0/32 to 32/32, and a weight for each of `lag_tempos`.
pub struct Tables {
    pub cosines: Vec<Single>,
    pub powers: Vec<Single>,
    pub weights: Vec<Single>,
}

/// The angle of sample `i` of a window.
pub open spec fn window_angle(i: nat) -> Single {
    Single { bits: 0x4049_0fdb }.times(Single::of_whole(2)).times(Single::of_whole(i)).over(
        Single::of_whole(FFT_SIZE as nat),
    )
}

/// The angles whose cosines make up the window.
pub fn window_angles() -> (v: Vec<Single>)
    ensures
        v@ == Seq::new(FFT_SIZE as nat, |i: int| window_angle(i as nat)),
{
    let turn = Single { bits: 0x4049_0fdb }.times(Single::from_whole(2));
    let size = Single::from_whole(FFT_SIZE as u64);
    let mut v: Vec<Single> = Vec::new();
    let mut i: usize = 0;
    while i < FFT_SIZE
        invariant
            i <= FFT_SIZE,
            turn == (Single { bits: 0x4049_0fdb }).times(Single::of_whole(2)),
            size == Single::of_whole(FFT_SIZE as nat),
            v@ == Seq::new(i as nat, |j: int| window_angle(j as nat)),
        decreases FFT_SIZE - i,
    {
        v.push(turn.times(Single::from_whole(i as u64)).over(size));
        i = i + 1;
        assert(v@ =~= Seq::new(i as nat, |j: int| window_angle(j as nat)));
    }
    v
}

/// The ratio of the highest to the lowest frequency of the displayed spectrum, which begins at
/// 40 Hz and ends at 16 kHz or one bin below half the sample rate.
pub open spec fn span_of(rate: Single) -> Single {
    Single::of_whole(16000).min(rate.over(Single::of_whole(2)).minus(bin_width(rate))).over(
        Single::of_whole(40),
    )
}

/// The ratio of the highest to the lowest frequency of the displayed spectrum.
pub fn spectrum_span(sample_rate: u32) -> (r: Single)
    ensures
        r == span_of(Single::of_whole(sample_rate as nat)),
{
    let rate = Single::from_whole(sample_rate as u64);
    let width = rate.over(Single::from_whole(FFT_SIZE as u64));
    Single::from_whole(16000).min(rate.over(Single::from_whole(2)).minus(width)).over(
        Single::from_whole(40),
    )
}

/// The bins of one place of the displayed spectrum: at least one.
pub open spec fn spectrum_bins(powers: Seq<Single>, rate: Single, i: int) -> (nat, nat) {
    let lo = Single::of_whole(40);
    let a = bin_of(lo.times(powers[i]), bin_width(rate));
    let b = bin_of(lo.times(powers[i + 1]), bin_width(rate));
    (
        a,
        if b > a {
            b
        } else {
            a + 1
        },
    )
}

/// The mean magnitude of one place of the displayed spectrum.
pub open spec fn place_level(mags: Seq<Single>, bins: (nat, nat)) -> Single {
    sum_of(mags.subrange(bins.0 as int, band_end(bins.1) as int)).over(
        Single::of_whole((bins.1 - bins.0) as nat),
    )
}

/// The displayed spectrum: the mean magnitude of each place as a share of a slowly decaying peak,
/// and the peak afterwards.
pub open spec fn displayed(mags: Seq<Single>, ranges: Seq<(nat, nat)>, peak: Single) -> (
    Seq<Single>,
    Single,
)
    decreases ranges.len(),
{
    if ranges.len() == 0 {
        (Seq::empty(), peak)
    } else {
        let (shown, p) = displayed(mags, ranges.drop_last(), peak);
        let v = place_level(mags, ranges.last());
        let q = p.times(Single::fraction(9999, 10000)).max(v);
        (shown.push(v.over(q).clamp(Single::of_whole(0), Single::of_whole(1))), q)
    }
}

/// The magnitudes below bin `n`, each times the frequency of its bin, added up.
pub open spec fn moment(mags: Seq<Single>, width: Single, n: nat) -> Single
    decreases n,
{
    if n <= 1 {
        Single::of_whole(0)
    } else {
        moment(mags, width, (n - 1) as nat).plus(
            mags[n - 1].times(Single::of_whole((n - 1) as nat)).times(width),
        )
    }
}

/// The magnitudes from bin 1 up to bin `n`, added up.
pub open spec fn mass(mags: Seq<Single>, n: nat) -> Single
    decreases n,
{
    if n <= 1 {
        Single::of_whole(0)
    } else {
        mass(mags, (n - 1) as nat).plus(mags[n - 1])
    }
}

/// The centre of gravity of the spectrum in Hz; 0 in silence.
pub open spec fn centroid(mags: Seq<Single>, width: Single) -> Single {
    if Single::fraction(1, 1000000000).lt(mass(mags, HALF as nat)) {
        moment(mags, width, HALF as nat).over(mass(mags, HALF as nat))
    } else {
        Single::of_whole(0)
    }
}

/// The level of a hop.
pub open spec fn level(hop: Seq<Single>) -> Single {
    sum_of(squares(hop)).over(Single::of_whole(hop.len())).sqrt()
}

/// The beats of the bands in their order.
pub open spec fn beats_of(readings: Seq<BandReading>) -> Seq<BandBeatEvent>
    decreases readings.len(),
{
    if readings.len() == 0 {
        Seq::empty()
    } else {
        let before = beats_of(readings.drop_last());
        match readings.last().beat {
            Some(b) => before.push(b),
            None => before,
        }
    }
}

/// What an analyzer remembers.
pub struct AnalyzerModel {
    pub config: AnalyzerConfig,
    pub rate: Single,
    pub window: Seq<Single>,
    /// The samples of the last transform, oldest first.
    pub input: Seq<Single>,
    /// The samples that wait for their hop to fill.
    pub pending: Seq<Single>,
    /// The magnitudes of the last transform.
    pub prev: Seq<Single>,
    pub bands: Seq<BandModel>,
    /// Samples that were transformed.
    pub samples: nat,
    pub hops: nat,
    pub tempo: TempoModel,
    /// The loudness envelope.
    pub rms_env: Single,
    pub rms_max: Single,
    pub spectrum_max: Single,
    pub ranges: Seq<(nat, nat)>,
    /// A transform was handed out, and its magnitudes have not come back.
    pub transforming: bool,
}

impl AnalyzerModel {
    /// Milliseconds of audio that were transformed.
    pub open spec fn now(self) -> Double {
        Double::of_whole(self.samples).times(Double::of_whole(1000)).over(Double::widen(self.rate))
    }

    /// All parts have their sizes, the bands lie where the settings put them, every place of the
    /// displayed spectrum can be read, and the counters agree.
    pub open spec fn is_sound(self) -> bool {
        &&& self.window.len() == FFT_SIZE
        &&& self.input.len() == FFT_SIZE
        &&& self.prev.len() == HALF
        &&& self.bands.len() == 4
        &&& forall|i: int|
            0 <= i < 4 ==> (#[trigger] self.bands[i]).bins == band_bins(self.config, self.rate, i)
                && self.bands[i].history.len() <= FLUX_HISTORY
        &&& self.ranges.len() == SPECTRUM_BINS
        &&& forall|i: int|
            0 <= i < SPECTRUM_BINS ==> 1 <= (#[trigger] self.ranges[i]).0 <= HALF
                && self.ranges[i].0 < self.ranges[i].1 <= HALF + 1
        &&& self.samples == self.hops * HOP_SIZE
    }

    /// No band ends below its beginning.
    pub open spec fn in_order(self) -> bool {
        forall|i: int| 0 <= i < 4 ==> (#[trigger] self.bands[i]).is_ordered()
    }

    /// A fresh analyzer.
    pub open spec fn initial(
        rate: Single,
        config: AnalyzerConfig,
        cosines: Seq<Single>,
        powers: Seq<Single>,
        weights: Seq<Single>,
    ) -> AnalyzerModel {
        let zero = Single::of_whole(0);
        AnalyzerModel {
            config,
            rate,
            window: Seq::new(
                FFT_SIZE as nat,
                |i: int| Single::fraction(1, 2).times(Single::of_whole(1).minus(cosines[i])),
            ),
            input: Seq::new(FFT_SIZE as nat, |i: int| zero),
            pending: Seq::empty(),
            prev: Seq::new(HALF as nat, |i: int| zero),
            bands: Seq::new(
                4,
                |i: int|
                    BandModel {
                        bins: band_bins(config, rate, i),
                        history: Seq::empty(),
                        last_beat: Double { bits: 0xfff0_0000_0000_0000 },
                        energy_max: Single::fraction(1, 1000000),
                        flux_max: Single::fraction(1, 1000000),
                    },
            ),
            samples: 0,
            hops: 0,
            tempo: TempoModel {
                rate,
                weights,
                onsets: Seq::empty(),
                bpm: zero,
                confidence: zero,
                outliers: 0,
            },
            rms_env: zero,
            rms_max: Single::fraction(1, 10000),
            spectrum_max: Single::fraction(1, 1000000),
            ranges: Seq::new(SPECTRUM_BINS as nat, |i: int| spectrum_bins(powers, rate, i)),
            transforming: false,
        }
    }

    /// The analyzer with other settings: the bands move, and nothing else is lost.
    pub open spec fn configured(self, config: AnalyzerConfig) -> AnalyzerModel {
        AnalyzerModel {
            config,
            bands: Seq::new(
                4,
                |i: int| BandModel { bins: band_bins(config, self.rate, i), ..self.bands[i] },
            ),
            ..self
        }
    }

    /// The analyzer with the next hop moved from the waiting samples into the window.
    pub open spec fn slid(self) -> AnalyzerModel {
        AnalyzerModel {
            input: self.input.skip(HOP_SIZE as int) + self.pending.take(HOP_SIZE as int),
            pending: self.pending.skip(HOP_SIZE as int),
            samples: self.samples + HOP_SIZE as nat,
            hops: self.hops + 1,
            transforming: true,
            ..self
        }
    }

    /// The samples to transform, weighted by the window.
    pub open spec fn windowed(self) -> Seq<Single> {
        Seq::new(FFT_SIZE as nat, |i: int| self.input[i].times(self.window[i]))
    }

    pub open spec fn fluxes(self, mags: Seq<Single>) -> Seq<Single> {
        Seq::new(4, |i: int| onset_flux(mags, self.prev, self.bands[i].bins))
    }

    /// What the hop says of each band.
    pub open spec fn readings(self, mags: Seq<Single>) -> Seq<BandReading> {
        let f = self.fluxes(mags);
        Seq::new(
            4,
            |i: int|
                self.bands[i].reading(
                    self.config,
                    i,
                    band_power(mags, self.bands[i].bins),
                    f[i],
                    sum_of(f),
                    self.now(),
                ),
        )
    }

    /// The value of the hop in the onset envelope: the low band, and half of the next one.
    pub open spec fn onset(self, mags: Seq<Single>) -> Single {
        let f = self.fluxes(mags);
        Single::of_whole(0).plus(f[0]).plus(f[1].times(Single::fraction(1, 2)))
    }

    /// The slowly decaying peak level after the hop.
    pub open spec fn level_peak(self) -> Single {
        self.rms_max.times(Single::fraction(99997, 100000)).max(
            level(self.input.skip(FFT_SIZE - HOP_SIZE)),
        ).max(Single::fraction(1, 10000))
    }

    /// The level of the hop as a share of the peak.
    pub open spec fn relative_level(self) -> Single {
        level(self.input.skip(FFT_SIZE - HOP_SIZE)).over(self.level_peak()).clamp(
            Single::of_whole(0),
            Single::of_whole(1),
        )
    }

    /// The loudness envelope after the hop: it rises fast and falls slowly.
    pub open spec fn envelope(self) -> Single {
        let coef = if self.rms_env.lt(self.relative_level()) {
            Single::fraction(3, 10)
        } else {
            Single::fraction(5, 1000)
        };
        self.rms_env.plus(self.relative_level().minus(self.rms_env).times(coef))
    }

    /// The tempo tracker after the hop, and the estimate where one is due.
    pub open spec fn tempo_after(self, mags: Seq<Single>) -> (TempoModel, Option<TempoEstimate>) {
        let t = self.tempo.pushed(self.onset(mags));
        if self.hops % (TEMPO_RECALC_HOPS as nat) == 0 {
            t.estimated()
        } else {
            (t, None)
        }
    }

    /// The analyzer after a hop with the given magnitudes.
    pub open spec fn processed(self, mags: Seq<Single>) -> AnalyzerModel {
        let f = self.fluxes(mags);
        AnalyzerModel {
            prev: mags,
            bands: Seq::new(
                4,
                |i: int|
                    self.bands[i].after(
                        self.config,
                        i,
                        band_power(mags, self.bands[i].bins),
                        f[i],
                        sum_of(f),
                        self.now(),
                    ),
            ),
            tempo: self.tempo_after(mags).0,
            rms_env: self.envelope(),
            rms_max: self.level_peak(),
            spectrum_max: displayed(mags, self.ranges, self.spectrum_max).1,
            transforming: false,
            ..self
        }
    }

    /// What the hop gives.
    pub open spec fn output(self, mags: Seq<Single>) -> HopModel {
        let r = self.readings(mags);
        HopModel {
            frame: FrameModel {
                timestamp_ms: self.now().to_whole(Whole::Floor),
                rms: self.relative_level(),
                band_energy: r.map_values(|b: BandReading| b.energy),
                intensity: self.envelope(),
                spectral_centroid: centroid(mags, bin_width(self.rate)),
                spectrum: displayed(mags, self.ranges, self.spectrum_max).0,
                band_flux: r.map_values(|b: BandReading| b.flux),
                band_threshold: r.map_values(|b: BandReading| b.threshold),
                band_flux_mean: r.map_values(|b: BandReading| b.mean),
                band_flux_std: r.map_values(|b: BandReading| b.deviation),
                band_flux_max: r.map_values(|b: BandReading| b.flux_max),
            },
            beats: beats_of(r),
            tempo: self.tempo_after(mags).1,
        }
    }
}

/// Analyses a stream of mono samples hop by hop.
pub struct Analyzer {
    config: AnalyzerConfig,
    sample_rate: Single,
    window: Vec<Single>,
    input: Vec<Single>,
    pending: Vec<Single>,
    prev_mag: Vec<Single>,
    bands: Vec<BandState>,
    total_samples: u64,
    hop_count: u64,
    tempo: TempoTracker,
    rms_env: Single,
    rms_max: Single,
    spectrum_max: Single,
    spectrum_ranges: Vec<(usize, usize)>,
    transforming: bool,
}

impl View for Analyzer {
    type V = AnalyzerModel;

    closed spec fn view(&self) -> AnalyzerModel {
        AnalyzerModel {
            config: self.config,
            rate: self.sample_rate,
            window: self.window@,
            input: self.input@,
            pending: self.pending@,
            prev: self.prev_mag@,
            bands: self.bands@.map_values(|b: BandState| b@),
            samples: self.total_samples as nat,
            hops: self.hop_count as nat,
            tempo: self.tempo@,
            rms_env: self.rms_env,
            rms_max: self.rms_max,
            spectrum_max: self.spectrum_max,
            ranges: self.spectrum_ranges@.map_values(|r: (usize, usize)| (r.0 as nat, r.1 as nat)),
            transforming: self.transforming,
        }
    }
}

/// The sum of the magnitudes from bin `a` up to bin `b`.
fn sum_range(mags: &Vec<Single>, a: usize, b: usize) -> (s: Single)
    requires
        a <= b <= mags@.len(),
    ensures
        s == sum_of(mags@.subrange(a as int, b as int)),
{
    let ghost terms = mags@.subrange(a as int, b as int);
    let mut s = Single::from_whole(0);
    let mut i: usize = a;
    proof {
        lemma_sum_ends(terms);
    }
    while i < b
        invariant
            a <= i <= b <= mags@.len(),
            terms == mags@.subrange(a as int, b as int),
            s == sum_of(terms.take(i - a)),
        decreases b - i,
    {
        proof {
            lemma_sum_step(terms, i - a);
        }
        s = s.plus(mags[i]);
        i = i + 1;
    }
    s
}

impl Analyzer {
    pub open spec fn well_formed(self) -> bool {
        self@.is_sound()
    }

    proof fn lemma_parts(self)
        requires
            self.well_formed(),
        ensures
            self.window@.len() == FFT_SIZE,
            self.input@.len() == FFT_SIZE,
            self.prev_mag@.len() == HALF,
            self.bands@.len() == 4,
            forall|i: int| 0 <= i < 4 ==> (#[trigger] self.bands@[i]).in_range(),
            self.spectrum_ranges@.len() == SPECTRUM_BINS,
            forall|i: int|
                0 <= i < SPECTRUM_BINS ==> 1 <= (#[trigger] self.spectrum_ranges@[i]).0 <= HALF
                    && self.spectrum_ranges@[i].0 < self.spectrum_ranges@[i].1 <= HALF + 1,
            self.total_samples == self.hop_count * HOP_SIZE,
    {
        assert forall|i: int| 0 <= i < 4 implies (#[trigger] self.bands@[i]).in_range() by {
            assert(self@.bands[i] == self.bands@[i]@);
        }
        assert forall|i: int| 0 <= i < SPECTRUM_BINS implies 1 <= (
        #[trigger] self.spectrum_ranges@[i]).0 <= HALF && self.spectrum_ranges@[i].0
            < self.spectrum_ranges@[i].1 <= HALF + 1 by {
            assert(self@.ranges[i] == (
                self.spectrum_ranges@[i].0 as nat,
                self.spectrum_ranges@[i].1 as nat,
            ));
        }
    }

    /// An analyzer for audio at a sample rate.
    pub fn new(sample_rate: u32, config: AnalyzerConfig, tables: Tables) -> (a: Analyzer)
        requires
            tables.cosines@.len() == FFT_SIZE,
            tables.powers@.len() == SPECTRUM_BINS + 1,
            tables.weights@.len() == lag_count(Single::of_whole(sample_rate as nat)),
        ensures
            a.well_formed(),
            a@ == AnalyzerModel::initial(
                Single::of_whole(sample_rate as nat),
                config,
                tables.cosines@,
                tables.powers@,
                tables.weights@,
            ),
    {
        let rate = Single::from_whole(sample_rate as u64);
        let width = rate.over(Single::from_whole(FFT_SIZE as u64));
        let zero = Single::from_whole(0);
        let one = Single::from_whole(1);
        let half = Single::ratio(1, 2);
        let least = Single::ratio(1, 1000000);
        let Tables { cosines, powers, weights } = tables;

        let mut window: Vec<Single> = Vec::new();
        let mut input: Vec<Single> = Vec::new();
        let mut i: usize = 0;
        while i < FFT_SIZE
            invariant
                i <= FFT_SIZE,
                cosines@.len() == FFT_SIZE,
                zero == Single::of_whole(0),
                one == Single::of_whole(1),
                half == Single::fraction(1, 2),
                window@.len() == i,
                input@.len() == i,
                forall|j: int|
                    0 <= j < i ==> #[trigger] window@[j] == half.times(one.minus(cosines@[j])),
                forall|j: int| 0 <= j < i ==> #[trigger] input@[j] == zero,
            decreases FFT_SIZE - i,
        {
            window.push(half.times(one.minus(cosines[i])));
            input.push(zero);
            i = i + 1;
        }
        let mut prev_mag: Vec<Single> = Vec::new();
        let mut j: usize = 0;
        while j < HALF
            invariant
                j <= HALF,
                prev_mag@.len() == j,
                forall|k: int| 0 <= k < j ==> #[trigger] prev_mag@[k] == zero,
            decreases HALF - j,
        {
            prev_mag.push(zero);
            j = j + 1;
        }
        let mut bands: Vec<BandState> = Vec::new();
        let mut b: usize = 0;
        while b < 4
            invariant
                b <= 4,
                width == bin_width(rate),
                least == Single::fraction(1, 1000000),
                bands@.len() == b,
                forall|k: int|
                    0 <= k < b ==> (#[trigger] bands@[k]).in_range() && bands@[k]@ == (BandModel {
                        bins: band_bins(config, rate, k),
                        history: Seq::empty(),
                        last_beat: Double { bits: 0xfff0_0000_0000_0000 },
                        energy_max: least,
                        flux_max: least,
                    }),
            decreases 4 - b,
        {
            let lo: usize = bin_for(config.bands.edges[b], width);
            let hi: usize = bin_for(config.bands.edges[b + 1], width);
            assert(band_bins(config, rate, b as int) == (lo as nat, hi as nat));
            bands.push(
                BandState {
                    bin_range: (lo, hi),
                    flux_history: VecDeque::with_capacity(FLUX_HISTORY),
                    last_beat_ms: Double { bits: 0xfff0_0000_0000_0000 },
                    energy_max: least,
                    flux_max: least,
                },
            );
            b = b + 1;
        }
        let lowest = Single::from_whole(40);
        let mut spectrum_ranges: Vec<(usize, usize)> = Vec::new();
        let mut r: usize = 0;
        while r < SPECTRUM_BINS
            invariant
                r <= SPECTRUM_BINS,
                width == bin_width(rate),
                lowest == Single::of_whole(40),
                powers@.len() == SPECTRUM_BINS + 1,
                spectrum_ranges@.len() == r,
                forall|k: int|
                    0 <= k < r ==> 1 <= (#[trigger] spectrum_ranges@[k]).0 <= HALF
                        && spectrum_ranges@[k].0 < spectrum_ranges@[k].1 <= HALF + 1 && (
                        spectrum_ranges@[k].0 as nat,
                        spectrum_ranges@[k].1 as nat,
                    ) == spectrum_bins(powers@, rate, k),
            decreases SPECTRUM_BINS - r,
        {
            let lo: usize = bin_for(lowest.times(powers[r]), width);
            let next: usize = bin_for(lowest.times(powers[r + 1]), width);
            let hi: usize = if next > lo {
                next
            } else {
                lo + 1
            };
            spectrum_ranges.push((lo, hi));
            r = r + 1;
        }
        let a = Analyzer {
            config,
            sample_rate: rate,
            window,
            input,
            pending: Vec::with_capacity(HOP_SIZE * 4),
            prev_mag,
            bands,
            total_samples: 0,
            hop_count: 0,
            tempo: TempoTracker::new(rate, weights),
            rms_env: zero,
            rms_max: Single::ratio(1, 10000),
            spectrum_max: least,
            spectrum_ranges,
            transforming: false,
        };
        proof {
            let m = AnalyzerModel::initial(rate, config, cosines@, powers@, weights@);
            assert(a@.window =~= m.window);
            assert(a@.input =~= m.input);
            assert(a@.prev =~= m.prev);
            assert(a@.bands =~= m.bands);
            assert(a@.ranges =~= m.ranges);
        }
        a
    }

    /// The state of the bands.
    pub fn bands(&self) -> (b: &Vec<BandState>)
        ensures
            b@.map_values(|s: BandState| s@) == self@.bands,
    {
        &self.bands
    }

    /// No band ends below its beginning, so that hops can be processed.
    pub fn in_order(&self) -> (r: bool)
        requires
            self.well_formed(),
        ensures
            r == self@.in_order(),
    {
        let mut i: usize = 0;
        while i < 4
            invariant
                i <= 4,
                self.well_formed(),
                forall|j: int| 0 <= j < i ==> (#[trigger] self@.bands[j]).is_ordered(),
            decreases 4 - i,
        {
            let (a, b) = self.bands[i].bin_range;
            assert(self@.bands[i as int] == self.bands@[i as int]@);
            if a > b {
                return false;
            }
            i = i + 1;
        }
        true
    }

    /// Applies new settings in place; everything that was learned stays, so that live tuning never
    /// resets the detection.
    pub fn set_config(&mut self, config: AnalyzerConfig)
        requires
            old(self).well_formed(),
        ensures
            final(self).well_formed(),
            final(self)@ == old(self)@.configured(config),
    {
        let ghost before = *self;
        let width = self.sample_rate.over(Single::from_whole(FFT_SIZE as u64));
        let mut i: usize = 0;
        while i < 4
            invariant
                i <= 4,
                before.well_formed(),
                width == bin_width(before.sample_rate),
                *self == (Analyzer { bands: self.bands, ..before }),
                self.bands@.len() == 4,
                forall|j: int| i <= j < 4 ==> self.bands@[j] == before.bands@[j],
                forall|j: int|
                    0 <= j < i ==> (#[trigger] self.bands@[j]).in_range() && self.bands@[j]@ == (
                    BandModel {
                        bins: band_bins(config, before.sample_rate, j),
                        ..before.bands@[j]@
                    }),
            decreases 4 - i,
        {
            let lo: usize = bin_for(config.bands.edges[i], width);
            let hi: usize = bin_for(config.bands.edges[i + 1], width);
            proof {
                before.lemma_parts();
                assert(band_bins(config, before.sample_rate, i as int) == (lo as nat, hi as nat));
            }
            self.bands[i].bin_range = (lo, hi);
            i = i + 1;
        }
        self.config = config;
        assert(self@.bands =~= before@.configured(config).bands);
    }

    /// Takes in mono samples.
    pub fn feed(&mut self, samples: &[Single])
        requires
            old(self).well_formed(),
        ensures
            final(self).well_formed(),
            final(self)@ == (AnalyzerModel {
                pending: old(self)@.pending + samples@,
                ..old(self)@
            }),
    {
        let ghost before = *self;
        let mut i: usize = 0;
        while i < samples.len()
            invariant
                i <= samples@.len(),
                *self == (Analyzer { pending: self.pending, ..before }),
                self.pending@ == before.pending@ + samples@.take(i as int),
            decreases samples@.len() - i,
        {
            self.pending.push(samples[i]);
            i = i + 1;
            assert(self.pending@ =~= before.pending@ + samples@.take(i as int));
        }
        assert(samples@.take(i as int) =~= samples@);
    }

    /// The samples of the next transform, once a hop is complete.
    pub fn next_window(&mut self) -> (r: Option<Vec<Single>>)
        requires
            old(self).well_formed(),
            !old(self)@.transforming,
            old(self)@.samples + HOP_SIZE <= u64::MAX,
        ensures
            final(self).well_formed(),
            r is Some == (old(self)@.pending.len() >= HOP_SIZE),
            r is None ==> final(self)@ == old(self)@,
            r matches Some(w) ==> final(self)@ == old(self)@.slid() && w@ == final(self)@.windowed(),
    {
        if self.pending.len() < HOP_SIZE {
            return None;
        }
        let ghost before = *self;
        let mut i: usize = 0;
        while i < FFT_SIZE - HOP_SIZE
            invariant
                i <= FFT_SIZE - HOP_SIZE,
                before.well_formed(),
                *self == (Analyzer { input: self.input, ..before }),
                self.input@.len() == FFT_SIZE,
                forall|j: int| 0 <= j < i ==> #[trigger] self.input@[j] == before.input@[j + HOP_SIZE],
                forall|j: int| i <= j < FFT_SIZE ==> self.input@[j] == before.input@[j],
            decreases FFT_SIZE - HOP_SIZE - i,
        {
            let s = self.input[i + HOP_SIZE];
            self.input[i] = s;
            i = i + 1;
        }
        let mut k: usize = 0;
        while k < HOP_SIZE
            invariant
                k <= HOP_SIZE,
                before.well_formed(),
                before.pending@.len() >= HOP_SIZE,
                *self == (Analyzer { input: self.input, ..before }),
                self.input@.len() == FFT_SIZE,
                forall|j: int|
                    0 <= j < FFT_SIZE - HOP_SIZE ==> #[trigger] self.input@[j] == before.input@[j + HOP_SIZE],
                forall|j: int|
                    FFT_SIZE - HOP_SIZE <= j < FFT_SIZE - HOP_SIZE + k ==> #[trigger] self.input@[j]
                        == before.pending@[j - (FFT_SIZE - HOP_SIZE)],
            decreases HOP_SIZE - k,
        {
            let s = self.pending[k];
            self.input[FFT_SIZE - HOP_SIZE + k] = s;
            k = k + 1;
        }
        let rest = self.pending.split_off(HOP_SIZE);
        self.pending = rest;
        assert(self.hop_count < u64::MAX) by (nonlinear_arith)
            requires self.total_samples == self.hop_count * 512, self.total_samples + 512 <= u64::MAX;
        self.total_samples = self.total_samples + HOP_SIZE as u64;
        self.hop_count = self.hop_count + 1;
        self.transforming = true;
        proof {
            let m = before@.slid();
            assert(self@.input =~= m.input);
            assert(self@.pending =~= m.pending);
        }
        let mut w: Vec<Single> = Vec::new();
        let mut i: usize = 0;
        while i < FFT_SIZE
            invariant
                i <= FFT_SIZE,
                self.input@.len() == FFT_SIZE,
                self.window@.len() == FFT_SIZE,
                w@.len() == i,
                forall|j: int|
                    0 <= j < i ==> #[trigger] w@[j] == self.input@[j].times(self.window@[j]),
            decreases FFT_SIZE - i,
        {
            w.push(self.input[i].times(self.window[i]));
            i = i + 1;
        }
        assert(w@ =~= self@.windowed());
        Some(w)
    }

    /// The centre of gravity of a spectrum.
    fn centroid(&self, mags: &Vec<Single>) -> (r: Single)
        requires
            mags@.len() == HALF,
        ensures
            r == centroid(mags@, bin_width(self@.rate)),
    {
        let width = self.sample_rate.over(Single::from_whole(FFT_SIZE as u64));
        let mut num = Single::from_whole(0);
        let mut den = Single::from_whole(0);
        let mut i: usize = 1;
        while i < HALF
            invariant
                1 <= i <= HALF,
                mags@.len() == HALF,
                num == moment(mags@, width, i as nat),
                den == mass(mags@, i as nat),
            decreases HALF - i,
        {
            let m = mags[i];
            num = num.plus(m.times(Single::from_whole(i as u64)).times(width));
            den = den.plus(m);
            i = i + 1;
        }
        if Single::ratio(1, 1000000000).lt(den) {
            num.over(den)
        } else {
            Single::from_whole(0)
        }
    }

    /// The level of the newest hop.
    fn level(&self) -> (r: Single)
        requires
            self.well_formed(),
        ensures
            r == level(self@.input.skip(FFT_SIZE - HOP_SIZE)),
    {
        let ghost hop = self.input@.skip(FFT_SIZE - HOP_SIZE);
        let ghost terms = squares(hop);
        let mut s = Single::from_whole(0);
        let mut i: usize = 0;
        proof {
            lemma_sum_ends(terms);
        }
        while i < HOP_SIZE
            invariant
                i <= HOP_SIZE,
                self.input@.len() == FFT_SIZE,
                hop == self.input@.skip(FFT_SIZE - HOP_SIZE),
                terms == squares(hop),
                s == sum_of(terms.take(i as int)),
            decreases HOP_SIZE - i,
        {
            proof {
                lemma_sum_step(terms, i as int);
            }
            let x = self.input[FFT_SIZE - HOP_SIZE + i];
            s = s.plus(x.times(x));
            i = i + 1;
        }
        s.over(Single::from_whole(HOP_SIZE as u64)).sqrt()
    }

    /// The displayed spectrum.
    fn display(&mut self, mags: &Vec<Single>) -> (v: Vec<Single>)
        requires
            old(self).well_formed(),
            mags@.len() == HALF,
        ensures
            final(self).well_formed(),
            v@ == displayed(mags@, old(self)@.ranges, old(self)@.spectrum_max).0,
            final(self)@ == (AnalyzerModel {
                spectrum_max: displayed(mags@, old(self)@.ranges, old(self)@.spectrum_max).1,
                ..old(self)@
            }),
    {
        let ghost before = *self;
        let ghost ranges = self@.ranges;
        let zero = Single::from_whole(0);
        let one = Single::from_whole(1);
        let decay = Single::ratio(9999, 10000);
        let mut v: Vec<Single> = Vec::new();
        let mut i: usize = 0;
        assert(ranges.take(0) =~= Seq::<(nat, nat)>::empty());
        while i < SPECTRUM_BINS
            invariant
                i <= SPECTRUM_BINS,
                before.well_formed(),
                mags@.len() == HALF,
                zero == Single::of_whole(0),
                one == Single::of_whole(1),
                decay == Single::fraction(9999, 10000),
                ranges == before@.ranges,
                *self == (Analyzer { spectrum_max: self.spectrum_max, ..before }),
                v@ == displayed(mags@, ranges.take(i as int), before.spectrum_max).0,
                self.spectrum_max == displayed(mags@, ranges.take(i as int), before.spectrum_max).1,
            decreases SPECTRUM_BINS - i,
        {
            let (a, b) = self.spectrum_ranges[i];
            proof {
                assert(ranges.take(i + 1).drop_last() =~= ranges.take(i as int));
                assert(ranges.take(i + 1).last() == (a as nat, b as nat));
            }
            let end: usize = if b < HALF { b } else { HALF };
            let x = sum_range(mags, a, end).over(Single::from_whole((b - a) as u64));
            self.spectrum_max = self.spectrum_max.times(decay).max(x);
            v.push(x.over(self.spectrum_max).clamp(zero, one));
            i = i + 1;
        }
        assert(ranges.take(i as int) =~= ranges);
        v
    }

    /// The onset flux of each band.
    fn fluxes(&self, mags: &Vec<Single>) -> (f: Vec<Single>)
        requires
            self.well_formed(),
            self@.in_order(),
            mags@.len() == HALF,
        ensures
            f@ == self@.fluxes(mags@),
    {
        let mut f: Vec<Single> = Vec::new();
        let mut i: usize = 0;
        while i < 4
            invariant
                i <= 4,
                self.well_formed(),
                self@.in_order(),
                mags@.len() == HALF,
                f@ == self@.fluxes(mags@).take(i as int),
            decreases 4 - i,
        {
            assert(self@.bands[i as int] == self.bands@[i as int]@);
            f.push(self.bands[i].flux(mags, &self.prev_mag));
            i = i + 1;
        }
        assert(self@.fluxes(mags@).take(4) =~= self@.fluxes(mags@));
        f
    }

    /// Takes one hop into each band.
    fn advance_bands(&mut self, mags: &Vec<Single>, f: &Vec<Single>, now: Double) -> (r: Vec<
        BandReading,
    >)
        requires
            old(self).well_formed(),
            old(self)@.in_order(),
            mags@.len() == HALF,
            f@ == old(self)@.fluxes(mags@),
            now == old(self)@.now(),
        ensures
            final(self).well_formed(),
            r@ == old(self)@.readings(mags@),
            final(self)@ == (AnalyzerModel {
                bands: old(self)@.processed(mags@).bands,
                ..old(self)@
            }),
    {
        let ghost before = *self;
        let total = sum_range(f, 0, 4);
        proof {
            assert(f@.subrange(0, 4) =~= f@);
            before.lemma_parts();
        }
        let mut r: Vec<BandReading> = Vec::new();
        let mut i: usize = 0;
        while i < 4
            invariant
                i <= 4,
                before.well_formed(),
                before@.in_order(),
                mags@.len() == HALF,
                f@ == before@.fluxes(mags@),
                now == before@.now(),
                total == sum_of(f@),
                *self == (Analyzer { bands: self.bands, ..before }),
                self.bands@.len() == 4,
                forall|j: int| 0 <= j < 4 ==> (#[trigger] self.bands@[j]).in_range(),
                forall|j: int| i <= j < 4 ==> self.bands@[j] == before.bands@[j],
                forall|j: int|
                    0 <= j < i ==> (#[trigger] self.bands@[j])@ == before@.processed(mags@).bands[j],
                r@ == before@.readings(mags@).take(i as int),
            decreases 4 - i,
        {
            assert(before@.bands[i as int] == before.bands@[i as int]@);
            let reading = self.bands[i].advance(&self.config, i, mags, f[i], total, now);
            r.push(reading);
            i = i + 1;
        }
        assert(self@.bands =~= before@.processed(mags@).bands);
        assert(before@.readings(mags@).take(4) =~= before@.readings(mags@));
        r
    }

    /// Follows the level of the newest hop.
    fn follow_level(&mut self) -> (relative: Single)
        requires
            old(self).well_formed(),
        ensures
            final(self).well_formed(),
            relative == old(self)@.relative_level(),
            final(self)@ == (AnalyzerModel {
                rms_env: old(self)@.envelope(),
                rms_max: old(self)@.level_peak(),
                ..old(self)@
            }),
    {
        let rms = self.level();
        self.rms_max = self.rms_max.times(Single::ratio(99997, 100000)).max(rms).max(
            Single::ratio(1, 10000),
        );
        let relative = rms.over(self.rms_max).clamp(Single::from_whole(0), Single::from_whole(1));
        let coef = if self.rms_env.lt(relative) {
            Single::ratio(3, 10)
        } else {
            Single::ratio(5, 1000)
        };
        self.rms_env = self.rms_env.plus(relative.minus(self.rms_env).times(coef));
        relative
    }

    /// Adds a hop to the onset envelope, and estimates the tempo where that is due.
    fn follow_tempo(&mut self, f: &Vec<Single>, Ghost(mags): Ghost<Seq<Single>>) -> (t: Option<
        TempoEstimate,
    >)
        requires
            old(self).well_formed(),
            f@ == old(self)@.fluxes(mags),
        ensures
            final(self).well_formed(),
            t == old(self)@.tempo_after(mags).1,
            final(self)@ == (AnalyzerModel {
                tempo: old(self)@.tempo_after(mags).0,
                ..old(self)@
            }),
    {
        let onset = Single::from_whole(0).plus(f[0]).plus(f[1].times(Single::ratio(1, 2)));
        self.tempo.push(onset);
        if self.hop_count % TEMPO_RECALC_HOPS == 0 {
            self.tempo.estimate_tempo()
        } else {
            None
        }
    }

    /// Remembers the magnitudes for the next hop.
    fn keep(&mut self, mags: &Vec<Single>)
        requires
            old(self).well_formed(),
            mags@.len() == HALF,
        ensures
            final(self).well_formed(),
            final(self)@ == (AnalyzerModel { prev: mags@, transforming: false, ..old(self)@ }),
    {
        let mut prev: Vec<Single> = Vec::new();
        let mut i: usize = 0;
        while i < HALF
            invariant
                i <= HALF,
                mags@.len() == HALF,
                prev@ == mags@.take(i as int),
            decreases HALF - i,
        {
            prev.push(mags[i]);
            i = i + 1;
        }
        assert(prev@ =~= mags@);
        self.prev_mag = prev;
        self.transforming = false;
    }

    /// Finishes a hop with the magnitudes of its transform, of which the first is not used. The
    /// spectrum of the frame holds shares of the peak; the display curve is still to come.
    pub fn process_hop(&mut self, mags: &Vec<Single>) -> (out: HopOutput)
        requires
            old(self).well_formed(),
            old(self)@.transforming,
            old(self)@.in_order(),
            mags@.len() == HALF,
        ensures
            final(self).well_formed(),
            final(self)@ == old(self)@.processed(mags@),
            out@ == old(self)@.output(mags@),
    {
        let ghost before = self@;
        let now = Double::from_whole(self.total_samples).times(Double::from_whole(1000)).over(
            Double::from_single(self.sample_rate),
        );
        let spectral_centroid = self.centroid(mags);
        let f = self.fluxes(mags);
        let relative = self.follow_level();
        let spectrum = self.display(mags);
        proof {
            assert(self@.fluxes(mags@) =~= before.fluxes(mags@));
        }
        let tempo = self.follow_tempo(&f, Ghost(mags@));
        proof {
            assert(self@.fluxes(mags@) =~= before.fluxes(mags@));
            assert(self@.readings(mags@) =~= before.readings(mags@));
            assert(self@.processed(mags@).bands =~= before.processed(mags@).bands);
        }
        let r = self.advance_bands(mags, &f, now);
        let beats = collect_beats(&r);
        self.keep(mags);
        let frame = make_frame(
            now.to_whole(Whole::Floor),
            relative,
            self.rms_env,
            spectral_centroid,
            spectrum,
            &r,
        );
        HopOutput { frame, beats, tempo }
    }
}

/// The frame of a hop.
fn make_frame(
    timestamp_ms: u64,
    rms: Single,
    intensity: Single,
    spectral_centroid: Single,
    spectrum: Vec<Single>,
    r: &Vec<BandReading>,
) -> (frame: AnalysisFrame)
    requires
        r@.len() == 4,
    ensures
        frame@ == (FrameModel {
            timestamp_ms,
            rms,
            band_energy: r@.map_values(|b: BandReading| b.energy),
            intensity,
            spectral_centroid,
            spectrum: spectrum@,
            band_flux: r@.map_values(|b: BandReading| b.flux),
            band_threshold: r@.map_values(|b: BandReading| b.threshold),
            band_flux_mean: r@.map_values(|b: BandReading| b.mean),
            band_flux_std: r@.map_values(|b: BandReading| b.deviation),
            band_flux_max: r@.map_values(|b: BandReading| b.flux_max),
        }),
{
    let frame = AnalysisFrame {
        timestamp_ms,
        rms,
        band_energy: [r[0].energy, r[1].energy, r[2].energy, r[3].energy],
        intensity,
        spectral_centroid,
        spectrum,
        band_flux: [r[0].flux, r[1].flux, r[2].flux, r[3].flux],
        band_threshold: [r[0].threshold, r[1].threshold, r[2].threshold, r[3].threshold],
        band_flux_mean: [r[0].mean, r[1].mean, r[2].mean, r[3].mean],
        band_flux_std: [r[0].deviation, r[1].deviation, r[2].deviation, r[3].deviation],
        band_flux_max: [r[0].flux_max, r[1].flux_max, r[2].flux_max, r[3].flux_max],
    };
    proof {
        assert(frame@.band_energy =~= r@.map_values(|b: BandReading| b.energy));
        assert(frame@.band_flux =~= r@.map_values(|b: BandReading| b.flux));
        assert(frame@.band_threshold =~= r@.map_values(|b: BandReading| b.threshold));
        assert(frame@.band_flux_mean =~= r@.map_values(|b: BandReading| b.mean));
        assert(frame@.band_flux_std =~= r@.map_values(|b: BandReading| b.deviation));
        assert(frame@.band_flux_max =~= r@.map_values(|b: BandReading| b.flux_max));
    }
    frame
}

/// The beats of the bands in their order.
fn collect_beats(r: &Vec<BandReading>) -> (beats: Vec<BandBeatEvent>)
    ensures
        beats@ == beats_of(r@),
{
    let mut beats: Vec<BandBeatEvent> = Vec::new();
    let mut i: usize = 0;
    assert(r@.take(0) =~= Seq::<BandReading>::empty());
    while i < r.len()
        invariant
            i <= r@.len(),
            beats@ == beats_of(r@.take(i as int)),
        decreases r@.len() - i,
    {
        proof {
            assert(r@.take(i + 1).drop_last() =~= r@.take(i as int));
        }
        if let Some(b) = r[i].beat {
            beats.push(b);
        }
        i = i + 1;
    }
    assert(r@.take(i as int) =~= r@);
    beats
}

} // verus!
