//! Tempo estimation by autocorrelation of the onset envelope.
use std::collections::VecDeque;

use vstd::prelude::*;

use crate::core_types::{TempoEstimate, TempoSource};
use crate::order::{lemma_doubled, lemma_halved};
use crate::rounding::Whole;
use crate::single::{Single, INF};
use crate::sums::{lemma_sum_ends, lemma_sum_step, mean_of, squares, sum_of};

verus! {

/// Hops of the onset envelope that are kept, about 11 s.
pub const ONSET_ENVELOPE_LEN: usize = 1024;

/// Samples per hop.
pub const HOP_SIZE: usize = 512;

/// Hops per second.
pub open spec fn hop_rate(rate: Single) -> Single {
    rate.over(Single::of_whole(HOP_SIZE as nat))
}

/// The shortest period that is looked at, in hops: 200 beats per minute.
pub open spec fn lag_min(rate: Single) -> nat {
    hop_rate(rate).times(Single::of_whole(60)).over(Single::of_whole(200)).to_whole(
        Whole::Floor,
    ) as nat
}

/// The longest period that is looked at, in hops: 60 beats per minute.
pub open spec fn lag_max(rate: Single) -> nat {
    hop_rate(rate).times(Single::of_whole(60)).over(Single::of_whole(60)).to_whole(
        Whole::Ceil,
    ) as nat
}

/// The tempo of a period of `lag` hops.
pub open spec fn lag_tempo(rate: Single, lag: Single) -> Single {
    Single::of_whole(60).times(hop_rate(rate)).over(lag)
}

/// The number of periods that a table of weights has to cover: up to the longest that is looked
/// at, or none where the envelope is too short for it.
pub open spec fn lag_count(rate: Single) -> nat {
    if lag_max(rate) + 8 >= ONSET_ENVELOPE_LEN {
        0
    } else {
        lag_max(rate) + 1
    }
}

/// The envelope around its mean.
pub open spec fn centered(env: Seq<Single>) -> Seq<Single> {
    Seq::new(env.len(), |i: int| env[i].minus(mean_of(env)))
}

/// The products of the items that lie `lag` apart.
pub open spec fn lagged_products(c: Seq<Single>, lag: nat) -> Seq<Single> {
    Seq::new(
        if lag <= c.len() { (c.len() - lag) as nat } else { 0 },
        |i: int| c[lag + i].times(c[i]),
    )
}

/// The power of a centered envelope, kept away from zero.
pub open spec fn power(c: Seq<Single>) -> Single {
    sum_of(squares(c)).max(Single::fraction(1, 1000000000))
}

/// The autocorrelation at a period.
pub open spec fn correlation(c: Seq<Single>, lag: nat) -> Single {
    sum_of(lagged_products(c, lag)).over(power(c))
}

/// The score of a period: its correlation and half that of twice the period, so that the beat wins
/// over its subdivisions; where that is positive, times the weight of the period.
pub open spec fn lag_score(c: Seq<Single>, weights: Seq<Single>, lag: nat) -> Single {
    let s = correlation(c, lag);
    let t = if lag * 2 < c.len() - 8 {
        s.plus(Single::fraction(1, 2).times(correlation(c, lag * 2)))
    } else {
        s
    };
    if Single::of_whole(0).lt(t) {
        t.times(weights[lag as int])
    } else {
        t
    }
}

/// The scores of the periods from the shortest to the longest.
pub open spec fn lag_scores(c: Seq<Single>, weights: Seq<Single>, lo: nat, hi: nat) -> Seq<Single> {
    Seq::new(
        if lo <= hi { (hi - lo + 1) as nat } else { 0 },
        |i: int| lag_score(c, weights, (lo + i) as nat),
    )
}

pub open spec fn negative_infinity() -> Single {
    Single { bits: 0xff80_0000 }
}

/// The first largest score and its index.
pub open spec fn peak(scores: Seq<Single>) -> (Option<nat>, Single)
    decreases scores.len(),
{
    if scores.len() == 0 {
        (None, negative_infinity())
    } else {
        let p = peak(scores.drop_last());
        if p.1.lt(scores.last()) {
            (Some((scores.len() - 1) as nat), scores.last())
        } else {
            p
        }
    }
}

/// The distance of the top of the parabola through three neighbouring values from the middle one.
pub open spec fn vertex(y0: Single, y1: Single, y2: Single) -> Single {
    let denom = y0.minus(Single::of_whole(2).times(y1)).plus(y2);
    let half = Single::fraction(1, 2);
    if Single::fraction(1, 1000000000).lt(denom.abs()) {
        half.times(y0.minus(y2)).over(denom).clamp(half.neg(), half)
    } else {
        Single::of_whole(0)
    }
}

/// A tempo below 70 is doubled until it is not.
pub open spec fn raised(bpm: Single) -> Single
    decreases INF - bpm.magnitude(),
{
    if bpm.lt(Single::of_whole(70)) && Single::of_whole(0).lt(bpm) {
        proof {
            lemma_below(bpm, Single::of_whole(0), Single::of_whole(70));
            lemma_doubled(bpm);
        }
        raised(bpm.times(Single::of_whole(2)))
    } else {
        bpm
    }
}

/// A tempo above 200 is halved until it is not. The bound is no lower, since that would fold
/// tracks at 195 into the range of hip hop.
pub open spec fn lowered(bpm: Single) -> Single
    decreases bpm.magnitude(),
{
    if Single::of_whole(200).lt(bpm) && bpm.is_finite() {
        proof {
            lemma_above(bpm);
            lemma_halved(bpm);
        }
        lowered(bpm.over(Single::of_whole(2)))
    } else {
        bpm
    }
}

/// A number between two others is plain, where the lower one is zero.
pub proof fn lemma_below(x: Single, lo: Single, hi: Single)
    requires
        lo == Single::of_whole(0),
        lo.lt(x),
        x.lt(hi),
    ensures
        x.is_plain(),
        x.magnitude() > 0,
{
    crate::order::lemma_whole_exact(0);
    crate::order::lemma_worth(lo, lo);
    vstd::arithmetic::power2::lemma_pow2_pos(149);
}

/// A finite number above 200 is plain.
pub proof fn lemma_above(x: Single)
    requires
        Single::of_whole(200).lt(x),
        x.is_finite(),
    ensures
        x.is_plain(),
        x.magnitude() > 1,
{
    crate::order::lemma_whole_exact(200);
    crate::order::lemma_whole_exact(0);
    crate::order::lemma_worth(Single::of_whole(200), Single::of_whole(0));
    vstd::arithmetic::power2::lemma_pow2_pos(149);
    assert(200 * vstd::arithmetic::power2::pow2(149) > 0) by (nonlinear_arith)
        requires vstd::arithmetic::power2::pow2(149) > 0;
}

/// The tempo at a peak of the autocorrelation, refined between hops and brought into the range of
/// dance music.
pub open spec fn peak_tempo(c: Seq<Single>, rate: Single, lag: nat) -> Single {
    let y0 = correlation(c, if lag > 0 { (lag - 1) as nat } else { 0 });
    let y1 = correlation(c, lag);
    let y2 = correlation(c, lag + 1);
    let refined = Single::of_whole(lag).plus(vertex(y0, y1, y2));
    lowered(raised(lag_tempo(rate, refined)))
}

/// A reading of the tempo: what the envelope says, and how sure it is. None where the envelope is
/// too short or has no period.
pub open spec fn reading(env: Seq<Single>, rate: Single, weights: Seq<Single>) -> Option<
    (Single, Single),
> {
    if env.len() < ONSET_ENVELOPE_LEN / 2 || lag_max(rate) + 8 >= env.len() {
        None
    } else {
        let c = centered(env);
        let (k, score) = peak(lag_scores(c, weights, lag_min(rate), lag_max(rate)));
        match k {
            Some(i) => {
                let lag = lag_min(rate) + i;
                let zero = Single::of_whole(0);
                if lag == 0 || score.le(zero) {
                    None
                } else {
                    Some(
                        (
                            peak_tempo(c, rate, lag),
                            correlation(c, lag).max(zero).clamp(zero, Single::of_whole(1)),
                        ),
                    )
                }
            },
            None => None,
        }
    }
}

/// What the tracker remembers.
pub struct TempoModel {
    pub rate: Single,
    /// The weight of each period in hops.
    pub weights: Seq<Single>,
    pub onsets: Seq<Single>,
    pub bpm: Single,
    pub confidence: Single,
    /// Readings in a row that were far from the tempo.
    pub outliers: nat,
}

impl TempoModel {
    /// The smoothed tempo and the count of outliers after a reading: a near reading pulls the
    /// tempo a quarter of the way; a far one counts, and the fourth in a row replaces it.
    pub open spec fn smoothed(self, bpm: Single) -> (Single, nat) {
        let off = bpm.minus(self.bpm);
        if self.bpm.le(Single::of_whole(0)) {
            (bpm, self.outliers)
        } else if off.abs().lt(Single::of_whole(4)) {
            (self.bpm.plus(off.times(Single::fraction(1, 4))), 0)
        } else if self.outliers + 1 >= 4 {
            (bpm, 0)
        } else {
            (self.bpm, self.outliers + 1)
        }
    }

    /// The envelope with one value more, the oldest dropped when it is full.
    pub open spec fn pushed(self, onset: Single) -> TempoModel {
        let kept = if self.onsets.len() >= ONSET_ENVELOPE_LEN {
            self.onsets.skip(1)
        } else {
            self.onsets
        };
        TempoModel { onsets: kept.push(onset), ..self }
    }

    /// The tracker after an estimate, and the estimate.
    pub open spec fn estimated(self) -> (TempoModel, Option<TempoEstimate>) {
        match reading(self.onsets, self.rate, self.weights) {
            None => (self, None),
            Some((bpm, confidence)) => {
                let (next, outliers) = self.smoothed(bpm);
                (
                    TempoModel { bpm: next, confidence, outliers, ..self },
                    Some(TempoEstimate { bpm: next, confidence, source: TempoSource::Detector }),
                )
            },
        }
    }
}

/// Follows the tempo of an onset envelope.
pub struct TempoTracker {
    rate: Single,
    weights: Vec<Single>,
    onsets: VecDeque<Single>,
    bpm: Single,
    confidence: Single,
    outliers: u32,
}

impl View for TempoTracker {
    type V = TempoModel;

    closed spec fn view(&self) -> TempoModel {
        TempoModel {
            rate: self.rate,
            weights: self.weights@,
            onsets: self.onsets@,
            bpm: self.bpm,
            confidence: self.confidence,
            outliers: self.outliers as nat,
        }
    }
}

/// The tempo of each period that a table of weights has to cover, by its length in hops.
pub fn lag_tempos(rate: Single) -> (t: Vec<Single>)
    ensures
        t@.len() == lag_count(rate),
        forall|i: int| 0 <= i < t@.len() ==> #[trigger] t@[i] == lag_tempo(rate, Single::of_whole(i as nat)),
{
    let per_second = rate.over(Single::from_whole(HOP_SIZE as u64));
    let sixty = Single::from_whole(60);
    let hi: u64 = per_second.times(sixty).over(sixty).to_whole(Whole::Ceil);
    let mut t: Vec<Single> = Vec::new();
    if hi >= 1016 {
        return t;
    }
    let mut i: u64 = 0;
    while i <= hi
        invariant
            i <= hi + 1,
            hi < 1016,
            hi == lag_max(rate),
            sixty == Single::of_whole(60),
            per_second == hop_rate(rate),
            t@.len() == i,
            forall|j: int| 0 <= j < i ==> #[trigger] t@[j] == lag_tempo(rate, Single::of_whole(j as nat)),
        decreases hi + 1 - i,
    {
        t.push(sixty.times(per_second).over(Single::from_whole(i)));
        i = i + 1;
    }
    t
}

/// A tempo by the middle of the range of dance music, 128 beats per minute.
pub fn tempo_ratio(bpm: Single) -> (r: Single)
    ensures
        r == bpm.over(Single::of_whole(128)),
{
    bpm.over(Single::from_whole(128))
}

/// The logarithm of the weight of a tempo that lies some octaves from the middle: a bell curve with
/// a width of 0.9 octaves.
pub open spec fn bell(octaves: Single) -> Single {
    let x = octaves.over(Single::fraction(9, 10));
    Single::fraction(1, 2).neg().times(x).times(x)
}

/// The natural logarithm of the weight of a tempo, from the binary logarithm of its ratio to the
/// middle.
pub fn weight_exponent(log2_of_ratio: Single) -> (x: Single)
    ensures
        x == bell(log2_of_ratio),
{
    let x = log2_of_ratio.over(Single::ratio(9, 10));
    Single::ratio(1, 2).neg().times(x).times(x)
}

/// The envelope around its mean.
fn center(env: &VecDeque<Single>) -> (c: Vec<Single>)
    requires
        0 < env@.len() <= ONSET_ENVELOPE_LEN,
    ensures
        c@ == centered(env@),
{
    let n: usize = env.len();
    let mut s = Single::from_whole(0);
    let mut i: usize = 0;
    proof {
        lemma_sum_ends(env@);
    }
    while i < n
        invariant
            i <= n == env@.len(),
            s == sum_of(env@.take(i as int)),
        decreases n - i,
    {
        proof {
            lemma_sum_step(env@, i as int);
        }
        s = s.plus(env[i]);
        i = i + 1;
    }
    let mean = s.over(Single::from_whole(n as u64));
    let mut c: Vec<Single> = Vec::new();
    let mut j: usize = 0;
    while j < n
        invariant
            j <= n == env@.len(),
            mean == mean_of(env@),
            c@ == centered(env@).take(j as int),
        decreases n - j,
    {
        c.push(env[j].minus(mean));
        j = j + 1;
    }
    assert(centered(env@).take(n as int) =~= centered(env@));
    c
}

/// The sum of the products of the items that lie `lag` apart.
fn correlate(c: &Vec<Single>, lag: usize) -> (s: Single)
    requires
        lag <= c@.len(),
    ensures
        s == sum_of(lagged_products(c@, lag as nat)),
{
    let ghost terms = lagged_products(c@, lag as nat);
    let mut s = Single::from_whole(0);
    let mut i: usize = lag;
    proof {
        lemma_sum_ends(terms);
    }
    while i < c.len()
        invariant
            lag <= i <= c@.len(),
            terms == lagged_products(c@, lag as nat),
            s == sum_of(terms.take(i - lag)),
        decreases c@.len() - i,
    {
        proof {
            lemma_sum_step(terms, i - lag);
        }
        s = s.plus(c[i].times(c[i - lag]));
        i = i + 1;
    }
    s
}

/// The period with the best score.
fn best_lag(c: &Vec<Single>, weights: &Vec<Single>, acf0: Single, lo: usize, hi: usize) -> (r: (
    Option<usize>,
    Single,
))
    requires
        hi + 8 < c@.len() <= ONSET_ENVELOPE_LEN,
        weights@.len() > hi,
        acf0 == power(c@),
    ensures
        ({
            let p = peak(lag_scores(c@, weights@, lo as nat, hi as nat));
            &&& r.1 == p.1
            &&& r.0 is Some == p.0 is Some
            &&& r.0 matches Some(k) ==> k == lo + p.0->0 && k <= hi
        }),
{
    let n: usize = c.len();
    let zero = Single::from_whole(0);
    let half = Single::ratio(1, 2);
    let ghost scores = lag_scores(c@, weights@, lo as nat, hi as nat);
    let mut best: Option<usize> = None;
    let mut best_score = Single { bits: 0xff80_0000 };
    let mut lag: usize = lo;
    assert(scores.take(0) =~= Seq::<Single>::empty());
    while lag <= hi
        invariant
            n == c@.len(),
            hi + 8 < n <= ONSET_ENVELOPE_LEN,
            weights@.len() > hi,
            acf0 == power(c@),
            zero == Single::of_whole(0),
            half == Single::fraction(1, 2),
            scores == lag_scores(c@, weights@, lo as nat, hi as nat),
            lo <= lag,
            lag <= hi + 1 || lag == lo,
            lo <= hi ==> lag - lo <= scores.len(),
            lo > hi ==> lag == lo && scores.len() == 0,
            ({
                let p = peak(scores.take(lag - lo));
                &&& best_score == p.1
                &&& best is Some == p.0 is Some
                &&& best matches Some(k) ==> k == lo + p.0->0 && k <= hi
            }),
        decreases hi + 1 - lag,
    {
        let mut score = correlate(c, lag).over(acf0);
        let double: usize = lag * 2;
        if double < n - 8 {
            score = score.plus(half.times(correlate(c, double).over(acf0)));
        }
        if zero.lt(score) {
            score = score.times(weights[lag]);
        }
        proof {
            let k = lag - lo;
            assert(scores[k] == score);
            assert(scores.take(k + 1).drop_last() =~= scores.take(k));
            assert(scores.take(k + 1).last() == score);
        }
        if best_score.lt(score) {
            best_score = score;
            best = Some(lag);
        }
        lag = lag + 1;
    }
    assert(scores.take(scores.len() as int) =~= scores);
    (best, best_score)
}

/// Brings a tempo into the range of dance music.
fn fold_tempo(tempo: Single) -> (r: Single)
    ensures
        r == lowered(raised(tempo)),
{
    let zero = Single::from_whole(0);
    let two = Single::from_whole(2);
    let low = Single::from_whole(70);
    let high = Single::from_whole(200);
    let infinity = Single { bits: 0x7f80_0000 };
    let mut bpm = tempo;
    while bpm.lt(low) && zero.lt(bpm)
        invariant
            zero == Single::of_whole(0),
            two == Single::of_whole(2),
            low == Single::of_whole(70),
            raised(bpm) == raised(tempo),
        decreases INF - bpm.magnitude(),
    {
        proof {
            lemma_below(bpm, zero, low);
            lemma_doubled(bpm);
        }
        bpm = bpm.times(two);
    }
    while high.lt(bpm) && bpm.lt(infinity)
        invariant
            two == Single::of_whole(2),
            high == Single::of_whole(200),
            infinity == (Single { bits: 0x7f80_0000 }),
            lowered(bpm) == lowered(raised(tempo)),
        decreases bpm.magnitude(),
    {
        proof {
            lemma_above(bpm);
            lemma_halved(bpm);
        }
        bpm = bpm.over(two);
    }
    proof {
        if high.lt(bpm) && bpm.is_finite() {
            lemma_above(bpm);
        }
    }
    bpm
}

impl TempoTracker {
    /// The envelope is never longer than it should be, and there is a weight for each period that
    /// is looked at.
    #[verifier::type_invariant]
    spec fn sized(self) -> bool {
        &&& self.onsets@.len() <= ONSET_ENVELOPE_LEN
        &&& self.outliers < 4
        &&& self.weights@.len() == lag_count(self.rate)
    }

    /// A tracker for audio at a sample rate, with a weight for each period of `lag_tempos`.
    pub fn new(rate: Single, weights: Vec<Single>) -> (t: TempoTracker)
        requires
            weights@.len() == lag_count(rate),
        ensures
            t@ == (TempoModel {
                rate,
                weights: weights@,
                onsets: Seq::empty(),
                bpm: Single::of_whole(0),
                confidence: Single::of_whole(0),
                outliers: 0,
            }),
    {
        TempoTracker {
            rate,
            weights,
            onsets: VecDeque::with_capacity(ONSET_ENVELOPE_LEN),
            bpm: Single::from_whole(0),
            confidence: Single::from_whole(0),
            outliers: 0,
        }
    }

    /// Adds one hop to the envelope.
    pub fn push(&mut self, onset: Single)
        ensures
            final(self)@ == old(self)@.pushed(onset),
    {
        proof {
            use_type_invariant(&*self);
        }
        let ghost before = self@;
        let mut onsets = VecDeque::new();
        std::mem::swap(&mut onsets, &mut self.onsets);
        if onsets.len() >= ONSET_ENVELOPE_LEN {
            onsets.pop_front();
            assert(onsets@ =~= before.onsets.skip(1));
        }
        onsets.push_back(onset);
        self.onsets = onsets;
    }

    /// Estimates the tempo from the envelope.
    pub fn estimate_tempo(&mut self) -> (r: Option<TempoEstimate>)
        ensures
            final(self)@ == old(self)@.estimated().0,
            r == old(self)@.estimated().1,
    {
        proof {
            use_type_invariant(&*self);
        }
        let n: usize = self.onsets.len();
        if n < ONSET_ENVELOPE_LEN / 2 {
            return None;
        }
        let zero = Single::from_whole(0);
        let one = Single::from_whole(1);
        let sixty = Single::from_whole(60);
        let per_second = self.rate.over(Single::from_whole(HOP_SIZE as u64));
        let per_minute = per_second.times(sixty);
        let lo: u64 = per_minute.over(Single::from_whole(200)).to_whole(Whole::Floor);
        let hi: u64 = per_minute.over(sixty).to_whole(Whole::Ceil);
        if hi >= n as u64 - 8 {
            return None;
        }
        let c = center(&self.onsets);
        let acf0 = correlate(&c, 0).max(Single::ratio(1, 1000000000));
        proof {
            assert(lagged_products(c@, 0) =~= squares(c@));
        }
        let lo: usize = if lo <= hi { lo as usize } else { n };
        let (best, score) = best_lag(&c, &self.weights, acf0, lo, hi as usize);
        proof {
            if lo == n {
                assert(lag_scores(c@, self.weights@, n as nat, hi as nat) =~= lag_scores(
                    c@,
                    self.weights@,
                    lag_min(self.rate),
                    hi as nat,
                ));
            }
        }
        let lag: usize = match best {
            Some(k) => k,
            None => {
                return None;
            },
        };
        if lag == 0 || score.le(zero) {
            return None;
        }
        let y0 = correlate(&c, lag - 1).over(acf0);
        let y1 = correlate(&c, lag).over(acf0);
        let y2 = correlate(&c, lag + 1).over(acf0);
        let half = Single::ratio(1, 2);
        let denom = y0.minus(Single::from_whole(2).times(y1)).plus(y2);
        let delta = if Single::ratio(1, 1000000000).lt(denom.abs()) {
            half.times(y0.minus(y2)).over(denom).clamp(half.neg(), half)
        } else {
            zero
        };
        let refined = Single::from_whole(lag as u64).plus(delta);
        let bpm = fold_tempo(sixty.times(per_second).over(refined));
        let confidence = y1.max(zero).clamp(zero, one);
        assert(reading(self.onsets@, self.rate, self.weights@) == Some((bpm, confidence)));
        let off = bpm.minus(self.bpm);
        if self.bpm.le(zero) {
            self.bpm = bpm;
        } else if off.abs().lt(Single::from_whole(4)) {
            self.bpm = self.bpm.plus(off.times(Single::ratio(1, 4)));
            self.outliers = 0;
        } else if self.outliers + 1 >= 4 {
            self.bpm = bpm;
            self.outliers = 0;
        } else {
            self.outliers = self.outliers + 1;
        }
        self.confidence = confidence;
        Some(TempoEstimate { bpm: self.bpm, confidence, source: TempoSource::Detector })
    }
}

} // verus!
