//! Genre rules: scores for each genre from tempo and spectral features.
use vstd::prelude::*;

use crate::core_types::Genre;
use crate::single::Single;

verus! {

/// Features over a recent window of some seconds.
#[derive(Debug, Clone, Copy)]
pub struct Features {
    pub bpm: Single,
    /// Confidence of the tempo estimate, 0 to 1.
    pub bpm_confidence: Single,
    /// Average energy per band, 0 to 1: low, low-mid, high-mid, high.
    pub band_energy: [Single; 4],
    /// Low-band beats per second over the window: kick density.
    pub kick_density: Single,
    /// High-mid-band beats per second: snare and clap density.
    pub snare_density: Single,
    /// High-band beats per second: hat density.
    pub hat_density: Single,
    /// BPM implied by the median interval between kicks; 0 when unknown.
    pub kick_ibi_bpm: Single,
    /// How periodic the kick intervals are, 0 to 1.
    pub kick_regularity: Single,
    /// Average spectral centroid in Hz.
    pub centroid: Single,
    /// Average loudness envelope, 0 to 1.
    pub intensity: Single,
}

impl Features {
    pub open spec fn zero() -> Features {
        let z = Single::of_whole(0);
        Features {
            bpm: z,
            bpm_confidence: z,
            band_energy: [z, z, z, z],
            kick_density: z,
            snare_density: z,
            hat_density: z,
            kick_ibi_bpm: z,
            kick_regularity: z,
            centroid: z,
            intensity: z,
        }
    }
}

impl Default for Features {
    fn default() -> (f: Features)
        ensures
            f == Features::zero(),
    {
        let z = Single::from_whole(0);
        Features {
            bpm: z,
            bpm_confidence: z,
            band_energy: [z, z, z, z],
            kick_density: z,
            snare_density: z,
            hat_density: z,
            kick_ibi_bpm: z,
            kick_regularity: z,
            centroid: z,
            intensity: z,
        }
    }
}

/// The decimal number of `n` hundredths.
pub open spec fn hundredths(n: nat) -> Single {
    Single::fraction(n, 100)
}

pub(crate) fn decimal(n: u64) -> (r: Single)
    ensures
        r == hundredths(n as nat),
{
    Single::ratio(n, 100)
}

/// Membership of `x` in a range: 1 from `lo_full` to `hi_full`, falling to 0 at `lo_zero` and
/// `hi_zero`.
#[verifier::opaque]
pub open spec fn membership(
    x: Single,
    lo_zero: Single,
    lo_full: Single,
    hi_full: Single,
    hi_zero: Single,
) -> Single {
    if x.le(lo_zero) || hi_zero.le(x) {
        Single::of_whole(0)
    } else if x.lt(lo_full) {
        x.minus(lo_zero).over(lo_full.minus(lo_zero))
    } else if x.le(hi_full) {
        Single::of_whole(1)
    } else {
        hi_zero.minus(x).over(hi_zero.minus(hi_full))
    }
}

/// Trapezoid-shaped membership of `x` in a range.
pub fn trapezoid(
    x: Single,
    lo_zero: Single,
    lo_full: Single,
    hi_full: Single,
    hi_zero: Single,
) -> (r: Single)
    ensures
        r == membership(x, lo_zero, lo_full, hi_full, hi_zero),
{
    proof {
        reveal(membership);
    }
    if x.le(lo_zero) || hi_zero.le(x) {
        Single::from_whole(0)
    } else if x.lt(lo_full) {
        x.minus(lo_zero).over(lo_full.minus(lo_zero))
    } else if x.le(hi_full) {
        Single::from_whole(1)
    } else {
        hi_zero.minus(x).over(hi_zero.minus(hi_full))
    }
}

/// The sum of the weights, from the first on.
pub open spec fn total_weight(terms: Seq<(Single, Single)>) -> Single
    decreases terms.len(),
{
    if terms.len() == 0 {
        Single::of_whole(0)
    } else {
        total_weight(terms.drop_last()).plus(terms.last().0)
    }
}

/// The sum of the weighted values, each brought into the range 0 to 1.
pub open spec fn weighted_sum(terms: Seq<(Single, Single)>) -> Single
    decreases terms.len(),
{
    if terms.len() == 0 {
        Single::of_whole(0)
    } else {
        let (w, v) = terms.last();
        weighted_sum(terms.drop_last()).plus(
            w.times(v.clamp(Single::of_whole(0), Single::of_whole(1))),
        )
    }
}

/// The weighted mean of terms `(weight, value)`.
pub open spec fn weighted_mean(terms: Seq<(Single, Single)>) -> Single {
    if total_weight(terms).le(Single::of_whole(0)) {
        Single::of_whole(0)
    } else {
        weighted_sum(terms).over(total_weight(terms))
    }
}

/// The weighted mean of 0..1 evidence terms.
pub fn evidence(terms: &Vec<(Single, Single)>) -> (r: Single)
    ensures
        r == weighted_mean(terms@),
{
    let zero = Single::from_whole(0);
    let one = Single::from_whole(1);
    let mut weights = zero;
    let mut values = zero;
    let mut i: usize = 0;
    while i < terms.len()
        invariant
            i <= terms@.len(),
            zero == Single::of_whole(0),
            one == Single::of_whole(1),
            weights == total_weight(terms@.take(i as int)),
            values == weighted_sum(terms@.take(i as int)),
        decreases terms@.len() - i,
    {
        proof {
            assert(terms@.take(i + 1).drop_last() =~= terms@.take(i as int));
        }
        let (w, v) = terms[i];
        weights = weights.plus(w);
        values = values.plus(w.times(v.clamp(zero, one)));
        i = i + 1;
    }
    assert(terms@.take(i as int) =~= terms@);
    if weights.le(zero) {
        zero
    } else {
        values.over(weights)
    }
}

/// The tempo doubled where the kicks say that the detector locked onto half of it: the kick grid
/// runs at about twice the detected tempo, and either it is regular or the rate of kicks agrees.
pub open spec fn corrected_tempo(f: Features) -> Single {
    let zero = Single::of_whole(0);
    let ratio = f.kick_ibi_bpm.over(f.bpm);
    let rate_ratio = f.kick_density.times(Single::of_whole(60)).over(f.bpm);
    if zero.lt(f.bpm) && zero.lt(f.kick_ibi_bpm) && hundredths(180).le(ratio) && ratio.le(
        hundredths(220),
    ) && (hundredths(50).lt(f.kick_regularity) || hundredths(160).lt(rate_ratio)) {
        f.bpm.times(Single::of_whole(2))
    } else {
        f.bpm
    }
}

/// How much the kicks run on every beat of a tempo.
pub open spec fn grid_score(f: Features, bpm: Single) -> Single {
    let zero = Single::of_whole(0);
    if zero.lt(bpm) && zero.lt(f.kick_ibi_bpm) {
        f.kick_regularity.times(
            membership(
                f.kick_ibi_bpm.over(bpm),
                hundredths(82),
                hundredths(92),
                hundredths(108),
                hundredths(122),
            ),
        )
    } else {
        zero
    }
}

/// The octave-corrected tempo and a score from 0 to 1 for four-on-the-floor.
///
/// The tempo detector can lock onto half the true tempo; a regular kick grid that runs at about
/// twice the detected tempo shows it, so the kicks are trusted and the tempo is doubled.
pub fn rhythm_context(f: &Features) -> (r: (Single, Single))
    ensures
        r.0 == corrected_tempo(*f),
        r.1 == grid_score(*f, corrected_tempo(*f)),
{
    let zero = Single::from_whole(0);
    let mut bpm = f.bpm;
    if zero.lt(bpm) && zero.lt(f.kick_ibi_bpm) {
        let ratio = f.kick_ibi_bpm.over(bpm);
        let rate_ratio = f.kick_density.times(Single::from_whole(60)).over(bpm);
        if decimal(180).le(ratio) && ratio.le(decimal(220)) && (decimal(50).lt(f.kick_regularity)
            || decimal(160).lt(rate_ratio)) {
            bpm = bpm.times(Single::from_whole(2));
        }
    }
    let four_floor = if zero.lt(bpm) && zero.lt(f.kick_ibi_bpm) {
        f.kick_regularity.times(
            trapezoid(
                f.kick_ibi_bpm.over(bpm),
                decimal(82),
                decimal(92),
                decimal(108),
                decimal(122),
            ),
        )
    } else {
        zero
    };
    (bpm, four_floor)
}

/// What the rules read off the features.
#[derive(Debug, Clone, Copy)]
pub struct Cues {
    /// The octave-corrected tempo.
    pub bpm: Single,
    /// Kicks on every beat.
    pub four_floor: Single,
    /// The opposite of it.
    pub breakbeat: Single,
    /// Breakbeat kicks that were in fact detected.
    pub syncopation: Single,
    /// How dominant the low band is relative to the rest of the mix.
    pub bass_heavy: Single,
    /// A dark mix; full mixes have centroids of about 2 to 5 kHz.
    pub dark: Single,
    /// A bright mix.
    pub bright_hi: Single,
    /// A warm midrange mix, between the two.
    pub warm: Single,
    /// Few hats.
    pub hats_sparse: Single,
    /// A hat groove.
    pub hats_groove: Single,
    /// Busy hats.
    pub hats_busy: Single,
    /// Snares and claps.
    pub snares: Single,
    /// Low intensity.
    pub quiet: Single,
    /// High intensity.
    pub loud: Single,
}

impl Cues {
    pub open spec fn of(f: Features) -> Cues {
        let zero = Single::of_whole(0);
        let bpm = corrected_tempo(f);
        let four_floor = grid_score(f, bpm);
        let breakbeat = Single::of_whole(1).minus(four_floor);
        let energy = f.band_energy[0].plus(f.band_energy[1]).plus(f.band_energy[2]).plus(
            f.band_energy[3],
        );
        Cues {
            bpm,
            four_floor,
            breakbeat,
            syncopation: if zero.lt(f.kick_ibi_bpm) { breakbeat } else { zero },
            bass_heavy: if Single::fraction(1, 1000).lt(energy) {
                membership(
                    f.band_energy[0].over(energy),
                    hundredths(20),
                    hundredths(35),
                    hundredths(100),
                    hundredths(101),
                )
            } else {
                zero
            },
            dark: membership(f.centroid, hundredths(0), hundredths(0), hundredths(280000), hundredths(550000)),
            bright_hi: membership(f.centroid, hundredths(180000), hundredths(320000), hundredths(900000), hundredths(1400000)),
            warm: membership(f.centroid, hundredths(120000), hundredths(220000), hundredths(420000), hundredths(600000)),
            hats_sparse: membership(f.hat_density, hundredths(0), hundredths(0), hundredths(200), hundredths(350)),
            hats_groove: membership(f.hat_density, hundredths(50), hundredths(150), hundredths(800), hundredths(1000)),
            hats_busy: membership(f.hat_density, hundredths(200), hundredths(400), hundredths(1400), hundredths(1800)),
            snares: membership(f.snare_density, hundredths(30), hundredths(80), hundredths(600), hundredths(900)),
            quiet: membership(f.intensity, hundredths(0), hundredths(0), hundredths(45), hundredths(70)),
            loud: membership(f.intensity, hundredths(35), hundredths(60), hundredths(100), hundredths(101)),
        }
    }

    /// Reads the cues off the features.
    pub fn read(f: &Features) -> (c: Cues)
        ensures
            c == Cues::of(*f),
    {
        let zero = Single::from_whole(0);
        let (bpm, four_floor) = rhythm_context(f);
        let breakbeat = Single::from_whole(1).minus(four_floor);
        let energy = f.band_energy[0].plus(f.band_energy[1]).plus(f.band_energy[2]).plus(
            f.band_energy[3],
        );
        let bass_heavy = if Single::ratio(1, 1000).lt(energy) {
            trapezoid(
                f.band_energy[0].over(energy),
                decimal(20),
                decimal(35),
                decimal(100),
                decimal(101),
            )
        } else {
            zero
        };
        let syncopation = if zero.lt(f.kick_ibi_bpm) {
            breakbeat
        } else {
            zero
        };
        Cues {
            bpm,
            four_floor,
            breakbeat,
            syncopation,
            bass_heavy,
            dark: trapezoid(f.centroid, decimal(0), decimal(0), decimal(280000), decimal(550000)),
            bright_hi: trapezoid(f.centroid, decimal(180000), decimal(320000), decimal(900000), decimal(1400000)),
            warm: trapezoid(f.centroid, decimal(120000), decimal(220000), decimal(420000), decimal(600000)),
            hats_sparse: trapezoid(f.hat_density, decimal(0), decimal(0), decimal(200), decimal(350)),
            hats_groove: trapezoid(f.hat_density, decimal(50), decimal(150), decimal(800), decimal(1000)),
            hats_busy: trapezoid(f.hat_density, decimal(200), decimal(400), decimal(1400), decimal(1800)),
            snares: trapezoid(f.snare_density, decimal(30), decimal(80), decimal(600), decimal(900)),
            quiet: trapezoid(f.intensity, decimal(0), decimal(0), decimal(45), decimal(70)),
            loud: trapezoid(f.intensity, decimal(35), decimal(60), decimal(100), decimal(101)),
        }
    }
}

/// The tempo range of a genre in BPM: where it begins, where it is in full, and where it ends.
pub open spec fn tempo_range(g: Genre) -> (nat, nat, nat, nat) {
    match g {
        Genre::DeepHouse => (108, 115, 124, 127),
        Genre::House => (118, 122, 130, 134),
        Genre::TechHouse => (119, 123, 128, 131),
        Genre::ElectroHouse => (124, 126, 132, 136),
        Genre::NuDisco => (100, 108, 120, 124),
        Genre::NetPop => (104, 110, 124, 128),
        Genre::UkGarage => (126, 129, 136, 140),
        Genre::JerseyClub => (130, 135, 146, 150),
        Genre::Techno => (124, 128, 142, 148),
        Genre::Trance => (130, 134, 143, 149),
        Genre::Psytrance => (134, 138, 148, 152),
        Genre::Hardstyle => (142, 147, 158, 163),
        Genre::Eurobeat => (146, 150, 162, 166),
        Genre::AnisonRemix => (126, 130, 146, 150),
        Genre::FutureCore => (162, 168, 182, 188),
        Genre::Hardcore => (155, 162, 196, 215),
        Genre::Breakbeat => (120, 126, 138, 142),
        Genre::DrumAndBass => (160, 168, 180, 192),
        Genre::Dubstep => (132, 136, 146, 152),
        Genre::Trap => (128, 134, 158, 165),
        Genre::Hyperflip => (138, 146, 164, 172),
        Genre::FutureBass => (130, 138, 158, 168),
        Genre::KawaiiFutureBass => (128, 138, 160, 172),
        Genre::HipHop => (80, 86, 98, 104),
        Genre::Rnb => (55, 62, 82, 88),
        Genre::Reggaeton => (84, 90, 100, 105),
        Genre::Synthwave => (82, 90, 112, 118),
        Genre::Ambient | Genre::Unknown => (0, 0, 0, 0),
    }
}

/// The evidence for a genre, as terms `(weight, value)`.
pub open spec fn evidence_terms(g: Genre, f: Features, c: Cues) -> Seq<(Single, Single)> {
    match g {
        Genre::DeepHouse => seq![
            (hundredths(100), f.band_energy[0]),
            (hundredths(100), c.four_floor),
            (hundredths(100), c.dark),
            (hundredths(50), membership(f.hat_density, hundredths(0), hundredths(50), hundredths(400), hundredths(600))),
        ],
        Genre::House => seq![
            (hundredths(120), c.four_floor),
            (hundredths(80), f.band_energy[2]),
            (hundredths(60), c.hats_groove),
        ],
        Genre::TechHouse => seq![
            (hundredths(120), c.four_floor),
            (hundredths(100), c.bass_heavy),
            (hundredths(80), c.hats_groove),
            (hundredths(50), c.dark),
            (hundredths(40), c.snares),
        ],
        Genre::ElectroHouse => seq![
            (hundredths(120), c.four_floor),
            (hundredths(100), c.loud),
            (hundredths(80), c.bright_hi),
            (hundredths(80), f.band_energy[1]),
        ],
        Genre::NuDisco => seq![
            (hundredths(100), c.four_floor),
            (hundredths(100), c.warm),
            (hundredths(80), c.hats_groove),
            (hundredths(40), f.band_energy[1]),
        ],
        Genre::NetPop => seq![
            (hundredths(120), f.band_energy[2]),
            (hundredths(80), c.four_floor),
            (hundredths(80), c.snares),
            (hundredths(60), c.bright_hi),
            (hundredths(40), c.hats_groove),
        ],
        Genre::UkGarage => seq![
            (hundredths(100), membership(f.kick_regularity, hundredths(15), hundredths(30), hundredths(70), hundredths(85))),
            (hundredths(100), c.hats_busy),
            (hundredths(80), c.snares),
            (hundredths(60), c.warm),
        ],
        Genre::JerseyClub => seq![
            (hundredths(120), membership(f.kick_density, hundredths(240), hundredths(300), hundredths(600), hundredths(700))),
            (hundredths(100), membership(f.kick_regularity, hundredths(10), hundredths(25), hundredths(60), hundredths(75))),
            (hundredths(60), f.band_energy[2]),
            (hundredths(60), c.snares),
            (hundredths(50), f.band_energy[0]),
        ],
        Genre::Techno => seq![
            (hundredths(120), c.four_floor),
            (hundredths(100), f.band_energy[0]),
            (hundredths(80), c.dark),
            (hundredths(50), membership(f.kick_density, hundredths(140), hundredths(190), hundredths(320), hundredths(380))),
        ],
        Genre::Trance => seq![
            (hundredths(100), c.four_floor),
            (hundredths(100), c.bright_hi),
            (hundredths(80), f.band_energy[2]),
            (hundredths(50), Single::of_whole(1).minus(c.snares)),
        ],
        Genre::Psytrance => seq![
            (hundredths(120), c.four_floor),
            (hundredths(100), membership(f.kick_regularity, hundredths(60), hundredths(80), hundredths(100), hundredths(101))),
            (hundredths(100), c.bass_heavy),
            (hundredths(60), c.hats_busy),
        ],
        Genre::Hardstyle => seq![
            (hundredths(120), c.four_floor),
            (hundredths(120), f.band_energy[1]),
            (hundredths(80), c.loud),
            (hundredths(50), f.band_energy[0]),
        ],
        Genre::Eurobeat => seq![
            (hundredths(120), c.four_floor),
            (hundredths(100), c.bright_hi),
            (hundredths(80), c.hats_busy),
            (hundredths(60), f.band_energy[2]),
        ],
        Genre::AnisonRemix => seq![
            (hundredths(120), f.band_energy[2]),
            (hundredths(100), c.four_floor),
            (hundredths(80), c.bright_hi),
            (hundredths(80), c.snares),
            (hundredths(40), c.hats_groove),
        ],
        Genre::FutureCore => seq![
            (hundredths(120), c.four_floor),
            (hundredths(120), c.bright_hi),
            (hundredths(80), f.band_energy[2]),
            (hundredths(50), membership(f.kick_density, hundredths(220), hundredths(260), hundredths(340), hundredths(380))),
        ],
        Genre::Hardcore => seq![
            (hundredths(120), c.four_floor),
            (hundredths(100), membership(f.kick_density, hundredths(200), hundredths(260), hundredths(1000), hundredths(1200))),
            (hundredths(60), f.band_energy[1]),
            (hundredths(40), f.intensity),
        ],
        Genre::Breakbeat => seq![
            (hundredths(120), c.breakbeat),
            (hundredths(80), f.band_energy[0]),
            (hundredths(80), c.snares),
            (hundredths(40), c.warm),
        ],
        Genre::DrumAndBass => seq![
            (hundredths(120), c.breakbeat),
            (hundredths(100), f.band_energy[0]),
            (hundredths(70), membership(f.hat_density, hundredths(100), hundredths(250), hundredths(1000), hundredths(1200))),
        ],
        Genre::Dubstep => seq![
            (hundredths(100), c.breakbeat),
            (hundredths(100), f.band_energy[0]),
            (hundredths(80), membership(f.kick_density, hundredths(0), hundredths(10), hundredths(150), hundredths(220))),
            (hundredths(80), c.hats_sparse),
        ],
        Genre::Trap => seq![
            (hundredths(120), c.hats_busy),
            (hundredths(100), c.bass_heavy),
            (hundredths(80), c.breakbeat),
            (hundredths(80), membership(f.kick_density, hundredths(10), hundredths(30), hundredths(160), hundredths(240))),
        ],
        Genre::Hyperflip => seq![
            (hundredths(120), membership(f.snare_density, hundredths(200), hundredths(350), hundredths(1200), hundredths(1600))),
            (hundredths(100), c.hats_busy),
            (hundredths(80), c.bright_hi),
            (hundredths(60), c.loud),
            (hundredths(60), c.breakbeat),
            (hundredths(50), membership(f.kick_density, hundredths(180), hundredths(240), hundredths(600), hundredths(700))),
        ],
        Genre::FutureBass => seq![
            (hundredths(120), membership(f.centroid, hundredths(220000), hundredths(300000), hundredths(480000), hundredths(650000))),
            (hundredths(100), f.band_energy[2]),
            (hundredths(80), c.breakbeat),
            (hundredths(40), c.snares),
        ],
        Genre::KawaiiFutureBass => seq![
            (hundredths(120), membership(f.centroid, hundredths(320000), hundredths(480000), hundredths(1200000), hundredths(1600000))),
            (hundredths(100), f.band_energy[3]),
            (hundredths(50), Single::of_whole(1).minus(hundredths(50).times(c.four_floor))),
        ],
        Genre::HipHop => seq![
            (hundredths(100), f.band_energy[0]),
            (hundredths(80), c.dark),
            (hundredths(80), membership(f.kick_density, hundredths(40), hundredths(80), hundredths(220), hundredths(300))),
            (hundredths(60), Single::of_whole(1).minus(membership(f.hat_density, hundredths(300), hundredths(500), hundredths(2000), hundredths(2400)))),
        ],
        Genre::Rnb => seq![
            (hundredths(100), c.quiet),
            (hundredths(80), c.dark),
            (hundredths(60), c.hats_sparse),
        ],
        Genre::Reggaeton => seq![
            (hundredths(120), c.four_floor),
            (hundredths(100), f.band_energy[0]),
            (hundredths(80), c.snares),
            (hundredths(50), c.warm),
        ],
        Genre::Synthwave => seq![
            (hundredths(80), c.four_floor),
            (hundredths(100), c.dark),
            (hundredths(80), f.band_energy[1]),
            (hundredths(50), membership(f.kick_density, hundredths(50), hundredths(100), hundredths(220), hundredths(300))),
        ],
        Genre::Ambient | Genre::Unknown => seq![],
    }
}

/// A genre with a rule; the two others are the one for quiet music and the one for want of any.
pub open spec fn has_rule(g: Genre) -> bool {
    g != Genre::Ambient && g != Genre::Unknown
}

/// How far the tempo fits a genre. Hip hop and R&B want kicks that were detected and dodge the
/// grid: without kick data, or with kicks on every beat, nothing is left of them, because a club
/// track read at half its tempo would otherwise pass for them far too often.
pub open spec fn tempo_fit(g: Genre, c: Cues) -> Single {
    let (a, b, d, e) = tempo_range(g);
    let fit = membership(
        c.bpm,
        Single::of_whole(a),
        Single::of_whole(b),
        Single::of_whole(d),
        Single::of_whole(e),
    );
    if g == Genre::HipHop || g == Genre::Rnb {
        fit.times(c.syncopation)
    } else {
        fit
    }
}

/// The score of a genre by its rule: the tempo fit times a quarter plus three quarters of the
/// evidence. Every genre has the same shape, so none wins by having fewer conditions.
pub open spec fn rule_score(g: Genre, f: Features) -> Single {
    let c = Cues::of(f);
    tempo_fit(g, c).times(
        hundredths(25).plus(hundredths(75).times(weighted_mean(evidence_terms(g, f, c)))),
    )
}

/// The music is too quiet, or its tempo too uncertain, for the rules.
pub open spec fn is_ambient(f: Features) -> bool {
    f.intensity.lt(hundredths(8)) || f.bpm_confidence.lt(hundredths(5))
}

/// The score of a genre for one set of features; none where it is not scored.
pub open spec fn instant_score(g: Genre, f: Features) -> Option<Single> {
    if is_ambient(f) {
        if g == Genre::Ambient {
            Some(hundredths(60))
        } else {
            None
        }
    } else if has_rule(g) {
        Some(rule_score(g, f))
    } else {
        None
    }
}

fn tempo_limits(g: Genre) -> (r: (u64, u64, u64, u64))
    ensures
        (r.0 as nat, r.1 as nat, r.2 as nat, r.3 as nat) == tempo_range(g),
{
    match g {
        Genre::DeepHouse => (108, 115, 124, 127),
        Genre::House => (118, 122, 130, 134),
        Genre::TechHouse => (119, 123, 128, 131),
        Genre::ElectroHouse => (124, 126, 132, 136),
        Genre::NuDisco => (100, 108, 120, 124),
        Genre::NetPop => (104, 110, 124, 128),
        Genre::UkGarage => (126, 129, 136, 140),
        Genre::JerseyClub => (130, 135, 146, 150),
        Genre::Techno => (124, 128, 142, 148),
        Genre::Trance => (130, 134, 143, 149),
        Genre::Psytrance => (134, 138, 148, 152),
        Genre::Hardstyle => (142, 147, 158, 163),
        Genre::Eurobeat => (146, 150, 162, 166),
        Genre::AnisonRemix => (126, 130, 146, 150),
        Genre::FutureCore => (162, 168, 182, 188),
        Genre::Hardcore => (155, 162, 196, 215),
        Genre::Breakbeat => (120, 126, 138, 142),
        Genre::DrumAndBass => (160, 168, 180, 192),
        Genre::Dubstep => (132, 136, 146, 152),
        Genre::Trap => (128, 134, 158, 165),
        Genre::Hyperflip => (138, 146, 164, 172),
        Genre::FutureBass => (130, 138, 158, 168),
        Genre::KawaiiFutureBass => (128, 138, 160, 172),
        Genre::HipHop => (80, 86, 98, 104),
        Genre::Rnb => (55, 62, 82, 88),
        Genre::Reggaeton => (84, 90, 100, 105),
        Genre::Synthwave => (82, 90, 112, 118),
        Genre::Ambient | Genre::Unknown => (0, 0, 0, 0),
    }
}

#[verifier::spinoff_prover]
fn collect_evidence(g: Genre, f: &Features, c: &Cues) -> (terms: Vec<(Single, Single)>)
    ensures
        terms@ == evidence_terms(g, *f, *c),
{
    match g {
        Genre::DeepHouse => vec![
            (decimal(100), f.band_energy[0]),
            (decimal(100), c.four_floor),
            (decimal(100), c.dark),
            (decimal(50), trapezoid(f.hat_density, decimal(0), decimal(50), decimal(400), decimal(600))),
        ],
        Genre::House => vec![
            (decimal(120), c.four_floor),
            (decimal(80), f.band_energy[2]),
            (decimal(60), c.hats_groove),
        ],
        Genre::TechHouse => vec![
            (decimal(120), c.four_floor),
            (decimal(100), c.bass_heavy),
            (decimal(80), c.hats_groove),
            (decimal(50), c.dark),
            (decimal(40), c.snares),
        ],
        Genre::ElectroHouse => vec![
            (decimal(120), c.four_floor),
            (decimal(100), c.loud),
            (decimal(80), c.bright_hi),
            (decimal(80), f.band_energy[1]),
        ],
        Genre::NuDisco => vec![
            (decimal(100), c.four_floor),
            (decimal(100), c.warm),
            (decimal(80), c.hats_groove),
            (decimal(40), f.band_energy[1]),
        ],
        Genre::NetPop => vec![
            (decimal(120), f.band_energy[2]),
            (decimal(80), c.four_floor),
            (decimal(80), c.snares),
            (decimal(60), c.bright_hi),
            (decimal(40), c.hats_groove),
        ],
        Genre::UkGarage => vec![
            (decimal(100), trapezoid(f.kick_regularity, decimal(15), decimal(30), decimal(70), decimal(85))),
            (decimal(100), c.hats_busy),
            (decimal(80), c.snares),
            (decimal(60), c.warm),
        ],
        Genre::JerseyClub => vec![
            (decimal(120), trapezoid(f.kick_density, decimal(240), decimal(300), decimal(600), decimal(700))),
            (decimal(100), trapezoid(f.kick_regularity, decimal(10), decimal(25), decimal(60), decimal(75))),
            (decimal(60), f.band_energy[2]),
            (decimal(60), c.snares),
            (decimal(50), f.band_energy[0]),
        ],
        Genre::Techno => vec![
            (decimal(120), c.four_floor),
            (decimal(100), f.band_energy[0]),
            (decimal(80), c.dark),
            (decimal(50), trapezoid(f.kick_density, decimal(140), decimal(190), decimal(320), decimal(380))),
        ],
        Genre::Trance => vec![
            (decimal(100), c.four_floor),
            (decimal(100), c.bright_hi),
            (decimal(80), f.band_energy[2]),
            (decimal(50), Single::from_whole(1).minus(c.snares)),
        ],
        Genre::Psytrance => vec![
            (decimal(120), c.four_floor),
            (decimal(100), trapezoid(f.kick_regularity, decimal(60), decimal(80), decimal(100), decimal(101))),
            (decimal(100), c.bass_heavy),
            (decimal(60), c.hats_busy),
        ],
        Genre::Hardstyle => vec![
            (decimal(120), c.four_floor),
            (decimal(120), f.band_energy[1]),
            (decimal(80), c.loud),
            (decimal(50), f.band_energy[0]),
        ],
        Genre::Eurobeat => vec![
            (decimal(120), c.four_floor),
            (decimal(100), c.bright_hi),
            (decimal(80), c.hats_busy),
            (decimal(60), f.band_energy[2]),
        ],
        Genre::AnisonRemix => vec![
            (decimal(120), f.band_energy[2]),
            (decimal(100), c.four_floor),
            (decimal(80), c.bright_hi),
            (decimal(80), c.snares),
            (decimal(40), c.hats_groove),
        ],
        Genre::FutureCore => vec![
            (decimal(120), c.four_floor),
            (decimal(120), c.bright_hi),
            (decimal(80), f.band_energy[2]),
            (decimal(50), trapezoid(f.kick_density, decimal(220), decimal(260), decimal(340), decimal(380))),
        ],
        Genre::Hardcore => vec![
            (decimal(120), c.four_floor),
            (decimal(100), trapezoid(f.kick_density, decimal(200), decimal(260), decimal(1000), decimal(1200))),
            (decimal(60), f.band_energy[1]),
            (decimal(40), f.intensity),
        ],
        Genre::Breakbeat => vec![
            (decimal(120), c.breakbeat),
            (decimal(80), f.band_energy[0]),
            (decimal(80), c.snares),
            (decimal(40), c.warm),
        ],
        Genre::DrumAndBass => vec![
            (decimal(120), c.breakbeat),
            (decimal(100), f.band_energy[0]),
            (decimal(70), trapezoid(f.hat_density, decimal(100), decimal(250), decimal(1000), decimal(1200))),
        ],
        Genre::Dubstep => vec![
            (decimal(100), c.breakbeat),
            (decimal(100), f.band_energy[0]),
            (decimal(80), trapezoid(f.kick_density, decimal(0), decimal(10), decimal(150), decimal(220))),
            (decimal(80), c.hats_sparse),
        ],
        Genre::Trap => vec![
            (decimal(120), c.hats_busy),
            (decimal(100), c.bass_heavy),
            (decimal(80), c.breakbeat),
            (decimal(80), trapezoid(f.kick_density, decimal(10), decimal(30), decimal(160), decimal(240))),
        ],
        Genre::Hyperflip => vec![
            (decimal(120), trapezoid(f.snare_density, decimal(200), decimal(350), decimal(1200), decimal(1600))),
            (decimal(100), c.hats_busy),
            (decimal(80), c.bright_hi),
            (decimal(60), c.loud),
            (decimal(60), c.breakbeat),
            (decimal(50), trapezoid(f.kick_density, decimal(180), decimal(240), decimal(600), decimal(700))),
        ],
        Genre::FutureBass => vec![
            (decimal(120), trapezoid(f.centroid, decimal(220000), decimal(300000), decimal(480000), decimal(650000))),
            (decimal(100), f.band_energy[2]),
            (decimal(80), c.breakbeat),
            (decimal(40), c.snares),
        ],
        Genre::KawaiiFutureBass => vec![
            (decimal(120), trapezoid(f.centroid, decimal(320000), decimal(480000), decimal(1200000), decimal(1600000))),
            (decimal(100), f.band_energy[3]),
            (decimal(50), Single::from_whole(1).minus(decimal(50).times(c.four_floor))),
        ],
        Genre::HipHop => vec![
            (decimal(100), f.band_energy[0]),
            (decimal(80), c.dark),
            (decimal(80), trapezoid(f.kick_density, decimal(40), decimal(80), decimal(220), decimal(300))),
            (decimal(60), Single::from_whole(1).minus(trapezoid(f.hat_density, decimal(300), decimal(500), decimal(2000), decimal(2400)))),
        ],
        Genre::Rnb => vec![
            (decimal(100), c.quiet),
            (decimal(80), c.dark),
            (decimal(60), c.hats_sparse),
        ],
        Genre::Reggaeton => vec![
            (decimal(120), c.four_floor),
            (decimal(100), f.band_energy[0]),
            (decimal(80), c.snares),
            (decimal(50), c.warm),
        ],
        Genre::Synthwave => vec![
            (decimal(80), c.four_floor),
            (decimal(100), c.dark),
            (decimal(80), f.band_energy[1]),
            (decimal(50), trapezoid(f.kick_density, decimal(50), decimal(100), decimal(220), decimal(300))),
        ],
        Genre::Ambient | Genre::Unknown => Vec::new(),
    }
}

fn apply_rule(g: Genre, f: &Features, c: &Cues) -> (s: Single)
    requires
        *c == Cues::of(*f),
    ensures
        s == rule_score(g, *f),
{
    let (a, b, d, e) = tempo_limits(g);
    let mut fit = trapezoid(
        c.bpm,
        Single::from_whole(a),
        Single::from_whole(b),
        Single::from_whole(d),
        Single::from_whole(e),
    );
    if g == Genre::HipHop || g == Genre::Rnb {
        fit = fit.times(c.syncopation);
    }
    let ev = evidence(&collect_evidence(g, f, c));
    fit.times(decimal(25).plus(decimal(75).times(ev)))
}

/// The genres with rules: the four-on-the-floor family, the breakbeat family, the downtempo
/// family.
pub const RULES: [Genre; 27] = [
    Genre::DeepHouse,
    Genre::House,
    Genre::TechHouse,
    Genre::ElectroHouse,
    Genre::NuDisco,
    Genre::NetPop,
    Genre::UkGarage,
    Genre::JerseyClub,
    Genre::Techno,
    Genre::Trance,
    Genre::Psytrance,
    Genre::Hardstyle,
    Genre::Eurobeat,
    Genre::AnisonRemix,
    Genre::FutureCore,
    Genre::Hardcore,
    Genre::Breakbeat,
    Genre::DrumAndBass,
    Genre::Dubstep,
    Genre::Trap,
    Genre::Hyperflip,
    Genre::FutureBass,
    Genre::KawaiiFutureBass,
    Genre::HipHop,
    Genre::Rnb,
    Genre::Reggaeton,
    Genre::Synthwave,
];

/// The place of a genre in `RULES`.
pub open spec fn rule_place(g: Genre) -> int {
    match g {
        Genre::DeepHouse => 0,
        Genre::House => 1,
        Genre::TechHouse => 2,
        Genre::ElectroHouse => 3,
        Genre::NuDisco => 4,
        Genre::NetPop => 5,
        Genre::UkGarage => 6,
        Genre::JerseyClub => 7,
        Genre::Techno => 8,
        Genre::Trance => 9,
        Genre::Psytrance => 10,
        Genre::Hardstyle => 11,
        Genre::Eurobeat => 12,
        Genre::AnisonRemix => 13,
        Genre::FutureCore => 14,
        Genre::Hardcore => 15,
        Genre::Breakbeat => 16,
        Genre::DrumAndBass => 17,
        Genre::Dubstep => 18,
        Genre::Trap => 19,
        Genre::Hyperflip => 20,
        Genre::FutureBass => 21,
        Genre::KawaiiFutureBass => 22,
        Genre::HipHop => 23,
        Genre::Rnb => 24,
        Genre::Reggaeton => 25,
        Genre::Synthwave => 26,
        Genre::Ambient => 27,
        Genre::Unknown => 28,
    }
}

pub proof fn lemma_rule_place(i: int, g: Genre)
    requires
        0 <= i < 27,
    ensures
        RULES@.len() == 27,
        rule_place(RULES@[i]) == i,
        has_rule(RULES@[i]),
        rule_place(g) == i <==> g == RULES@[i],
        has_rule(g) <==> rule_place(g) < 27,
{
}

/// The scores for one set of features, in the order of `RULES`.
pub open spec fn instant_list(f: Features) -> Seq<(Genre, Single)> {
    if is_ambient(f) {
        seq![(Genre::Ambient, hundredths(60))]
    } else {
        Seq::new(27, |i: int| (RULES@[i], rule_score(RULES@[i], f)))
    }
}

/// Scores every genre that one set of features speaks for or against.
pub fn instant_scores(f: &Features) -> (out: Vec<(Genre, Single)>)
    ensures
        out@ == instant_list(*f),
{
    let mut out: Vec<(Genre, Single)> = Vec::new();
    if f.intensity.lt(decimal(8)) || f.bpm_confidence.lt(decimal(5)) {
        out.push((Genre::Ambient, decimal(60)));
        return out;
    }
    let c = Cues::read(f);
    let mut i: usize = 0;
    while i < 27
        invariant
            i <= 27,
            !is_ambient(*f),
            c == Cues::of(*f),
            out@ == instant_list(*f).take(i as int),
        decreases 27 - i,
    {
        let g = RULES[i];
        let s = apply_rule(g, f, &c);
        out.push((g, s));
        i = i + 1;
    }
    assert(instant_list(*f).take(27) =~= instant_list(*f));
    out
}

} // verus!
