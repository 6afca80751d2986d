//! What each genre stands for: the tempo and the features at which its score is highest.
use vstd::arithmetic::power2::{lemma2_to64, lemma_pow2_adds, lemma_pow2_pos, pow2};
use vstd::prelude::*;

use crate::accuracy::{lemma_over_error, lemma_rounding_error, size};
use crate::core_laws::lemma_whole_difference;
use crate::core_types::Genre;
use crate::flash_laws::lemma_cancelled;
use crate::genre_laws::{
    all_fair, are_finite, is_fair, is_weight, lemma_cues, lemma_fit, lemma_grid, lemma_mean,
    lemma_quarters, lemma_scores_range, lemma_shape, lemma_sums, lemma_terms,
};
use crate::genre_rules::{
    corrected_tempo, evidence_terms, has_rule, hundredths, instant_score, is_ambient, membership,
    tempo_fit, total_weight, weighted_mean, weighted_sum, Cues, Features,
};
use crate::order::{
    lemma_difference, lemma_fraction, lemma_quotient, lemma_same, lemma_share, lemma_times_share,
    lemma_whole_exact, lemma_whole_order, lemma_whole_quotient, lemma_worth, lemma_zero_one,
};
use crate::rounding::{lemma_rounded_exact, lemma_units_zero};
use crate::single::{Single, INF};

verus! {

/// The tempos at which a genre is at home, in beats per minute.
pub open spec fn home_tempo(g: Genre) -> (nat, nat) {
    match g {
        Genre::DeepHouse => (115, 124),
        Genre::House => (122, 130),
        Genre::TechHouse => (123, 128),
        Genre::ElectroHouse => (126, 132),
        Genre::NuDisco => (108, 120),
        Genre::NetPop => (110, 124),
        Genre::UkGarage => (129, 136),
        Genre::JerseyClub => (135, 146),
        Genre::Techno => (128, 142),
        Genre::Trance => (134, 143),
        Genre::Psytrance => (138, 148),
        Genre::Hardstyle => (147, 158),
        Genre::Eurobeat => (150, 162),
        Genre::AnisonRemix => (130, 146),
        Genre::FutureCore => (168, 182),
        Genre::Hardcore => (162, 196),
        Genre::Breakbeat => (126, 138),
        Genre::DrumAndBass => (168, 180),
        Genre::Dubstep => (136, 146),
        Genre::Trap => (134, 158),
        Genre::Hyperflip => (146, 164),
        Genre::FutureBass => (138, 158),
        Genre::KawaiiFutureBass => (138, 160),
        Genre::HipHop => (86, 98),
        Genre::Rnb => (62, 82),
        Genre::Reggaeton => (90, 100),
        Genre::Synthwave => (90, 112),
        Genre::Ambient | Genre::Unknown => (0, 0),
    }
}

/// The tempos at and beyond which a genre is ruled out, in beats per minute.
pub open spec fn foreign_tempo(g: Genre) -> (nat, nat) {
    match g {
        Genre::DeepHouse => (108, 127),
        Genre::House => (118, 134),
        Genre::TechHouse => (119, 131),
        Genre::ElectroHouse => (124, 136),
        Genre::NuDisco => (100, 124),
        Genre::NetPop => (104, 128),
        Genre::UkGarage => (126, 140),
        Genre::JerseyClub => (130, 150),
        Genre::Techno => (124, 148),
        Genre::Trance => (130, 149),
        Genre::Psytrance => (134, 152),
        Genre::Hardstyle => (142, 163),
        Genre::Eurobeat => (146, 166),
        Genre::AnisonRemix => (126, 150),
        Genre::FutureCore => (162, 188),
        Genre::Hardcore => (155, 215),
        Genre::Breakbeat => (120, 142),
        Genre::DrumAndBass => (160, 192),
        Genre::Dubstep => (132, 152),
        Genre::Trap => (128, 165),
        Genre::Hyperflip => (138, 172),
        Genre::FutureBass => (130, 168),
        Genre::KawaiiFutureBass => (128, 172),
        Genre::HipHop => (80, 104),
        Genre::Rnb => (55, 88),
        Genre::Reggaeton => (84, 105),
        Genre::Synthwave => (82, 118),
        Genre::Ambient | Genre::Unknown => (0, 0),
    }
}

/// At its home tempos the tempo of a genre fits in full.
pub proof fn lemma_home_tempo(g: Genre, c: Cues)
    requires
        has_rule(g),
        Single::of_whole(home_tempo(g).0).le(c.bpm),
        c.bpm.le(Single::of_whole(home_tempo(g).1)),
    ensures
        g != Genre::HipHop && g != Genre::Rnb ==> tempo_fit(g, c) == Single::of_whole(1),
        g == Genre::HipHop || g == Genre::Rnb ==> tempo_fit(g, c) == Single::of_whole(1).times(
            c.syncopation,
        ),
{
    reveal(membership);
    let (lo, hi) = home_tempo(g);
    let (a, b) = foreign_tempo(g);
    lemma_whole_strict(a, lo);
    lemma_whole_strict(hi, b);
}

proof fn lemma_whole_strict(a: nat, b: nat)
    requires
        a < b < 0x100_0000,
    ensures
        Single::of_whole(a).is_plain(),
        Single::of_whole(b).is_plain(),
        Single::of_whole(a).magnitude() < Single::of_whole(b).magnitude(),
{
    lemma_whole_exact(a);
    lemma_whole_exact(b);
    lemma_pow2_pos(149);
    lemma_worth(Single::of_whole(a), Single::of_whole(b));
    assert(a * pow2(149) < b * pow2(149)) by (nonlinear_arith) requires a < b, pow2(149) > 0;
}

/// At and beyond its foreign tempos a genre scores nothing, whatever else is heard.
pub proof fn lemma_foreign_tempo(g: Genre, f: Features)
    requires
        has_rule(g),
        are_finite(f),
        f.kick_regularity.is_share(),
        corrected_tempo(f).le(Single::of_whole(foreign_tempo(g).0)) || Single::of_whole(
            foreign_tempo(g).1,
        ).le(corrected_tempo(f)),
    ensures
        instant_score(g, f) matches Some(s) ==> s.is_plain() && s.magnitude() == 0,
{
    let c = Cues::of(f);
    let zero = Single::of_whole(0);
    lemma_zero_one();
    lemma_scores_range(g, f);
    lemma_grid(f);
    lemma_cues(f);
    assert(tempo_fit(g, c).magnitude() == 0) by {
        reveal(membership);
        if g == Genre::HipHop || g == Genre::Rnb {
            lemma_times_share(c.syncopation, zero);
        }
    }
    if !is_ambient(f) {
        let ev = weighted_mean(evidence_terms(g, f, c));
        let shape = hundredths(25).plus(hundredths(75).times(ev));
        lemma_terms(g, f, c);
        lemma_mean(evidence_terms(g, f, c));
        lemma_fit(g, f);
        lemma_shape(ev);
        lemma_times_share(tempo_fit(g, c), shape);
    }
}

/// The tempo is taken as it was detected, unless the kicks run at about twice of it.
pub proof fn lemma_detected_tempo(f: Features)
    ensures
        f.kick_ibi_bpm.over(f.bpm).lt(hundredths(180)) ==> corrected_tempo(f) == f.bpm,
        hundredths(220).lt(f.kick_ibi_bpm.over(f.bpm)) ==> corrected_tempo(f) == f.bpm,
        Single::of_whole(0).lt(f.bpm) && Single::of_whole(0).lt(f.kick_ibi_bpm) && hundredths(
            180,
        ).le(f.kick_ibi_bpm.over(f.bpm)) && f.kick_ibi_bpm.over(f.bpm).le(hundredths(220))
            && hundredths(50).lt(f.kick_regularity) ==> corrected_tempo(f) == f.bpm.times(
            Single::of_whole(2),
        ),
{
}

/// At least 1.
pub open spec fn is_full(v: Single) -> bool {
    Single::of_whole(1).le(v)
}

/// Above zero, and between two numbers of hundredths.
pub open spec fn is_in(x: Single, lo: nat, hi: nat) -> bool {
    Single::of_whole(0).lt(x) && hundredths(lo).le(x) && x.le(hundredths(hi))
}

/// Regular kicks on every beat.
pub open spec fn on_grid(f: Features) -> bool {
    f.kick_regularity == Single::of_whole(1) && Single::of_whole(0).lt(f.kick_ibi_bpm) && is_in(
        f.kick_ibi_bpm.over(f.bpm),
        92,
        108,
    )
}

/// Kicks that are well apart from every beat.
pub open spec fn off_grid(f: Features) -> bool {
    Single::of_whole(0).lt(f.kick_ibi_bpm) && f.kick_ibi_bpm.over(f.bpm).le(hundredths(82))
}

/// The lows carry more than a third of the energy.
pub open spec fn is_bass_heavy(f: Features) -> bool {
    let all = f.band_energy[0].plus(f.band_energy[1]).plus(f.band_energy[2]).plus(f.band_energy[3]);
    Single::fraction(1, 1000).lt(all) && is_in(f.band_energy[0].over(all), 35, 100)
}

/// Features as a genre has them at its purest: its home tempo, its kicks, its mix and its density
/// of drums.
pub open spec fn is_pure(g: Genre, f: Features) -> bool {
    &&& Single::of_whole(home_tempo(g).0).le(f.bpm)
    &&& f.bpm.le(Single::of_whole(home_tempo(g).1))
    &&& f.kick_ibi_bpm.over(f.bpm).lt(hundredths(180))
    &&& !f.intensity.lt(hundredths(8)) && !f.bpm_confidence.lt(hundredths(5))
    &&& match g {
        Genre::DeepHouse => {
            &&& is_full(f.band_energy[0])
            &&& on_grid(f)
            &&& is_in(f.centroid, 0, 280000)
            &&& is_in(f.hat_density, 50, 400)
        },
        Genre::House => {
            &&& on_grid(f)
            &&& is_full(f.band_energy[2])
            &&& is_in(f.hat_density, 150, 800)
        },
        Genre::TechHouse => {
            &&& on_grid(f)
            &&& is_bass_heavy(f)
            &&& is_in(f.hat_density, 150, 800)
            &&& is_in(f.centroid, 0, 280000)
            &&& is_in(f.snare_density, 80, 600)
        },
        Genre::ElectroHouse => {
            &&& on_grid(f)
            &&& is_in(f.intensity, 60, 100)
            &&& is_in(f.centroid, 320000, 900000)
            &&& is_full(f.band_energy[1])
        },
        Genre::NuDisco => {
            &&& on_grid(f)
            &&& is_in(f.centroid, 220000, 420000)
            &&& is_in(f.hat_density, 150, 800)
            &&& is_full(f.band_energy[1])
        },
        Genre::NetPop => {
            &&& is_full(f.band_energy[2])
            &&& on_grid(f)
            &&& is_in(f.snare_density, 80, 600)
            &&& is_in(f.centroid, 320000, 900000)
            &&& is_in(f.hat_density, 150, 800)
        },
        Genre::UkGarage => {
            &&& is_in(f.kick_regularity, 30, 70)
            &&& is_in(f.hat_density, 400, 1400)
            &&& is_in(f.snare_density, 80, 600)
            &&& is_in(f.centroid, 220000, 420000)
        },
        Genre::JerseyClub => {
            &&& is_in(f.kick_density, 300, 600)
            &&& is_in(f.kick_regularity, 25, 60)
            &&& is_full(f.band_energy[2])
            &&& is_in(f.snare_density, 80, 600)
            &&& is_full(f.band_energy[0])
        },
        Genre::Techno => {
            &&& on_grid(f)
            &&& is_full(f.band_energy[0])
            &&& is_in(f.centroid, 0, 280000)
            &&& is_in(f.kick_density, 190, 320)
        },
        Genre::Trance => {
            &&& on_grid(f)
            &&& is_in(f.centroid, 320000, 900000)
            &&& is_full(f.band_energy[2])
            &&& f.snare_density.le(hundredths(30))
        },
        Genre::Psytrance => {
            &&& on_grid(f)
            &&& is_in(f.kick_regularity, 80, 100)
            &&& is_bass_heavy(f)
            &&& is_in(f.hat_density, 400, 1400)
        },
        Genre::Hardstyle => {
            &&& on_grid(f)
            &&& is_full(f.band_energy[1])
            &&& is_in(f.intensity, 60, 100)
            &&& is_full(f.band_energy[0])
        },
        Genre::Eurobeat => {
            &&& on_grid(f)
            &&& is_in(f.centroid, 320000, 900000)
            &&& is_in(f.hat_density, 400, 1400)
            &&& is_full(f.band_energy[2])
        },
        Genre::AnisonRemix => {
            &&& is_full(f.band_energy[2])
            &&& on_grid(f)
            &&& is_in(f.centroid, 320000, 900000)
            &&& is_in(f.snare_density, 80, 600)
            &&& is_in(f.hat_density, 150, 800)
        },
        Genre::FutureCore => {
            &&& on_grid(f)
            &&& is_in(f.centroid, 320000, 900000)
            &&& is_full(f.band_energy[2])
            &&& is_in(f.kick_density, 260, 340)
        },
        Genre::Hardcore => {
            &&& on_grid(f)
            &&& is_in(f.kick_density, 260, 1000)
            &&& is_full(f.band_energy[1])
            &&& is_full(f.intensity)
        },
        Genre::Breakbeat => {
            &&& off_grid(f)
            &&& is_full(f.band_energy[0])
            &&& is_in(f.snare_density, 80, 600)
            &&& is_in(f.centroid, 220000, 420000)
        },
        Genre::DrumAndBass => {
            &&& off_grid(f)
            &&& is_full(f.band_energy[0])
            &&& is_in(f.hat_density, 250, 1000)
        },
        Genre::Dubstep => {
            &&& off_grid(f)
            &&& is_full(f.band_energy[0])
            &&& is_in(f.kick_density, 10, 150)
            &&& is_in(f.hat_density, 0, 200)
        },
        Genre::Trap => {
            &&& is_in(f.hat_density, 400, 1400)
            &&& is_bass_heavy(f)
            &&& off_grid(f)
            &&& is_in(f.kick_density, 30, 160)
        },
        Genre::Hyperflip => {
            &&& is_in(f.snare_density, 350, 1200)
            &&& is_in(f.hat_density, 400, 1400)
            &&& is_in(f.centroid, 320000, 900000)
            &&& is_in(f.intensity, 60, 100)
            &&& off_grid(f)
            &&& is_in(f.kick_density, 240, 600)
        },
        Genre::FutureBass => {
            &&& is_in(f.centroid, 300000, 480000)
            &&& is_full(f.band_energy[2])
            &&& off_grid(f)
            &&& is_in(f.snare_density, 80, 600)
        },
        Genre::KawaiiFutureBass => {
            &&& is_in(f.centroid, 480000, 1200000)
            &&& is_full(f.band_energy[3])
            &&& off_grid(f)
        },
        Genre::HipHop => {
            &&& is_full(f.band_energy[0])
            &&& is_in(f.centroid, 0, 280000)
            &&& is_in(f.kick_density, 80, 220)
            &&& f.hat_density.le(hundredths(300))
            &&& off_grid(f)
        },
        Genre::Rnb => {
            &&& is_in(f.intensity, 0, 45)
            &&& is_in(f.centroid, 0, 280000)
            &&& is_in(f.hat_density, 0, 200)
            &&& off_grid(f)
        },
        Genre::Reggaeton => {
            &&& on_grid(f)
            &&& is_full(f.band_energy[0])
            &&& is_in(f.snare_density, 80, 600)
            &&& is_in(f.centroid, 220000, 420000)
        },
        Genre::Synthwave => {
            &&& on_grid(f)
            &&& is_in(f.centroid, 0, 280000)
            &&& is_full(f.band_energy[1])
            &&& is_in(f.kick_density, 100, 220)
        },
        Genre::Ambient | Genre::Unknown => false,
    }
}

proof fn lemma_hundredths(a: nat)
    requires
        a <= 2400000,
    ensures
        hundredths(a).is_plain(),
        hundredths(a).worth() <= 24000 * pow2(149),
        hundredths(0).magnitude() == 0,
        2 * 0x80_0000 * size(
            hundredths(a).worth() * (100 * pow2(149)) - (a * pow2(149)) * pow2(149),
        ) <= (hundredths(a).worth() + 0x80_0000) * (100 * pow2(149)),
{
    let u = pow2(149);
    let (n, d) = (Single::of_whole(a), Single::of_whole(100));
    lemma2_to64();
    lemma_pow2_pos(149);
    lemma_zero_one();
    lemma_fraction(a, a, 100, 24000);
    lemma_fraction(0, 0, 100, 1);
    lemma_whole_exact(24000);
    lemma_worth(hundredths(a), Single::of_whole(24000));
    lemma_whole_exact(a);
    lemma_whole_exact(100);
    lemma_worth(d, d);
    assert(100 * u > 0);
    lemma_quotient(n, d);
    lemma_rounding_error(23, INF as nat, n.worth() * u, d.worth());
    lemma_share(Single::of_whole(0), d);
}

/// More hundredths are more.
proof fn lemma_hundredths_strict(a: nat, b: nat)
    requires
        a < b <= 2400000,
    ensures
        hundredths(a).is_plain(),
        hundredths(b).is_plain(),
        hundredths(a).magnitude() < hundredths(b).magnitude(),
{
    let u = pow2(149);
    let (x, y) = (hundredths(a).worth(), hundredths(b).worth());
    lemma2_to64();
    lemma_pow2_pos(149);
    vstd::arithmetic::power2::lemma_pow2_adds(24, 125);
    lemma_pow2_pos(125);
    lemma_hundredths(a);
    lemma_hundredths(b);
    lemma_worth(hundredths(a), hundredths(b));
    lemma_apart(a as int, b as int, x as int, y as int, u as int);
}

proof fn lemma_apart(a: int, b: int, x: int, y: int, u: int)
    requires
        0 <= a < b,
        0 <= y <= 24000 * u,
        0 <= x <= 24000 * u,
        u >= 0x100_0000,
        2 * 0x80_0000 * size(x * (100 * u) - (a * u) * u) <= (x + 0x80_0000) * (100 * u),
        2 * 0x80_0000 * size(y * (100 * u) - (b * u) * u) <= (y + 0x80_0000) * (100 * u),
    ensures
        x < y,
{
    let d = 100 * u;
    let s = u * u;
    assert((x + 0x80_0000) * d <= 2400100 * s) by (nonlinear_arith)
        requires x <= 24000 * u, d == 100 * u, s == u * u, u >= 0x100_0000;
    assert((y + 0x80_0000) * d <= 2400100 * s) by (nonlinear_arith)
        requires y <= 24000 * u, d == 100 * u, s == u * u, u >= 0x100_0000;
    if y <= x {
        assert(y * d <= x * d) by (nonlinear_arith) requires y <= x, d == 100 * u, u > 0;
    }
    assert((b * u) * u >= (a * u) * u + s) by (nonlinear_arith)
        requires a + 1 <= b, s == u * u, u > 0;
    assert(s > 0) by (nonlinear_arith) requires s == u * u, u > 0;
    let (p, q) = (x * d, y * d);
    let (v, w) = ((a * u) * u, (b * u) * u);
    assert(2 * 0x80_0000 * size(p - v) <= 2400100 * s);
    assert(2 * 0x80_0000 * size(q - w) <= 2400100 * s);
    let (e, h) = (size(p - v), size(q - w));
    assert(2 * e < s) by (nonlinear_arith) requires 2 * 0x80_0000 * e <= 2400100 * s, s > 0;
    assert(2 * h < s) by (nonlinear_arith) requires 2 * 0x80_0000 * h <= 2400100 * s, s > 0;
    assert(w >= v + s);
    assert(p < q);
}

/// Membership is full in the middle of a range.
proof fn lemma_filled(x: Single, a: nat, b: nat, c: nat, d: nat)
    requires
        is_in(x, b, c),
        a < b || a == 0,
        c < d <= 2400000,
        b <= c,
    ensures
        membership(x, hundredths(a), hundredths(b), hundredths(c), hundredths(d))
            == Single::of_whole(1),
{
    reveal(membership);
    lemma_zero_one();
    lemma_hundredths_strict(c, d);
    lemma_hundredths(0);
    if a < b {
        lemma_hundredths_strict(a, b);
    }
}

/// Membership is empty below a range.
proof fn lemma_empty(x: Single, a: nat, b: nat, c: nat, d: nat)
    requires
        x.le(hundredths(a)),
    ensures
        membership(x, hundredths(a), hundredths(b), hundredths(c), hundredths(d))
            == Single::of_whole(0),
{
    reveal(membership);
}

/// Nothing taken from 1 leaves 1.
proof fn lemma_rest(v: Single)
    requires
        v.is_plain(),
        v.magnitude() == 0,
    ensures
        Single::of_whole(1).minus(v) == Single::of_whole(1),
{
    let one = Single::of_whole(1);
    lemma_zero_one();
    lemma_difference(one, v);
    lemma_units_zero(23);
    lemma_rounded_exact(23, INF as nat, one.worth(), 1, one.magnitude());
    lemma_same(one.minus(v), one);
}

proof fn lemma_half_rest(v: Single)
    requires
        v.is_plain(),
        v.magnitude() == 0,
    ensures
        Single::of_whole(1).minus(hundredths(50).times(v)) == Single::of_whole(1),
{
    lemma_zero_one();
    lemma_fraction(50, 50, 100, 1);
    lemma_times_share(v, hundredths(50));
    lemma_rest(hundredths(50).times(v));
}

/// Kicks on every beat are known as such.
proof fn lemma_on_grid(f: Features)
    requires
        on_grid(f),
        Single::of_whole(0).lt(f.bpm),
        f.kick_ibi_bpm.over(f.bpm).lt(hundredths(180)),
    ensures
        Cues::of(f).four_floor == Single::of_whole(1),
{
    lemma_zero_one();
    lemma_filled(f.kick_ibi_bpm.over(f.bpm), 82, 92, 108, 122);
    lemma_times_share(Single::of_whole(1), Single::of_whole(1));
}

/// Kicks apart from the beats are known as such.
proof fn lemma_off_grid(f: Features)
    requires
        off_grid(f),
        f.kick_regularity.is_share(),
        Single::of_whole(0).lt(f.bpm),
        f.kick_ibi_bpm.over(f.bpm).lt(hundredths(180)),
    ensures
        Cues::of(f).four_floor.is_plain(),
        Cues::of(f).four_floor.magnitude() == 0,
        Cues::of(f).breakbeat == Single::of_whole(1),
        Cues::of(f).syncopation == Single::of_whole(1),
{
    lemma_zero_one();
    lemma_empty(f.kick_ibi_bpm.over(f.bpm), 82, 92, 108, 122);
    lemma_times_share(f.kick_regularity, Single::of_whole(0));
    lemma_rest(Cues::of(f).four_floor);
}

proof fn lemma_bass(f: Features)
    requires
        is_bass_heavy(f),
    ensures
        Cues::of(f).bass_heavy == Single::of_whole(1),
{
    let all = f.band_energy[0].plus(f.band_energy[1]).plus(f.band_energy[2]).plus(f.band_energy[3]);
    lemma_filled(f.band_energy[0].over(all), 20, 35, 100, 101);
}

/// Where all evidence is full, its mean is 1.
proof fn lemma_full_sums(terms: Seq<(Single, Single)>)
    requires
        all_fair(terms),
        terms.len() <= 100,
        forall|i: int| 0 <= i < terms.len() ==> is_full((#[trigger] terms[i]).1),
    ensures
        weighted_sum(terms) == total_weight(terms),
    decreases terms.len(),
{
    if terms.len() > 0 {
        let head = terms.drop_last();
        let (w, v) = terms.last();
        assert(terms.last() == terms[terms.len() - 1]);
        assert(is_fair(terms[terms.len() - 1]) && is_full(terms[terms.len() - 1].1));
        assert forall|i: int| 0 <= i < head.len() implies is_fair(#[trigger] head[i]) && is_full(
            head[i].1,
        ) by {
            assert(head[i] == terms[i]);
            assert(is_fair(terms[i]));
        }
        lemma_full_sums(head);
        lemma_zero_one();
        let one = Single::of_whole(1);
        assert(v.clamp(Single::of_whole(0), one) == one) by {
            if !one.lt(v) {
                lemma_same(v, one);
            }
        }
        assert(w.is_plain()) by {
            reveal(is_weight);
        }
        lemma_times_share(one, w);
    }
}

/// Every piece of evidence for a genre is full where the features are as the genre has them at its
/// purest.
#[verifier::spinoff_prover]
#[verifier::rlimit(80)]
proof fn lemma_pure_terms(g: Genre, f: Features)
    requires
        is_pure(g, f),
        f.kick_regularity.is_share(),
    ensures
        forall|i: int|
            0 <= i < evidence_terms(g, f, Cues::of(f)).len() ==> is_full(
                (#[trigger] evidence_terms(g, f, Cues::of(f))[i]).1,
            ),
        evidence_terms(g, f, Cues::of(f)).len() > 0,
{
    let c = Cues::of(f);
    let terms = evidence_terms(g, f, c);
    lemma_zero_one();
    lemma_whole_order(1, home_tempo(g).0);
    if on_grid(f) {
        lemma_on_grid(f);
    }
    if off_grid(f) {
        lemma_off_grid(f);
    }
    if is_bass_heavy(f) {
        lemma_bass(f);
    }
    match g {
        Genre::DeepHouse => {
            assert(is_full(terms[0].1));
            assert(is_full(terms[1].1));
            lemma_filled(f.centroid, 0, 0, 280000, 550000);
            assert(is_full(terms[2].1));
            lemma_filled(f.hat_density, 0, 50, 400, 600);
            assert(is_full(terms[3].1));
        },
        Genre::House => {
            assert(is_full(terms[0].1));
            assert(is_full(terms[1].1));
            lemma_filled(f.hat_density, 50, 150, 800, 1000);
            assert(is_full(terms[2].1));
        },
        Genre::TechHouse => {
            assert(is_full(terms[0].1));
            assert(is_full(terms[1].1));
            lemma_filled(f.hat_density, 50, 150, 800, 1000);
            assert(is_full(terms[2].1));
            lemma_filled(f.centroid, 0, 0, 280000, 550000);
            assert(is_full(terms[3].1));
            lemma_filled(f.snare_density, 30, 80, 600, 900);
            assert(is_full(terms[4].1));
        },
        Genre::ElectroHouse => {
            assert(is_full(terms[0].1));
            lemma_filled(f.intensity, 35, 60, 100, 101);
            assert(is_full(terms[1].1));
            lemma_filled(f.centroid, 180000, 320000, 900000, 1400000);
            assert(is_full(terms[2].1));
            assert(is_full(terms[3].1));
        },
        Genre::NuDisco => {
            assert(is_full(terms[0].1));
            lemma_filled(f.centroid, 120000, 220000, 420000, 600000);
            assert(is_full(terms[1].1));
            lemma_filled(f.hat_density, 50, 150, 800, 1000);
            assert(is_full(terms[2].1));
            assert(is_full(terms[3].1));
        },
        Genre::NetPop => {
            assert(is_full(terms[0].1));
            assert(is_full(terms[1].1));
            lemma_filled(f.snare_density, 30, 80, 600, 900);
            assert(is_full(terms[2].1));
            lemma_filled(f.centroid, 180000, 320000, 900000, 1400000);
            assert(is_full(terms[3].1));
            lemma_filled(f.hat_density, 50, 150, 800, 1000);
            assert(is_full(terms[4].1));
        },
        Genre::UkGarage => {
            lemma_filled(f.kick_regularity, 15, 30, 70, 85);
            assert(is_full(terms[0].1));
            lemma_filled(f.hat_density, 200, 400, 1400, 1800);
            assert(is_full(terms[1].1));
            lemma_filled(f.snare_density, 30, 80, 600, 900);
            assert(is_full(terms[2].1));
            lemma_filled(f.centroid, 120000, 220000, 420000, 600000);
            assert(is_full(terms[3].1));
        },
        Genre::JerseyClub => {
            lemma_filled(f.kick_density, 240, 300, 600, 700);
            assert(is_full(terms[0].1));
            lemma_filled(f.kick_regularity, 10, 25, 60, 75);
            assert(is_full(terms[1].1));
            assert(is_full(terms[2].1));
            lemma_filled(f.snare_density, 30, 80, 600, 900);
            assert(is_full(terms[3].1));
            assert(is_full(terms[4].1));
        },
        Genre::Techno => {
            assert(is_full(terms[0].1));
            assert(is_full(terms[1].1));
            lemma_filled(f.centroid, 0, 0, 280000, 550000);
            assert(is_full(terms[2].1));
            lemma_filled(f.kick_density, 140, 190, 320, 380);
            assert(is_full(terms[3].1));
        },
        Genre::Trance => {
            assert(is_full(terms[0].1));
            lemma_filled(f.centroid, 180000, 320000, 900000, 1400000);
            assert(is_full(terms[1].1));
            assert(is_full(terms[2].1));
            lemma_empty(f.snare_density, 30, 80, 600, 900);
            lemma_rest(c.snares);
            assert(is_full(terms[3].1));
        },
        Genre::Psytrance => {
            assert(is_full(terms[0].1));
            lemma_filled(f.kick_regularity, 60, 80, 100, 101);
            assert(is_full(terms[1].1));
            assert(is_full(terms[2].1));
            lemma_filled(f.hat_density, 200, 400, 1400, 1800);
            assert(is_full(terms[3].1));
        },
        Genre::Hardstyle => {
            assert(is_full(terms[0].1));
            assert(is_full(terms[1].1));
            lemma_filled(f.intensity, 35, 60, 100, 101);
            assert(is_full(terms[2].1));
            assert(is_full(terms[3].1));
        },
        Genre::Eurobeat => {
            assert(is_full(terms[0].1));
            lemma_filled(f.centroid, 180000, 320000, 900000, 1400000);
            assert(is_full(terms[1].1));
            lemma_filled(f.hat_density, 200, 400, 1400, 1800);
            assert(is_full(terms[2].1));
            assert(is_full(terms[3].1));
        },
        Genre::AnisonRemix => {
            assert(is_full(terms[0].1));
            assert(is_full(terms[1].1));
            lemma_filled(f.centroid, 180000, 320000, 900000, 1400000);
            assert(is_full(terms[2].1));
            lemma_filled(f.snare_density, 30, 80, 600, 900);
            assert(is_full(terms[3].1));
            lemma_filled(f.hat_density, 50, 150, 800, 1000);
            assert(is_full(terms[4].1));
        },
        Genre::FutureCore => {
            assert(is_full(terms[0].1));
            lemma_filled(f.centroid, 180000, 320000, 900000, 1400000);
            assert(is_full(terms[1].1));
            assert(is_full(terms[2].1));
            lemma_filled(f.kick_density, 220, 260, 340, 380);
            assert(is_full(terms[3].1));
        },
        Genre::Hardcore => {
            assert(is_full(terms[0].1));
            lemma_filled(f.kick_density, 200, 260, 1000, 1200);
            assert(is_full(terms[1].1));
            assert(is_full(terms[2].1));
            assert(is_full(terms[3].1));
        },
        Genre::Breakbeat => {
            assert(is_full(terms[0].1));
            assert(is_full(terms[1].1));
            lemma_filled(f.snare_density, 30, 80, 600, 900);
            assert(is_full(terms[2].1));
            lemma_filled(f.centroid, 120000, 220000, 420000, 600000);
            assert(is_full(terms[3].1));
        },
        Genre::DrumAndBass => {
            assert(is_full(terms[0].1));
            assert(is_full(terms[1].1));
            lemma_filled(f.hat_density, 100, 250, 1000, 1200);
            assert(is_full(terms[2].1));
        },
        Genre::Dubstep => {
            assert(is_full(terms[0].1));
            assert(is_full(terms[1].1));
            lemma_filled(f.kick_density, 0, 10, 150, 220);
            assert(is_full(terms[2].1));
            lemma_filled(f.hat_density, 0, 0, 200, 350);
            assert(is_full(terms[3].1));
        },
        Genre::Trap => {
            lemma_filled(f.hat_density, 200, 400, 1400, 1800);
            assert(is_full(terms[0].1));
            assert(is_full(terms[1].1));
            assert(is_full(terms[2].1));
            lemma_filled(f.kick_density, 10, 30, 160, 240);
            assert(is_full(terms[3].1));
        },
        Genre::Hyperflip => {
            lemma_filled(f.snare_density, 200, 350, 1200, 1600);
            assert(is_full(terms[0].1));
            lemma_filled(f.hat_density, 200, 400, 1400, 1800);
            assert(is_full(terms[1].1));
            lemma_filled(f.centroid, 180000, 320000, 900000, 1400000);
            assert(is_full(terms[2].1));
            lemma_filled(f.intensity, 35, 60, 100, 101);
            assert(is_full(terms[3].1));
            assert(is_full(terms[4].1));
            lemma_filled(f.kick_density, 180, 240, 600, 700);
            assert(is_full(terms[5].1));
        },
        Genre::FutureBass => {
            lemma_filled(f.centroid, 220000, 300000, 480000, 650000);
            assert(is_full(terms[0].1));
            assert(is_full(terms[1].1));
            assert(is_full(terms[2].1));
            lemma_filled(f.snare_density, 30, 80, 600, 900);
            assert(is_full(terms[3].1));
        },
        Genre::KawaiiFutureBass => {
            lemma_filled(f.centroid, 320000, 480000, 1200000, 1600000);
            assert(is_full(terms[0].1));
            assert(is_full(terms[1].1));
            lemma_half_rest(c.four_floor);
            assert(is_full(terms[2].1));
        },
        Genre::HipHop => {
            assert(is_full(terms[0].1));
            lemma_filled(f.centroid, 0, 0, 280000, 550000);
            assert(is_full(terms[1].1));
            lemma_filled(f.kick_density, 40, 80, 220, 300);
            assert(is_full(terms[2].1));
            lemma_empty(f.hat_density, 300, 500, 2000, 2400);
            lemma_rest(
                membership(
                    f.hat_density,
                    hundredths(300),
                    hundredths(500),
                    hundredths(2000),
                    hundredths(2400),
                ),
            );
            assert(is_full(terms[3].1));
        },
        Genre::Rnb => {
            lemma_filled(f.intensity, 0, 0, 45, 70);
            assert(is_full(terms[0].1));
            lemma_filled(f.centroid, 0, 0, 280000, 550000);
            assert(is_full(terms[1].1));
            lemma_filled(f.hat_density, 0, 0, 200, 350);
            assert(is_full(terms[2].1));
        },
        Genre::Reggaeton => {
            assert(is_full(terms[0].1));
            assert(is_full(terms[1].1));
            lemma_filled(f.snare_density, 30, 80, 600, 900);
            assert(is_full(terms[2].1));
            lemma_filled(f.centroid, 120000, 220000, 420000, 600000);
            assert(is_full(terms[3].1));
        },
        Genre::Synthwave => {
            assert(is_full(terms[0].1));
            lemma_filled(f.centroid, 0, 0, 280000, 550000);
            assert(is_full(terms[1].1));
            assert(is_full(terms[2].1));
            lemma_filled(f.kick_density, 50, 100, 220, 300);
            assert(is_full(terms[3].1));
        },
        Genre::Ambient | Genre::Unknown => {},
    }
}

/// A genre at its purest has a score of 1, and no genre has a higher one.
pub proof fn lemma_pure_genre(g: Genre, f: Features, other: Genre)
    requires
        is_pure(g, f),
        are_finite(f),
        f.kick_regularity.is_share(),
    ensures
        instant_score(g, f) == Some(Single::of_whole(1)),
        instant_score(other, f) matches Some(s) ==> s.le(Single::of_whole(1)),
{
    let c = Cues::of(f);
    let terms = evidence_terms(g, f, c);
    let one = Single::of_whole(1);
    lemma_zero_one();
    lemma_whole_order(1, home_tempo(g).0);
    lemma_scores_range(other, f);
    lemma_grid(f);
    lemma_cues(f);
    lemma_terms(g, f, c);
    lemma_pure_terms(g, f);
    lemma_full_sums(terms);
    lemma_sums(terms);
    lemma_share(total_weight(terms), total_weight(terms));
    assert(weighted_mean(terms) == one);
    lemma_quarters();
    lemma_times_share(one, hundredths(75));
    lemma_detected_tempo(f);
    lemma_home_tempo(g, c);
    if off_grid(f) {
        lemma_off_grid(f);
    }
    lemma_times_share(one, one);
}

/// Between its foreign and its home tempos a genre fits by the part of the way: a tempo of whole
/// beats per minute by the exact quotient.
pub proof fn lemma_tempo_slopes(g: Genre, c: Cues, bpm: nat)
    requires
        has_rule(g),
        g != Genre::HipHop && g != Genre::Rnb,
        c.bpm == Single::of_whole(bpm),
    ensures
        ({
            let ((a, b), (lo, hi)) = (foreign_tempo(g), home_tempo(g));
            &&& a < bpm < lo ==> tempo_fit(g, c) == Single::fraction(
                (bpm - a) as nat,
                (lo - a) as nat,
            )
            &&& hi < bpm < b ==> tempo_fit(g, c) == Single::fraction(
                (b - bpm) as nat,
                (b - hi) as nat,
            )
        }),
{
    reveal(membership);
    let ((a, b), (lo, hi)) = (foreign_tempo(g), home_tempo(g));
    if a < bpm < lo {
        lemma_whole_strict(a, bpm);
        lemma_whole_strict(bpm, lo);
        lemma_whole_strict(bpm, b);
        lemma_whole_difference(a, bpm);
        lemma_whole_difference(a, lo);
    }
    if hi < bpm < b {
        lemma_whole_strict(hi, bpm);
        lemma_whole_strict(bpm, b);
        lemma_whole_strict(a, bpm);
        lemma_whole_strict(lo, bpm);
        lemma_whole_difference(bpm, b);
        lemma_whole_difference(hi, b);
    }
}

/// What is heard of a mix, and what is not: beyond these bounds a cue is silent.
pub proof fn lemma_silent_cues(f: Features)
    ensures
        ({
            let c = Cues::of(f);
            let zero = Single::of_whole(0);
            &&& Single::of_whole(5500).le(f.centroid) ==> c.dark == zero
            &&& f.centroid.le(Single::of_whole(1800)) || Single::of_whole(14000).le(f.centroid)
                ==> c.bright_hi == zero
            &&& f.centroid.le(Single::of_whole(1200)) || Single::of_whole(6000).le(f.centroid)
                ==> c.warm == zero
            &&& Single::fraction(7, 2).le(f.hat_density) ==> c.hats_sparse == zero
            &&& f.hat_density.le(Single::fraction(1, 2)) || Single::of_whole(10).le(f.hat_density)
                ==> c.hats_groove == zero
            &&& f.hat_density.le(Single::of_whole(2)) || Single::of_whole(18).le(f.hat_density)
                ==> c.hats_busy == zero
            &&& f.snare_density.le(Single::fraction(3, 10)) || Single::of_whole(9).le(
                f.snare_density,
            ) ==> c.snares == zero
            &&& Single::fraction(7, 10).le(f.intensity) ==> c.quiet == zero
            &&& f.intensity.le(Single::fraction(7, 20)) ==> c.loud == zero
        }),
{
    reveal(membership);
    lemma_hundred(5500);
    lemma_hundred(1800);
    lemma_hundred(14000);
    lemma_hundred(1200);
    lemma_hundred(6000);
    lemma_hundred(10);
    lemma_hundred(2);
    lemma_hundred(18);
    lemma_hundred(9);
    lemma_cancelled(7, 2, 50);
    lemma_cancelled(1, 2, 50);
    lemma_cancelled(3, 10, 10);
    lemma_cancelled(7, 10, 10);
    lemma_cancelled(7, 20, 5);
}

/// A hundred hundredths are one.
proof fn lemma_hundred(n: nat)
    requires
        n <= 100000,
    ensures
        hundredths(100 * n) == Single::of_whole(n),
{
    lemma_whole_quotient(n, 100);
    assert(n * 100 == 100 * n);
}

/// Kicks at about twice the detected tempo double it where they are regular, or where there are as
/// many as that in a minute; irregular kicks that are too few do not.
pub proof fn lemma_doubled_tempo(f: Features)
    requires
        Single::of_whole(0).lt(f.bpm),
        Single::of_whole(0).lt(f.kick_ibi_bpm),
        Single::fraction(9, 5).le(f.kick_ibi_bpm.over(f.bpm)),
        f.kick_ibi_bpm.over(f.bpm).le(Single::fraction(11, 5)),
    ensures
        ({
            let per_minute = f.kick_density.times(Single::of_whole(60));
            let many = Single::fraction(8, 5).lt(per_minute.over(f.bpm));
            let regular = Single::fraction(1, 2).lt(f.kick_regularity);
            &&& many || regular ==> corrected_tempo(f) == f.bpm.times(Single::of_whole(2))
            &&& !many && !regular ==> corrected_tempo(f) == f.bpm
        }),
{
    lemma_cancelled(9, 5, 20);
    lemma_cancelled(11, 5, 20);
    lemma_cancelled(8, 5, 20);
    lemma_cancelled(1, 2, 50);
}

/// Kicks on every beat count for four on the floor by their regularity; kicks that are well off the
/// beat do not count for it at all, and what does not count for it counts for a broken beat.
pub proof fn lemma_kicks_on_beat(f: Features)
    requires
        Single::of_whole(0).lt(corrected_tempo(f)),
        Single::of_whole(0).lt(f.kick_ibi_bpm),
        f.kick_regularity.is_share(),
    ensures
        ({
            let ratio = f.kick_ibi_bpm.over(corrected_tempo(f));
            let c = Cues::of(f);
            &&& Single::fraction(23, 25).le(ratio) && ratio.le(Single::fraction(27, 25))
                ==> c.four_floor == f.kick_regularity
            &&& ratio.le(Single::fraction(41, 50)) || Single::fraction(61, 50).le(ratio)
                ==> c.four_floor.magnitude() == 0
            &&& c.breakbeat == Single::of_whole(1).minus(c.four_floor) && c.syncopation
                == c.breakbeat
        }),
{
    reveal(membership);
    let one = Single::of_whole(1);
    let ratio = f.kick_ibi_bpm.over(corrected_tempo(f));
    lemma_cancelled(23, 25, 4);
    lemma_cancelled(27, 25, 4);
    lemma_cancelled(41, 50, 2);
    lemma_cancelled(61, 50, 2);
    lemma_zero_one();
    lemma_times_share(one, f.kick_regularity);
    lemma_times_share(Single::of_whole(0), f.kick_regularity);
    lemma_times_share(f.kick_regularity, one);
    lemma_times_share(f.kick_regularity, Single::of_whole(0));
    if Single::fraction(23, 25).le(ratio) && ratio.le(Single::fraction(27, 25)) {
        lemma_fraction(82, 92, 100, 1);
        lemma_fraction(108, 122, 100, 2);
        lemma_fraction_strict(82, 92);
        lemma_fraction_strict(108, 122);
    }
}

/// Hundredths that differ by ten at least are apart.
proof fn lemma_fraction_strict(a: nat, b: nat)
    requires
        a + 10 <= b <= 200,
    ensures
        hundredths(a).is_plain(),
        hundredths(b).is_plain(),
        hundredths(a).magnitude() < hundredths(b).magnitude(),
{
    let u = pow2(149);
    let (x, y, h) = (Single::of_whole(a), Single::of_whole(b), Single::of_whole(100));
    lemma2_to64();
    lemma_pow2_pos(149);
    lemma_pow2_pos(129);
    lemma_pow2_adds(20, 129);
    lemma_whole_exact(a);
    lemma_whole_exact(b);
    lemma_whole_exact(100);
    lemma_worth(h, h);
    assert(a * u <= 4 * (100 * u) && b * u <= 4 * (100 * u)) by (nonlinear_arith)
        requires a <= 200, b <= 200;
    lemma_over_error(x, h);
    lemma_over_error(y, h);
    let (p, q) = (x.over(h).worth() as int, y.over(h).worth() as int);
    let (ai, bi, ui, e) = (a as int, b as int, u as int, pow2(129) as int);
    assert(100 * p - ai * ui <= 100 * e) by (nonlinear_arith)
        requires p * (100 * ui) - (ai * ui) * ui <= e * (100 * ui), ui > 0;
    assert(bi * ui - 100 * q <= 100 * e) by (nonlinear_arith)
        requires (bi * ui) * ui - q * (100 * ui) <= e * (100 * ui), ui > 0;
    assert(bi * ui - ai * ui >= 10 * ui) by (nonlinear_arith) requires bi >= ai + 10, ui > 0;
    lemma_worth(x.over(h), y.over(h));
}

/// A mix whose low band has at most a fifth of the energy is not heavy in the bass.
pub proof fn lemma_light_bass(f: Features)
    requires
        ({
            let all = f.band_energy[0].plus(f.band_energy[1]).plus(f.band_energy[2]).plus(
                f.band_energy[3],
            );
            f.band_energy[0].over(all).le(Single::fraction(1, 5))
        }),
    ensures
        Cues::of(f).bass_heavy == Single::of_whole(0),
{
    reveal(membership);
    lemma_cancelled(1, 5, 20);
}

} // verus!
