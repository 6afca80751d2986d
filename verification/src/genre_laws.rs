//! What holds of the genre rules and of the classifier.
use vstd::arithmetic::power2::{lemma_pow2_pos, pow2};
use vstd::prelude::*;

use crate::core_types::{lemma_all_genres, lemma_position_unique, Genre};
use crate::genre::{
    blended, blended_scores, is_faint, leader, leads, margin_leader, ClassifierModel, SWITCH_AFTER,
};
use crate::genre_rules::{
    corrected_tempo, evidence_terms, grid_score, has_rule, hundredths, instant_score, is_ambient,
    membership, tempo_fit, tempo_range, total_weight, weighted_mean, weighted_sum, Cues, Features,
};
use crate::order::{
    lemma_clamped, lemma_difference, lemma_difference_order, lemma_difference_reverse,
    lemma_fraction, lemma_plus_zero, lemma_product, lemma_quotient, lemma_quotient_number,
    lemma_same, lemma_share, lemma_sum, lemma_sum_grows, lemma_sum_number, lemma_sum_order,
    lemma_times_share, lemma_whole_exact, lemma_whole_order, lemma_zero_one,
};
use crate::single::{Single, INF};

verus! {

/// Membership in a range is a number from 0 to 1.
pub proof fn lemma_membership(x: Single, a: Single, b: Single, c: Single, d: Single)
    requires
        !x.is_not_a_number(),
        a.is_plain(),
        b.is_plain(),
        c.is_plain(),
        d.is_plain(),
        a.magnitude() <= b.magnitude() <= c.magnitude() <= d.magnitude(),
    ensures
        membership(x, a, b, c, d).is_share(),
{
    reveal(membership);
    lemma_zero_one();
    if x.le(a) || d.le(x) {
    } else if x.lt(b) {
        assert(x.is_plain());
        lemma_difference_order(x, b, a);
        lemma_share(x.minus(a), b.minus(a));
    } else if x.le(c) {
    } else {
        assert(x.is_plain());
        lemma_difference_reverse(c, x, d);
        lemma_share(d.minus(x), d.minus(c));
    }
}

/// Membership in a range given in hundredths.
proof fn lemma_band(x: Single, a: nat, b: nat, c: nat, d: nat)
    requires
        !x.is_not_a_number(),
        a <= b <= c <= d < 0x100_0000,
    ensures
        membership(x, hundredths(a), hundredths(b), hundredths(c), hundredths(d)).is_share(),
{
    lemma_fraction(a, b, 100, d);
    lemma_fraction(b, c, 100, d);
    lemma_fraction(c, d, 100, d);
    lemma_membership(x, hundredths(a), hundredths(b), hundredths(c), hundredths(d));
}

/// A weight is positive and at most 2.
#[verifier::opaque]
pub open spec fn is_weight(w: Single) -> bool {
    w.is_plain() && 0 < w.magnitude() <= Single::of_whole(2).magnitude()
}

#[verifier::opaque]
pub open spec fn is_number(v: Single) -> bool {
    !v.is_not_a_number()
}

/// A term with a proper weight whose value is a number.
pub open spec fn is_fair(t: (Single, Single)) -> bool {
    is_weight(t.0) && is_number(t.1)
}

pub open spec fn all_fair(terms: Seq<(Single, Single)>) -> bool {
    forall|i: int| 0 <= i < terms.len() ==> is_fair(#[trigger] terms[i])
}

proof fn lemma_weight(k: nat)
    requires
        0 < k <= 200,
    ensures
        is_weight(hundredths(k)),
{
    reveal(is_weight);
    lemma_fraction(k, 200, 100, 2);
}

/// The sums of up to a hundred fair terms: the weights stay finite, and the values stay below
/// them.
pub proof fn lemma_sums(terms: Seq<(Single, Single)>)
    requires
        all_fair(terms),
        terms.len() <= 100,
    ensures
        total_weight(terms).is_plain(),
        total_weight(terms).magnitude() <= Single::of_whole(2 * terms.len()).magnitude(),
        terms.len() > 0 ==> total_weight(terms).magnitude() > 0,
        weighted_sum(terms).is_plain(),
        weighted_sum(terms).magnitude() <= total_weight(terms).magnitude(),
    decreases terms.len(),
{
    reveal(is_weight);
    reveal(is_number);
    lemma_zero_one();
    if terms.len() > 0 {
        let head = terms.drop_last();
        let (w, v) = terms.last();
        let n = head.len();
        assert(is_fair(terms[n as int]));
        assert forall|i: int| 0 <= i < head.len() implies is_fair(#[trigger] head[i]) by {
            assert(is_fair(terms[i]));
        }
        lemma_sums(head);
        let t = total_weight(head);
        let two = Single::of_whole(2);
        let before = Single::of_whole(2 * n);
        let after = Single::of_whole(2 * n + 2);
        lemma_whole_exact(2);
        lemma_whole_exact(2 * n);
        lemma_whole_exact(2 * n + 2);
        // Weights.
        lemma_sum_order(t, before, w, two);
        lemma_sum(before, two);
        assert((2 * n) * pow2(149) + 2 * pow2(149) == (2 * n + 2) * pow2(149))
            by (nonlinear_arith);
        crate::rounding::lemma_rounded_exact(23, INF as nat, after.worth(), 1, after.magnitude());
        assert(t.plus(w).magnitude() <= after.magnitude());
        lemma_sum_grows(t, w);
        // Values.
        let c = v.clamp(Single::of_whole(0), Single::of_whole(1));
        let x = weighted_sum(head);
        lemma_clamped(v);
        if c.is_share() {
            lemma_times_share(c, w);
            lemma_sum_order(x, t, w.times(c), w);
        } else {
            lemma_zero_product(w, c);
            lemma_plus_zero(x, w.times(c));
        }
        assert(weighted_sum(terms) == x.plus(w.times(c)));
    }
}

/// A product with a zero is a zero.
pub proof fn lemma_zero_product(w: Single, z: Single)
    requires
        w.is_finite(),
        z.magnitude() == 0,
    ensures
        w.times(z).magnitude() == 0,
{
    reveal(Single::product);
    lemma_pow2_pos(149);
    crate::rounding::lemma_units_zero(23);
    assert(w.worth() * 0 == 0) by (nonlinear_arith);
    assert(0 * pow2(149) == 0) by (nonlinear_arith);
    crate::rounding::lemma_rounded_exact(23, INF as nat, 0, pow2(149), 0);
}

/// The weighted mean of fair terms is a number from 0 to 1.
pub proof fn lemma_mean(terms: Seq<(Single, Single)>)
    requires
        all_fair(terms),
        terms.len() <= 100,
    ensures
        weighted_mean(terms).is_share(),
{
    lemma_zero_one();
    lemma_sums(terms);
    if terms.len() > 0 {
        lemma_share(weighted_sum(terms), total_weight(terms));
    }
}

/// Evidence is a number from 0 to 1: the weighted mean of up to a hundred terms whose weights are
/// above 0 and at most 2 and whose values are numbers.
pub proof fn lemma_evidence_range(terms: Seq<(Single, Single)>)
    requires
        terms.len() <= 100,
        forall|i: int|
            0 <= i < terms.len() ==> {
                let (w, v) = #[trigger] terms[i];
                Single::of_whole(0).lt(w) && w.le(Single::of_whole(2)) && !v.is_not_a_number()
            },
    ensures
        weighted_mean(terms).is_share(),
{
    reveal(is_weight);
    reveal(is_number);
    lemma_zero_one();
    lemma_whole_exact(2);
    assert forall|i: int| 0 <= i < terms.len() implies is_fair(#[trigger] terms[i]) by {
        let (w, v) = terms[i];
        assert(Single::of_whole(0).lt(w) && w.le(Single::of_whole(2)));
    }
    lemma_mean(terms);
}

/// All features are finite numbers.
pub open spec fn are_finite(f: Features) -> bool {
    &&& f.bpm.is_finite()
    &&& f.bpm_confidence.is_finite()
    &&& forall|i: int| 0 <= i < 4 ==> (#[trigger] f.band_energy[i]).is_finite()
    &&& f.kick_density.is_finite()
    &&& f.snare_density.is_finite()
    &&& f.hat_density.is_finite()
    &&& f.kick_ibi_bpm.is_finite()
    &&& f.kick_regularity.is_finite()
    &&& f.centroid.is_finite()
    &&& f.intensity.is_finite()
}

/// The corrected tempo is a number.
proof fn lemma_tempo(f: Features)
    requires
        are_finite(f),
    ensures
        !corrected_tempo(f).is_not_a_number(),
{
    lemma_whole_exact(2);
    if Single::of_whole(0).lt(f.bpm) {
        lemma_zero_one();
        lemma_product(f.bpm, Single::of_whole(2));
    }
}

/// The score for kicks on every beat is from 0 to 1 where their regularity is.
pub proof fn lemma_grid(f: Features)
    requires
        are_finite(f),
        f.kick_regularity.is_share(),
    ensures
        Cues::of(f).four_floor.is_share(),
{
    lemma_zero_one();
    lemma_tempo(f);
    let bpm = corrected_tempo(f);
    if Single::of_whole(0).lt(bpm) && Single::of_whole(0).lt(f.kick_ibi_bpm) {
        let x = f.kick_ibi_bpm.over(bpm);
        lemma_quotient_number(f.kick_ibi_bpm, bpm);
        lemma_band(x, 82, 92, 108, 122);
        lemma_times_share(
            f.kick_regularity,
            membership(x, hundredths(82), hundredths(92), hundredths(108), hundredths(122)),
        );
    }
}

/// All cues but the tempo are from 0 to 1.
pub open spec fn are_shares(c: Cues) -> bool {
    &&& !c.bpm.is_not_a_number()
    &&& c.four_floor.is_share()
    &&& c.breakbeat.is_share()
    &&& c.syncopation.is_share()
    &&& c.bass_heavy.is_share()
    &&& c.dark.is_share()
    &&& c.bright_hi.is_share()
    &&& c.warm.is_share()
    &&& c.hats_sparse.is_share()
    &&& c.hats_groove.is_share()
    &&& c.hats_busy.is_share()
    &&& c.snares.is_share()
    &&& c.quiet.is_share()
    &&& c.loud.is_share()
}

pub proof fn lemma_cues(f: Features)
    requires
        are_finite(f),
        Cues::of(f).four_floor.is_share(),
    ensures
        are_shares(Cues::of(f)),
{
    lemma_zero_one();
    lemma_tempo(f);
    let one = Single::of_whole(1);
    lemma_difference(one, grid_score(f, corrected_tempo(f)));
    let (e0, e1, e2, e3) = (f.band_energy[0], f.band_energy[1], f.band_energy[2], f.band_energy[3]);
    lemma_sum_number(e0, e1);
    lemma_sum_number(e0.plus(e1), e2);
    lemma_sum_number(e0.plus(e1).plus(e2), e3);
    let energy = e0.plus(e1).plus(e2).plus(e3);
    lemma_fraction(1, 1, 1000, 1);
    if Single::fraction(1, 1000).lt(energy) {
        lemma_quotient_number(e0, energy);
        lemma_band(e0.over(energy), 20, 35, 100, 101);
    }
    lemma_band(f.centroid, 0, 0, 280000, 550000);
    lemma_band(f.centroid, 180000, 320000, 900000, 1400000);
    lemma_band(f.centroid, 120000, 220000, 420000, 600000);
    lemma_band(f.hat_density, 0, 0, 200, 350);
    lemma_band(f.hat_density, 50, 150, 800, 1000);
    lemma_band(f.hat_density, 200, 400, 1400, 1800);
    lemma_band(f.snare_density, 30, 80, 600, 900);
    lemma_band(f.intensity, 0, 0, 45, 70);
    lemma_band(f.intensity, 35, 60, 100, 101);
}

/// All cues but the tempo are numbers.
spec fn are_numbers(f: Features, c: Cues) -> bool {
    &&& is_number(f.band_energy[0])
    &&& is_number(f.band_energy[1])
    &&& is_number(f.band_energy[2])
    &&& is_number(f.band_energy[3])
    &&& is_number(f.intensity)
    &&& is_number(c.four_floor)
    &&& is_number(c.breakbeat)
    &&& is_number(c.bass_heavy)
    &&& is_number(c.dark)
    &&& is_number(c.bright_hi)
    &&& is_number(c.warm)
    &&& is_number(c.hats_sparse)
    &&& is_number(c.hats_groove)
    &&& is_number(c.hats_busy)
    &&& is_number(c.snares)
    &&& is_number(c.quiet)
    &&& is_number(c.loud)
}

proof fn lemma_numbers(f: Features, c: Cues)
    requires
        are_finite(f),
        are_shares(c),
    ensures
        are_numbers(f, c),
{
    reveal(is_number);
    assert(f.band_energy[0].is_finite() && f.band_energy[1].is_finite()
        && f.band_energy[2].is_finite() && f.band_energy[3].is_finite());
}

/// Membership in a range given in hundredths is a number.
proof fn lemma_band_number(x: Single, a: nat, b: nat, c: nat, d: nat)
    requires
        x.is_finite(),
        a <= b <= c <= d < 0x100_0000,
    ensures
        is_number(membership(x, hundredths(a), hundredths(b), hundredths(c), hundredths(d))),
{
    reveal(is_number);
    lemma_band(x, a, b, c, d);
}

/// What a share leaves of 1 is a number.
proof fn lemma_rest_number(v: Single)
    requires
        v.is_share(),
    ensures
        is_number(Single::of_whole(1).minus(v)),
{
    reveal(is_number);
    lemma_zero_one();
    lemma_difference(Single::of_whole(1), v);
}

proof fn lemma_half_rest_number(v: Single)
    requires
        v.is_share(),
    ensures
        is_number(Single::of_whole(1).minus(hundredths(50).times(v))),
{
    lemma_zero_one();
    lemma_fraction(50, 50, 100, 1);
    lemma_times_share(v, hundredths(50));
    lemma_rest_number(hundredths(50).times(v));
}

/// The terms of a rule are fair, and there are few of them.
#[verifier::spinoff_prover]
#[verifier::rlimit(60)]
pub proof fn lemma_terms(g: Genre, f: Features, c: Cues)
    requires
        are_finite(f),
        are_shares(c),
    ensures
        all_fair(evidence_terms(g, f, c)),
        evidence_terms(g, f, c).len() <= 100,
{
    let terms = evidence_terms(g, f, c);
    lemma_numbers(f, c);
    lemma_weight(40);
    lemma_weight(50);
    lemma_weight(60);
    lemma_weight(70);
    lemma_weight(80);
    lemma_weight(100);
    lemma_weight(120);
    match g {
        Genre::DeepHouse => {
            assert(is_fair(terms[0]));
            assert(is_fair(terms[1]));
            assert(is_fair(terms[2]));
            lemma_band_number(f.hat_density, 0, 50, 400, 600);
            assert(is_fair(terms[3]));
        },
        Genre::House => {
            assert(is_fair(terms[0]));
            assert(is_fair(terms[1]));
            assert(is_fair(terms[2]));
        },
        Genre::TechHouse => {
            assert(is_fair(terms[0]));
            assert(is_fair(terms[1]));
            assert(is_fair(terms[2]));
            assert(is_fair(terms[3]));
            assert(is_fair(terms[4]));
        },
        Genre::ElectroHouse => {
            assert(is_fair(terms[0]));
            assert(is_fair(terms[1]));
            assert(is_fair(terms[2]));
            assert(is_fair(terms[3]));
        },
        Genre::NuDisco => {
            assert(is_fair(terms[0]));
            assert(is_fair(terms[1]));
            assert(is_fair(terms[2]));
            assert(is_fair(terms[3]));
        },
        Genre::NetPop => {
            assert(is_fair(terms[0]));
            assert(is_fair(terms[1]));
            assert(is_fair(terms[2]));
            assert(is_fair(terms[3]));
            assert(is_fair(terms[4]));
        },
        Genre::UkGarage => {
            lemma_band_number(f.kick_regularity, 15, 30, 70, 85);
            assert(is_fair(terms[0]));
            assert(is_fair(terms[1]));
            assert(is_fair(terms[2]));
            assert(is_fair(terms[3]));
        },
        Genre::JerseyClub => {
            lemma_band_number(f.kick_density, 240, 300, 600, 700);
            assert(is_fair(terms[0]));
            lemma_band_number(f.kick_regularity, 10, 25, 60, 75);
            assert(is_fair(terms[1]));
            assert(is_fair(terms[2]));
            assert(is_fair(terms[3]));
            assert(is_fair(terms[4]));
        },
        Genre::Techno => {
            assert(is_fair(terms[0]));
            assert(is_fair(terms[1]));
            assert(is_fair(terms[2]));
            lemma_band_number(f.kick_density, 140, 190, 320, 380);
            assert(is_fair(terms[3]));
        },
        Genre::Trance => {
            assert(is_fair(terms[0]));
            assert(is_fair(terms[1]));
            assert(is_fair(terms[2]));
            lemma_rest_number(c.snares);
            assert(is_fair(terms[3]));
        },
        Genre::Psytrance => {
            assert(is_fair(terms[0]));
            lemma_band_number(f.kick_regularity, 60, 80, 100, 101);
            assert(is_fair(terms[1]));
            assert(is_fair(terms[2]));
            assert(is_fair(terms[3]));
        },
        Genre::Hardstyle => {
            assert(is_fair(terms[0]));
            assert(is_fair(terms[1]));
            assert(is_fair(terms[2]));
            assert(is_fair(terms[3]));
        },
        Genre::Eurobeat => {
            assert(is_fair(terms[0]));
            assert(is_fair(terms[1]));
            assert(is_fair(terms[2]));
            assert(is_fair(terms[3]));
        },
        Genre::AnisonRemix => {
            assert(is_fair(terms[0]));
            assert(is_fair(terms[1]));
            assert(is_fair(terms[2]));
            assert(is_fair(terms[3]));
            assert(is_fair(terms[4]));
        },
        Genre::FutureCore => {
            assert(is_fair(terms[0]));
            assert(is_fair(terms[1]));
            assert(is_fair(terms[2]));
            lemma_band_number(f.kick_density, 220, 260, 340, 380);
            assert(is_fair(terms[3]));
        },
        Genre::Hardcore => {
            assert(is_fair(terms[0]));
            lemma_band_number(f.kick_density, 200, 260, 1000, 1200);
            assert(is_fair(terms[1]));
            assert(is_fair(terms[2]));
            assert(is_fair(terms[3]));
        },
        Genre::Breakbeat => {
            assert(is_fair(terms[0]));
            assert(is_fair(terms[1]));
            assert(is_fair(terms[2]));
            assert(is_fair(terms[3]));
        },
        Genre::DrumAndBass => {
            assert(is_fair(terms[0]));
            assert(is_fair(terms[1]));
            lemma_band_number(f.hat_density, 100, 250, 1000, 1200);
            assert(is_fair(terms[2]));
        },
        Genre::Dubstep => {
            assert(is_fair(terms[0]));
            assert(is_fair(terms[1]));
            lemma_band_number(f.kick_density, 0, 10, 150, 220);
            assert(is_fair(terms[2]));
            assert(is_fair(terms[3]));
        },
        Genre::Trap => {
            assert(is_fair(terms[0]));
            assert(is_fair(terms[1]));
            assert(is_fair(terms[2]));
            lemma_band_number(f.kick_density, 10, 30, 160, 240);
            assert(is_fair(terms[3]));
        },
        Genre::Hyperflip => {
            lemma_band_number(f.snare_density, 200, 350, 1200, 1600);
            assert(is_fair(terms[0]));
            assert(is_fair(terms[1]));
            assert(is_fair(terms[2]));
            assert(is_fair(terms[3]));
            assert(is_fair(terms[4]));
            lemma_band_number(f.kick_density, 180, 240, 600, 700);
            assert(is_fair(terms[5]));
        },
        Genre::FutureBass => {
            lemma_band_number(f.centroid, 220000, 300000, 480000, 650000);
            assert(is_fair(terms[0]));
            assert(is_fair(terms[1]));
            assert(is_fair(terms[2]));
            assert(is_fair(terms[3]));
        },
        Genre::KawaiiFutureBass => {
            lemma_band_number(f.centroid, 320000, 480000, 1200000, 1600000);
            assert(is_fair(terms[0]));
            assert(is_fair(terms[1]));
            lemma_half_rest_number(c.four_floor);
            assert(is_fair(terms[2]));
        },
        Genre::HipHop => {
            assert(is_fair(terms[0]));
            assert(is_fair(terms[1]));
            lemma_band_number(f.kick_density, 40, 80, 220, 300);
            assert(is_fair(terms[2]));
            lemma_band(f.hat_density, 300, 500, 2000, 2400);
            lemma_rest_number(membership(f.hat_density, hundredths(300), hundredths(500), hundredths(2000), hundredths(2400)));
            assert(is_fair(terms[3]));
        },
        Genre::Rnb => {
            assert(is_fair(terms[0]));
            assert(is_fair(terms[1]));
            assert(is_fair(terms[2]));
        },
        Genre::Reggaeton => {
            assert(is_fair(terms[0]));
            assert(is_fair(terms[1]));
            assert(is_fair(terms[2]));
            assert(is_fair(terms[3]));
        },
        Genre::Synthwave => {
            assert(is_fair(terms[0]));
            assert(is_fair(terms[1]));
            assert(is_fair(terms[2]));
            lemma_band_number(f.kick_density, 50, 100, 220, 300);
            assert(is_fair(terms[3]));
        },
        Genre::Ambient | Genre::Unknown => {},
    }
}

/// How far the tempo fits is from 0 to 1.
pub proof fn lemma_fit(g: Genre, f: Features)
    requires
        are_finite(f),
        Cues::of(f).four_floor.is_share(),
    ensures
        tempo_fit(g, Cues::of(f)).is_share(),
{
    let c = Cues::of(f);
    let (a, b, d, e) = tempo_range(g);
    lemma_cues(f);
    lemma_whole_order(a, b);
    lemma_whole_order(b, d);
    lemma_whole_order(d, e);
    lemma_membership(
        c.bpm,
        Single::of_whole(a),
        Single::of_whole(b),
        Single::of_whole(d),
        Single::of_whole(e),
    );
    let fit = membership(
        c.bpm,
        Single::of_whole(a),
        Single::of_whole(b),
        Single::of_whole(d),
        Single::of_whole(e),
    );
    if g == Genre::HipHop || g == Genre::Rnb {
        lemma_times_share(fit, c.syncopation);
    }
}

/// A quarter plus three quarters of the evidence is from 0 to 1.
pub proof fn lemma_shape(ev: Single)
    requires
        ev.is_share(),
    ensures
        hundredths(25).plus(hundredths(75).times(ev)).is_share(),
{
    let (q, t) = (hundredths(25), hundredths(75));
    lemma_zero_one();
    lemma_quarters();
    lemma_times_share(ev, t);
    lemma_sum_order(q, q, t.times(ev), t);
}

/// A quarter and three quarters are exact, and make one.
pub proof fn lemma_quarters()
    ensures
        hundredths(25).is_plain(),
        hundredths(75).is_plain(),
        hundredths(25).plus(hundredths(75)) == Single::of_whole(1),
{
    let one = Single::of_whole(1);
    let p = pow2(149);
    lemma_fraction(25, 75, 100, 1);
    lemma_whole_exact(1);
    lemma_quarter(25, 124);
    lemma_quarter(75, 125);
    vstd::arithmetic::power2::lemma_pow2_adds(2, 147);
    vstd::arithmetic::power2::lemma2_to64();
    let (q, t) = (hundredths(25), hundredths(75));
    lemma_sum(q, t);
    assert(q.worth() + t.worth() == one.worth()) by (nonlinear_arith)
        requires
            q.worth() * 100 == 25 * p,
            t.worth() * 100 == 75 * p,
            one.worth() == 1 * p,
    ;
    crate::rounding::lemma_rounded_exact(23, INF as nat, one.worth(), 1, one.magnitude());
    lemma_same(q.plus(t), one);
}

/// `k` hundredths, for a quarter and three quarters, are exact.
proof fn lemma_quarter(k: nat, t: nat)
    requires
        k == 25 && t == 124 || k == 75 && t == 125,
    ensures
        hundredths(k).worth() * 100 == k * pow2(149),
{
    let p = pow2(149);
    let (n, d) = (Single::of_whole(k), Single::of_whole(100));
    lemma_whole_exact(k);
    lemma_whole_exact(100);
    lemma_whole_order(1, 100);
    lemma_pow2_pos(149);
    lemma_quotient(n, d);
    vstd::arithmetic::power2::lemma2_to64();
    let c: nat = if k == 25 { pow2(23) } else { 0xc0_0000 };
    crate::rounding::lemma_units_of_parts(23, t, c);
    let m = t * pow2(23) + c;
    let u = crate::rounding::units(23, m);
    vstd::arithmetic::power2::lemma_pow2_adds(23, 124);
    vstd::arithmetic::power2::lemma_pow2_adds(2, 147);
    vstd::arithmetic::power2::lemma_pow2_adds(22, 125);
    assert(c * pow2(t) * 100 == k * p) by (nonlinear_arith)
        requires
            k == 25 && t == 124 && c == pow2(23) && pow2(23) * pow2(124) == pow2(147) || k == 75
                && t == 125 && c == 3 * pow2(22) && pow2(22) * pow2(125) == pow2(147),
            p == 4 * pow2(147),
    ;
    assert(n.worth() * p == u * d.worth()) by (nonlinear_arith)
        requires n.worth() == k * p, d.worth() == 100 * p, u * 100 == k * p;
    crate::rounding::lemma_rounded_exact(23, INF as nat, n.worth() * p, d.worth(), m);
    assert(hundredths(k).magnitude() == m);
}

/// For finite features with a regularity from 0 to 1, every instant score is a number from 0 to 1.
pub proof fn lemma_scores_range(g: Genre, f: Features)
    requires
        are_finite(f),
        f.kick_regularity.is_share(),
    ensures
        instant_score(g, f) matches Some(s) ==> s.is_share(),
{
    lemma_fraction(60, 60, 100, 1);
    if !is_ambient(f) && has_rule(g) {
        let c = Cues::of(f);
        let ev = weighted_mean(evidence_terms(g, f, c));
        lemma_grid(f);
        lemma_cues(f);
        lemma_terms(g, f, c);
        lemma_mean(evidence_terms(g, f, c));
        lemma_fit(g, f);
        lemma_shape(ev);
        lemma_times_share(
            tempo_fit(g, c),
            hundredths(25).plus(hundredths(75).times(ev)),
        );
    }
}

/// Hip hop and R&B want kicks off the grid: without kick data, and with kicks on every beat, their
/// score is 0.
pub proof fn lemma_no_syncopation(g: Genre, f: Features)
    requires
        are_finite(f),
        g == Genre::HipHop || g == Genre::Rnb,
        !Single::of_whole(0).lt(f.kick_ibi_bpm) || Cues::of(f).four_floor == Single::of_whole(1),
    ensures
        instant_score(g, f) matches Some(s) ==> s.is_plain() && s.magnitude() == 0,
{
    let c = Cues::of(f);
    let (a, b, d, e) = tempo_range(g);
    lemma_zero_one();
    lemma_cues(f);
    lemma_whole_order(a, b);
    lemma_whole_order(b, d);
    lemma_whole_order(d, e);
    lemma_membership(
        c.bpm,
        Single::of_whole(a),
        Single::of_whole(b),
        Single::of_whole(d),
        Single::of_whole(e),
    );
    let fit = membership(
        c.bpm,
        Single::of_whole(a),
        Single::of_whole(b),
        Single::of_whole(d),
        Single::of_whole(e),
    );
    let one = Single::of_whole(1);
    if c.four_floor == one {
        lemma_difference(one, one);
        crate::rounding::lemma_units_zero(23);
        crate::rounding::lemma_rounded_exact(23, INF as nat, 0, 1, 0);
    }
    assert(c.syncopation.magnitude() == 0);
    lemma_times_share(c.syncopation, fit);
    lemma_times_share(fit, c.syncopation);
    if !is_ambient(f) {
        let ev = weighted_mean(evidence_terms(g, f, c));
        lemma_cues(f);
        lemma_terms(g, f, c);
        lemma_mean(evidence_terms(g, f, c));
        lemma_shape(ev);
        lemma_times_share(
            tempo_fit(g, c),
            hundredths(25).plus(hundredths(75).times(ev)),
        );
    }
}

/// The classifier after the first `n` of a row of features.
pub open spec fn after_updates(
    m: ClassifierModel,
    features: Seq<Features>,
    n: nat,
) -> ClassifierModel
    decreases n,
{
    if n == 0 {
        m
    } else {
        after_updates(m, features, (n - 1) as nat).updated(features[n - 1]).0
    }
}

/// The scores at update `k` of a row.
pub open spec fn scores_at(m: ClassifierModel, features: Seq<Features>, k: int) -> Seq<
    Option<Single>,
> {
    blended_scores(after_updates(m, features, k as nat).scores, features[k])
}

/// The genre that leads by the margin at update `k` of a row.
pub open spec fn lead_at(m: ClassifierModel, features: Seq<Features>, k: int) -> Option<Genre> {
    margin_leader(scores_at(m, features, k), after_updates(m, features, k as nat).current)
}

/// Of the updates from `from` up to `n`, those at which scores are not faint.
pub open spec fn clear_count(
    m: ClassifierModel,
    features: Seq<Features>,
    from: nat,
    n: nat,
) -> nat
    decreases n,
{
    if n <= from {
        0
    } else {
        clear_count(m, features, from, (n - 1) as nat) + if is_faint(
            scores_at(m, features, n - 1),
        ) {
            0nat
        } else {
            1
        }
    }
}

/// A challenger with a count of `c` has led by the margin without a break since some update, and
/// scores were not faint at `c` updates since then.
#[verifier::spinoff_prover]
proof fn lemma_count(m: ClassifierModel, features: Seq<Features>, n: nat, g: Genre, c: nat) -> (
    from: nat)
    requires
        m.challenger is None,
        n <= features.len(),
        after_updates(m, features, n).challenger == Some((g, c)),
    ensures
        0 < c,
        from + c <= n,
        forall|k: int| from <= k < n ==> #[trigger] lead_at(m, features, k) == Some(g),
        clear_count(m, features, from, n) == c,
    decreases n,
{
    if n == 0 {
        0
    } else {
        let k = (n - 1) as nat;
        let before = after_updates(m, features, k);
        assert(lead_at(m, features, k as int) == Some(g));
        if is_faint(scores_at(m, features, k as int)) {
            lemma_count(m, features, k, g, c)
        } else if c > 1 {
            lemma_count(m, features, k, g, (c - 1) as nat)
        } else {
            assert(clear_count(m, features, k, k) == 0);
            k
        }
    }
}

/// An update returns a genre only where that genre leads by the margin, scores are not faint, and
/// five leads were counted before.
#[verifier::spinoff_prover]
proof fn lemma_switch(m: ClassifierModel, f: Features, g: Genre)
    requires
        m.updated(f).1 == Some(g),
    ensures
        margin_leader(blended_scores(m.scores, f), m.current) == Some(g),
        !is_faint(blended_scores(m.scores, f)),
        m.challenger matches Some((h, c)) && h == g && c + 1 >= SWITCH_AFTER,
{
}

/// A few odd readings do not change the genre: where an update returns a genre, that genre has led
/// by the margin at this update and without a break at five before it at least, and at six of these
/// updates, this one among them, scores were not faint.
#[verifier::spinoff_prover]
pub proof fn lemma_six_leads(m: ClassifierModel, features: Seq<Features>, n: nat, g: Genre) -> (
    from: nat)
    requires
        m.challenger is None,
        n < features.len(),
        after_updates(m, features, n).updated(features[n as int]).1 == Some(g),
    ensures
        from + 5 <= n,
        forall|k: int| from <= k <= n ==> #[trigger] lead_at(m, features, k) == Some(g),
        !is_faint(scores_at(m, features, n as int)),
        clear_count(m, features, from, n + 1) >= SWITCH_AFTER,
{
    let before = after_updates(m, features, n);
    lemma_switch(before, features[n as int], g);
    assert(lead_at(m, features, n as int) == Some(g));
    let (_, c) = before.challenger->0;
    let from = lemma_count(m, features, n, g, c);
    assert(clear_count(m, features, from, n + 1) == clear_count(m, features, from, n) + 1);
    from
}

/// Where scores are faint, nothing is returned, the genre stays, and a challenger that leads by the
/// margin keeps its count; one that does not is forgotten.
pub proof fn lemma_faint_update(m: ClassifierModel, f: Features)
    requires
        is_faint(blended_scores(m.scores, f)),
    ensures
        m.updated(f).1 is None,
        m.updated(f).0.current == m.current,
        m.challenger matches Some((g, c)) ==> m.updated(f).0.challenger == (if margin_leader(
            blended_scores(m.scores, f),
            m.current,
        ) == Some(g) {
            m.challenger
        } else {
            None
        }),
        m.challenger is None ==> m.updated(f).0.challenger is None,
{
}

/// From its beginning a classifier does not name a genre before the sixth update.
pub proof fn lemma_warm_up(features: Seq<Features>, n: nat)
    requires
        n <= 5,
        n <= features.len(),
    ensures
        after_updates(ClassifierModel::initial(), features, n).current == Genre::Unknown,
        after_updates(ClassifierModel::initial(), features, n).challenger matches Some((_, c)) ==> c
            <= n,
    decreases n,
{
    if n > 0 {
        lemma_warm_up(features, (n - 1) as nat);
    }
}

/// A score of nothing: none, or zero.
pub open spec fn is_silent(score: Option<Single>) -> bool {
    score matches Some(s) ==> s.is_plain() && s.magnitude() == 0
}

/// A silent score stays silent while nothing is added to it.
proof fn lemma_silence_lasts(score: Option<Single>, instant: Option<Single>)
    requires
        is_silent(score),
        is_silent(instant),
    ensures
        is_silent(blended(score, instant)),
{
    lemma_zero_one();
    lemma_fraction(82, 82, 100, 1);
    lemma_pow2_pos(149);
    crate::rounding::lemma_units_zero(23);
    if let Some(s) = score {
        let w = hundredths(82);
        lemma_product(s, w);
        assert(s.worth() == 0);
        assert(0 * w.worth() == 0) by (nonlinear_arith);
        assert(0 * pow2(149) == 0) by (nonlinear_arith);
        crate::rounding::lemma_rounded_exact(23, INF as nat, 0, pow2(149), 0);
        if let Some(t) = instant {
            lemma_plus_zero(s.times(w), t);
        }
    } else if let Some(t) = instant {
        lemma_plus_zero(Single::of_whole(0), t);
    }
}

/// Music without kick data, or with kicks on every beat, never counts as hip hop or R&B.
pub proof fn lemma_never_hip_hop(features: Seq<Features>, n: nat, g: Genre)
    requires
        n <= features.len(),
        g == Genre::HipHop || g == Genre::Rnb,
        forall|k: int|
            0 <= k < n ==> are_finite(#[trigger] features[k]) && (!Single::of_whole(0).lt(
                features[k].kick_ibi_bpm,
            ) || Cues::of(features[k]).four_floor == Single::of_whole(1)),
    ensures
        after_updates(ClassifierModel::initial(), features, n).current != g,
        is_silent(after_updates(ClassifierModel::initial(), features, n).scores[g.position() as int]),
    decreases n,
{
    lemma_all_genres(g.position() as int);
    lemma_position_unique(Genre::ALL@[g.position() as int], g);
    if n > 0 {
        let k = (n - 1) as nat;
        lemma_never_hip_hop(features, k, g);
        let before = after_updates(ClassifierModel::initial(), features, k);
        let f = features[k as int];
        lemma_no_syncopation(g, f);
        lemma_silence_lasts(before.scores[g.position() as int], instant_score(g, f));
        let scores = blended_scores(before.scores, f);
        assert(is_silent(scores[g.position() as int]));
        let (best, top) = leader(scores);
        if best == g {
            assert(exists|p: (Genre, Single)| leads(scores, p.0, p.1));
            assert(leads(scores, best, top));
            lemma_fraction(50, 50, 100, 1);
            lemma_zero_one();
            assert(top.lt(hundredths(50)));
        }
    }
}

} // verus!
