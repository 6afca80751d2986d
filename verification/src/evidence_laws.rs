//! How evidence is weighed.
use vstd::arithmetic::power2::{lemma2_to64, lemma_pow2_adds, lemma_pow2_pos, pow2};
use vstd::prelude::*;

use crate::accuracy::{lemma_over_error, lemma_plus_near, lemma_times_near, size};
use crate::core_types::Genre;
use crate::flash_laws::lemma_cancelled;
use crate::genre_laws::{
    all_fair, is_fair, is_number, is_weight, lemma_mean, lemma_sums, lemma_zero_product,
};
use crate::genre_rules::{evidence_terms, total_weight, weighted_mean, weighted_sum, Cues, Features};
use crate::order::{
    lemma_clamped, lemma_plus_zero, lemma_product, lemma_sum, lemma_whole_exact, lemma_worth,
    lemma_zero_one,
};
use crate::single::Single;

verus! {

/// How much each piece of evidence for a genre weighs, in tenths.
pub open spec fn weights(g: Genre) -> Seq<nat> {
    match g {
        Genre::DeepHouse => seq![10nat, 10, 10, 5],
        Genre::House => seq![12nat, 8, 6],
        Genre::TechHouse => seq![12nat, 10, 8, 5, 4],
        Genre::ElectroHouse => seq![12nat, 10, 8, 8],
        Genre::NuDisco => seq![10nat, 10, 8, 4],
        Genre::NetPop => seq![12nat, 8, 8, 6, 4],
        Genre::UkGarage => seq![10nat, 10, 8, 6],
        Genre::JerseyClub => seq![12nat, 10, 6, 6, 5],
        Genre::Techno => seq![12nat, 10, 8, 5],
        Genre::Trance => seq![10nat, 10, 8, 5],
        Genre::Psytrance => seq![12nat, 10, 10, 6],
        Genre::Hardstyle => seq![12nat, 12, 8, 5],
        Genre::Eurobeat => seq![12nat, 10, 8, 6],
        Genre::AnisonRemix => seq![12nat, 10, 8, 8, 4],
        Genre::FutureCore => seq![12nat, 12, 8, 5],
        Genre::Hardcore => seq![12nat, 10, 6, 4],
        Genre::Breakbeat => seq![12nat, 8, 8, 4],
        Genre::DrumAndBass => seq![12nat, 10, 7],
        Genre::Dubstep => seq![10nat, 10, 8, 8],
        Genre::Trap => seq![12nat, 10, 8, 8],
        Genre::Hyperflip => seq![12nat, 10, 8, 6, 6, 5],
        Genre::FutureBass => seq![12nat, 10, 8, 4],
        Genre::KawaiiFutureBass => seq![12nat, 10, 5],
        Genre::HipHop => seq![10nat, 8, 8, 6],
        Genre::Rnb => seq![10nat, 8, 6],
        Genre::Reggaeton => seq![12nat, 10, 8, 5],
        Genre::Synthwave => seq![8nat, 10, 8, 5],
        Genre::Ambient | Genre::Unknown => Seq::empty(),
    }
}

/// The weights of the evidence for a genre do not depend on what is heard.
pub proof fn lemma_weights(g: Genre, f: Features, c: Cues)
    ensures
        evidence_terms(g, f, c).len() == weights(g).len(),
        forall|k: int|
            0 <= k < weights(g).len() ==> (#[trigger] evidence_terms(g, f, c)[k]).0
                == Single::fraction(weights(g)[k], 10),
{
    lemma_cancelled(4, 10, 10);
    lemma_cancelled(5, 10, 10);
    lemma_cancelled(6, 10, 10);
    lemma_cancelled(7, 10, 10);
    lemma_cancelled(8, 10, 10);
    lemma_cancelled(10, 10, 10);
    lemma_cancelled(12, 10, 10);
}

/// The sum of the weights.
pub open spec fn weight_total(terms: Seq<(Single, Single)>) -> nat
    decreases terms.len(),
{
    if terms.len() == 0 {
        0
    } else {
        weight_total(terms.drop_last()) + terms.last().0.worth()
    }
}

/// The sum of the values, each kept from 0 to 1 and times its weight.
pub open spec fn value_total(terms: Seq<(Single, Single)>) -> nat
    decreases terms.len(),
{
    if terms.len() == 0 {
        0
    } else {
        let (w, v) = terms.last();
        value_total(terms.drop_last()) + w.worth() * v.clamp(
            Single::of_whole(0),
            Single::of_whole(1),
        ).worth()
    }
}

proof fn lemma_totals(terms: Seq<(Single, Single)>)
    requires
        all_fair(terms),
        terms.len() <= 8,
    ensures
        total_weight(terms).is_plain(),
        total_weight(terms).worth() <= 16 * pow2(149),
        weighted_sum(terms).is_plain(),
        weighted_sum(terms).worth() <= total_weight(terms).worth(),
        0x100_0000 * size(total_weight(terms).worth() - weight_total(terms)) <= 17 * terms.len()
            * pow2(149),
        0x100_0000 * size(weighted_sum(terms).worth() * pow2(149) - value_total(terms)) <= 20
            * terms.len() * pow2(149) * pow2(149),
    decreases terms.len(),
{
    let u = pow2(149) as int;
    let n = terms.len();
    lemma_pow2_pos(149);
    lemma_zero_one();
    lemma_sums(terms);
    lemma_whole_exact(2 * n);
    lemma_worth(total_weight(terms), Single::of_whole(2 * n));
    lemma_worth(weighted_sum(terms), total_weight(terms));
    assert((2 * n) * pow2(149) <= 16 * pow2(149)) by (nonlinear_arith) requires n <= 8;
    if n == 0 {
        lemma_whole_exact(0);
        assert(0 * pow2(149) == 0) by (nonlinear_arith);
        assert(17 * n * pow2(149) == 0 && 20 * n * pow2(149) * pow2(149) == 0) by (nonlinear_arith)
            requires n == 0;
    } else {
        let r = terms.drop_last();
        let (w, v) = terms.last();
        let c = v.clamp(Single::of_whole(0), Single::of_whole(1));
        let m = n - 1;
        assert(is_fair(terms[m]));
        reveal(is_weight);
        reveal(is_number);
        assert forall|i: int| 0 <= i < r.len() implies is_fair(#[trigger] r[i]) by {
            assert(r[i] == terms[i]);
        }
        lemma_totals(r);
        lemma_sums(r);
        lemma_whole_exact(2 * r.len());
        lemma_worth(total_weight(r), Single::of_whole(2 * r.len()));
        lemma_worth(weighted_sum(r), total_weight(r));
        lemma_whole_exact(1);
        lemma_whole_exact(2);
        lemma_worth(w, Single::of_whole(2));
        lemma_clamped(v);
        lemma_worth(c, Single::of_whole(1));
        let (tw, sw, ww, cw) = (
            total_weight(r).worth() as int,
            weighted_sum(r).worth() as int,
            w.worth() as int,
            c.worth() as int,
        );
        assert(tw <= 14 * u) by (nonlinear_arith)
            requires tw <= (2 * r.len()) * pow2(149), r.len() <= 7, u == pow2(149);
        lemma_plus_near(total_weight(r), w, 16);
        lemma_sum(total_weight(r), w);
        assert(ww * cw <= 2 * u * u) by (nonlinear_arith)
            requires 0 <= ww <= 2 * u, 0 <= cw <= u;
        lemma_times_near(w, c, 2);
        let p = w.times(c);
        lemma_plus_near(weighted_sum(r), p, 16);
        if c.is_negative() {
            lemma_worth(c, Single::of_whole(0));
            lemma_zero_product(w, c);
            lemma_worth(p, Single::of_whole(0));
            lemma_plus_zero(weighted_sum(r), p);
        } else {
            lemma_product(w, c);
            lemma_sum(weighted_sum(r), p);
        }
        let (pw, aw) = (p.worth() as int, weighted_sum(terms).worth() as int);
        let x = size(total_weight(r).worth() - weight_total(r)) as int;
        let y = size(total_weight(terms).worth() - weight_total(terms)) as int;
        let z = size(total_weight(terms).worth() - (tw + ww)) as int;
        assert(y <= x + z);
        assert(0x100_0000 * y <= 17 * n * u) by (nonlinear_arith)
            requires
                y <= x + z,
                0x100_0000 * x <= 17 * m * u,
                0x100_0000 * z <= 17 * u,
                m == n - 1,
        ;
        let (d, e) = (sw * u - value_total(r), pw * u - ww * cw);
        let g = aw - (sw + pw);
        assert(-(3 * u * u) <= 0x100_0000 * e <= 3 * u * u) by {
            if c.is_negative() {
                assert(c.magnitude() == 0 && cw == 0 && pw == 0);
                assert(pw * u == 0 && ww * cw == 0 && 3 * u * u >= 0) by (nonlinear_arith)
                    requires pw == 0, cw == 0;
            }
        }
        assert(-(17 * u) <= 0x100_0000 * g <= 17 * u);
        let uu = u * u;
        let f = aw * u - value_total(terms);
        assert(f == d + e + g * u) by (nonlinear_arith)
            requires
                f == aw * u - (value_total(r) + ww * cw),
                d == sw * u - value_total(r),
                e == pw * u - ww * cw,
                g == aw - (sw + pw),
        ;
        assert(-(17 * uu) <= 0x100_0000 * (g * u) <= 17 * uu) by (nonlinear_arith)
            requires -(17 * u) <= 0x100_0000 * g <= 17 * u, uu == u * u, u > 0;
        assert(20 * m * u * u == 20 * (m * uu) && 3 * u * u == 3 * uu && 20 * n * u * u == 20 * (m
            * uu) + 20 * uu) by (nonlinear_arith) requires uu == u * u, m == n - 1;
    }
}

/// Evidence is weighed: the mean times the sum of the weights is the sum of the weighted values, at
/// most 2^-14 off.
pub proof fn lemma_weighed(terms: Seq<(Single, Single)>)
    requires
        all_fair(terms),
        0 < terms.len() <= 8,
    ensures
        weighted_mean(terms).is_share(),
        size(weighted_mean(terms).worth() * weight_total(terms) - value_total(terms)) <= pow2(135)
            * pow2(149),
{
    let (a, b) = (weighted_sum(terms), total_weight(terms));
    let m = weighted_mean(terms);
    let (u, e) = (pow2(149) as int, pow2(129) as int);
    let n = terms.len();
    lemma2_to64();
    lemma_pow2_pos(149);
    lemma_pow2_pos(129);
    lemma_pow2_adds(20, 129);
    lemma_pow2_adds(6, 129);
    lemma_zero_one();
    lemma_totals(terms);
    lemma_sums(terms);
    lemma_mean(terms);
    lemma_whole_exact(1);
    lemma_worth(m, Single::of_whole(1));
    lemma_over_error(a, b);
    let (mw, aw, bw) = (m.worth() as int, a.worth() as int, b.worth() as int);
    let (wt, vt) = (weight_total(terms) as int, value_total(terms) as int);
    let eu = e * u;
    assert(17 * n * u <= 136 * u && 20 * n * u * u <= 160 * (u * u)) by (nonlinear_arith)
        requires 0 < n <= 8, u > 0;
    assert(u * u == 0x10_0000 * eu) by (nonlinear_arith) requires u == 0x10_0000 * e, eu == e * u;
    let x = mw * bw - aw * u;
    assert(-(16 * eu) <= x <= 16 * eu) by (nonlinear_arith)
        requires -(e * bw) <= x <= e * bw, 0 <= bw <= 16 * u, eu == e * u, e > 0;
    let y = aw * u - vt;
    assert(-(10 * eu) <= y <= 10 * eu);
    let d = wt - bw;
    assert(-(136 * u) <= 0x100_0000 * d <= 136 * u);
    let z = mw * d;
    assert(-(9 * eu) <= z <= 9 * eu) by (nonlinear_arith)
        requires
            -(136 * u) <= 0x100_0000 * d <= 136 * u,
            0 <= mw <= u,
            z == mw * d,
            u * u == 0x10_0000 * eu,
            u > 0,
    ;
    assert(mw * wt - vt == x + y + z) by (nonlinear_arith)
        requires x == mw * bw - aw * u, y == aw * u - vt, d == wt - bw, z == mw * d;
    assert(pow2(135) * pow2(149) == 64 * eu) by (nonlinear_arith)
        requires pow2(135) == 64 * e, pow2(149) == u, eu == e * u;
}

} // verus!
