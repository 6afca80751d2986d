//! What the scores of genres are made of.
use vstd::arithmetic::power2::{lemma2_to64, lemma_pow2_adds, lemma_pow2_pos, pow2};
use vstd::prelude::*;

use crate::accuracy::{lemma_over_error, lemma_plus_near, lemma_times_near, size};
use crate::core_types::Genre;
use crate::flash_laws::lemma_cancelled;
use crate::genre::{blended, blended_scores, leader, margin_leader, ClassifierModel};
use crate::genre_laws::{
    are_finite, lemma_cues, lemma_fit, lemma_grid, lemma_mean, lemma_shape, lemma_terms,
};
use crate::genre_rules::{
    evidence_terms, has_rule, hundredths, instant_score, tempo_fit, weighted_mean, Cues, Features,
};
use crate::order::{
    lemma_fraction, lemma_product, lemma_share, lemma_sum, lemma_times_share, lemma_whole_exact,
    lemma_worth, lemma_zero_one,
};
use crate::rounding::lemma_rounded_exact;
use crate::single::{Single, INF};

verus! {

/// Music whose intensity is below 0.08 or whose tempo is less than 0.05 certain counts for the
/// ambient genre, with 3/5, and for no other; any other music counts for every genre with a rule,
/// and not for the ambient one.
pub proof fn lemma_quiet_music(g: Genre, f: Features)
    ensures
        ({
            let quiet = f.intensity.lt(Single::fraction(8, 100)) || f.bpm_confidence.lt(
                Single::fraction(5, 100),
            );
            &&& quiet && g == Genre::Ambient ==> instant_score(g, f) == Some(Single::fraction(3, 5))
            &&& quiet && g != Genre::Ambient ==> instant_score(g, f) is None
            &&& !quiet && g != Genre::Ambient && g != Genre::Unknown ==> instant_score(
                g,
                f,
            ) is Some
            &&& !quiet && (g == Genre::Ambient || g == Genre::Unknown) ==> instant_score(
                g,
                f,
            ) is None
        }),
{
    lemma_cancelled(3, 5, 20);
}

/// A decimal fraction of a number up to 8, at most 2^-16 off.
proof fn lemma_scaled(s: Single, p: nat, q: nat)
    requires
        s.is_plain(),
        s.worth() <= 8 * pow2(149),
        0 < p <= 2 * q,
        q < 0x1000,
    ensures
        s.times(Single::fraction(p, q)).is_plain(),
        s.times(Single::fraction(p, q)).worth() <= 32 * pow2(149),
        size(q * s.times(Single::fraction(p, q)).worth() - p * s.worth()) <= q * pow2(133),
{
    let c = Single::fraction(p, q);
    let (u, e) = (pow2(149) as int, pow2(129) as int);
    lemma2_to64();
    lemma_pow2_pos(149);
    lemma_pow2_pos(129);
    lemma_pow2_adds(20, 129);
    lemma_pow2_adds(4, 129);
    lemma_whole_exact(p);
    lemma_whole_exact(q);
    assert(p * pow2(149) <= 4 * (q * pow2(149)) && q * pow2(149) > 0) by (nonlinear_arith)
        requires 0 < p <= 2 * q, pow2(149) > 0;
    lemma_worth(Single::of_whole(q), Single::of_whole(q));
    lemma_over_error(Single::of_whole(p), Single::of_whole(q));
    let (sw, cw, pi, qi) = (s.worth() as int, c.worth() as int, p as int, q as int);
    assert(sw * cw <= 32 * u * u) by (nonlinear_arith)
        requires 0 <= sw <= 8 * u, 0 <= cw <= 4 * u;
    lemma_times_near(s, c, 32);
    lemma_product(s, c);
    let r = s.times(c).worth() as int;
    let v = qi * cw - pi * u;
    assert(cw * (qi * u) - (pi * u) * u == v * u) by (nonlinear_arith)
        requires v == qi * cw - pi * u;
    assert(-(qi * e) <= v <= qi * e) by (nonlinear_arith)
        requires -(e * (qi * u)) <= v * u <= e * (qi * u), u > 0;
    let z = qi * r - pi * sw;
    let k = r * u - sw * cw;
    assert(-(33 * u * u) <= 0x100_0000 * k <= 33 * u * u);
    assert(z * u == qi * k + sw * v) by (nonlinear_arith)
        requires z == qi * r - pi * sw, k == r * u - sw * cw, v == qi * cw - pi * u;
    let x = qi * u * u;
    assert(-(33 * x) <= 0x100_0000 * (qi * k) <= 33 * x) by (nonlinear_arith)
        requires -(33 * u * u) <= 0x100_0000 * k <= 33 * u * u, x == qi * u * u, qi > 0;
    let y = qi * e * u;
    assert(-(8 * y) <= sw * v <= 8 * y) by (nonlinear_arith)
        requires -(qi * e) <= v <= qi * e, 0 <= sw <= 8 * u, y == qi * e * u, qi > 0, e > 0;
    assert(x == 0x10_0000 * y) by (nonlinear_arith)
        requires x == qi * u * u, y == qi * e * u, u == 0x10_0000 * e;
    assert(-(16 * y) <= z * u <= 16 * y);
    assert(-(qi * (16 * e)) <= z <= qi * (16 * e)) by (nonlinear_arith)
        requires -(16 * y) <= z * u <= 16 * y, y == qi * e * u, u > 0;
}

/// Scores remember: of the score up to 8 that a genre had, 0.82 is left at every update, and what
/// it scores at present is added in full.
pub proof fn lemma_memory(s: Single, now: Single)
    requires
        s.is_plain(),
        s.worth() <= 8 * pow2(149),
        now.is_share(),
    ensures
        blended(Some(s), None) matches Some(r) && r.is_plain() && size(
            100 * r.worth() - 82 * s.worth(),
        ) <= 100 * pow2(133),
        blended(Some(s), Some(now)) matches Some(r) && r.is_plain() && size(
            100 * r.worth() - (82 * s.worth() + 100 * now.worth()),
        ) <= 100 * pow2(134),
        blended(None, Some(now)) matches Some(r) && r.worth() == now.worth(),
        blended(None, None) is None,
{
    let u = pow2(149);
    let k = s.times(hundredths(82));
    lemma2_to64();
    lemma_pow2_pos(149);
    lemma_pow2_pos(133);
    lemma_pow2_adds(16, 133);
    lemma_pow2_adds(1, 133);
    lemma_zero_one();
    lemma_whole_exact(0);
    lemma_whole_exact(1);
    lemma_worth(now, Single::of_whole(1));
    lemma_scaled(s, 82, 100);
    lemma_plus_near(k, now, 33);
    lemma_sum(k, now);
    let h = pow2(133);
    assert(u == 0x1_0000 * h && pow2(134) == 2 * h);
    let r = k.plus(now);
    assert(r.is_plain());
    assert(0x100_0000 * size(r.worth() - (k.worth() + now.worth())) <= 34 * u);
    assert(size(r.worth() - (k.worth() + now.worth())) <= h);
    let zero = Single::of_whole(0);
    assert(0 * u == 0) by (nonlinear_arith);
    lemma_sum(zero, now);
    lemma_rounded_exact(
        23,
        INF as nat,
        now.worth(),
        1,
        now.magnitude(),
    );
    assert(zero.worth() + now.worth() == now.worth());
}

/// A genre leads the present one only with more than 1.4 times its score and 0.2, at most 2^-15
/// off, and with as much it does.
pub proof fn lemma_margin(scores: Seq<Option<Single>>, current: Genre, held: Single)
    requires
        scores[current.position() as int] == Some(held) || (scores[current.position() as int]
            is None && held == Single::of_whole(0)),
        held.is_plain(),
        held.worth() <= 8 * pow2(149),
        leader(scores).1.is_plain(),
    ensures
        ({
            let (best, top) = leader(scores);
            let bar = 140 * held.worth() + 20 * pow2(149);
            &&& margin_leader(scores, current) matches Some(g) ==> g == best && g != current && 100
                * top.worth() + 100 * pow2(134) >= bar
            &&& best != current && 100 * top.worth() > bar + 100 * pow2(134) ==> margin_leader(
                scores,
                current,
            ) == Some(best)
        }),
{
    let (best, top) = leader(scores);
    let (u, e) = (pow2(149), pow2(129));
    let (k, fifth) = (held.times(hundredths(140)), hundredths(20));
    lemma2_to64();
    lemma_pow2_pos(149);
    lemma_pow2_pos(129);
    lemma_pow2_pos(133);
    lemma_pow2_adds(20, 129);
    lemma_pow2_adds(4, 129);
    lemma_pow2_adds(5, 129);
    lemma_scaled(held, 140, 100);
    lemma_whole_exact(20);
    lemma_whole_exact(100);
    lemma_worth(Single::of_whole(100), Single::of_whole(100));
    lemma_over_error(Single::of_whole(20), Single::of_whole(100));
    let f = fifth.worth() as int;
    let v = 100 * f - 20 * u;
    assert(f * (100 * u) - (20 * u) * u == v * u) by (nonlinear_arith)
        requires v == 100 * f - 20 * u;
    assert(-(100 * e) <= v <= 100 * e) by (nonlinear_arith)
        requires -(e * (100 * u)) <= v * u <= e * (100 * u), u > 0;
    lemma_plus_near(k, fifth, 36);
    lemma_sum(k, fifth);
    let h = pow2(133);
    assert(u == 0x10_0000 * e && h == 16 * e && pow2(134) == 32 * e);
    let r = k.plus(fifth);
    assert(r.is_plain());
    assert(0x100_0000 * size(r.worth() - (k.worth() + fifth.worth())) <= 37 * u);
    assert(size(r.worth() - (k.worth() + fifth.worth())) <= 3 * e);
    assert(size(100 * r.worth() - (140 * held.worth() + 20 * u)) <= 100 * pow2(134));
    lemma_worth(k.plus(fifth), top);
}

/// The score of a genre is how far the tempo fits times a quarter and three quarters of the
/// evidence, at most 2^-16 off.
pub proof fn lemma_score_parts(g: Genre, f: Features)
    requires
        has_rule(g),
        are_finite(f),
        f.kick_regularity.is_share(),
        !f.intensity.lt(Single::fraction(8, 100)),
        !f.bpm_confidence.lt(Single::fraction(5, 100)),
    ensures
        ({
            let c = Cues::of(f);
            let (fit, ev) = (tempo_fit(g, c), weighted_mean(evidence_terms(g, f, c)));
            &&& fit.is_share() && ev.is_share()
            &&& instant_score(g, f) matches Some(s) && s.is_share() && size(
                4 * s.worth() * pow2(149) - fit.worth() * (pow2(149) + 3 * ev.worth()),
            ) <= 4 * pow2(133) * pow2(149)
        }),
{
    let c = Cues::of(f);
    let (fit, ev) = (tempo_fit(g, c), weighted_mean(evidence_terms(g, f, c)));
    lemma_grid(f);
    lemma_cues(f);
    lemma_terms(g, f, c);
    lemma_mean(evidence_terms(g, f, c));
    lemma_fit(g, f);
    lemma_shape(ev);
    lemma_shaped(fit, ev);
}

proof fn lemma_shaped(fit: Single, ev: Single)
    requires
        fit.is_share(),
        ev.is_share(),
        hundredths(25).plus(hundredths(75).times(ev)).is_share(),
    ensures
        ({
            let s = fit.times(hundredths(25).plus(hundredths(75).times(ev)));
            &&& s.is_share()
            &&& size(4 * s.worth() * pow2(149) - fit.worth() * (pow2(149) + 3 * ev.worth())) <= 4
                * pow2(133) * pow2(149)
        }),
{
    let (u, e) = (pow2(149) as int, pow2(129) as int);
    let (one, a, b) = (Single::of_whole(1), hundredths(25), hundredths(75));
    lemma2_to64();
    lemma_pow2_pos(149);
    lemma_pow2_pos(129);
    lemma_pow2_adds(20, 129);
    lemma_pow2_adds(4, 129);
    lemma_zero_one();
    lemma_whole_exact(1);
    lemma_whole_exact(25);
    lemma_whole_exact(100);
    lemma_worth(ev, one);
    lemma_worth(fit, one);
    lemma_worth(Single::of_whole(100), Single::of_whole(100));
    lemma_over_error(Single::of_whole(25), Single::of_whole(100));
    lemma_fraction(25, 25, 100, 1);
    lemma_worth(a, one);
    let q = a.worth() as int;
    let v = 100 * q - 25 * u;
    assert(q * (100 * u) - (25 * u) * u == v * u) by (nonlinear_arith)
        requires v == 100 * q - 25 * u;
    assert(-(100 * e) <= v <= 100 * e) by (nonlinear_arith)
        requires -(e * (100 * u)) <= v * u <= e * (100 * u), u > 0;
    assert(-(4 * e) <= 4 * q - u <= 4 * e);
    lemma_scaled_share(ev);
    let p = b.times(ev);
    lemma_plus_near(a, p, 3);
    lemma_sum(a, p);
    let sh = a.plus(p);
    let (pw, sw, fw, ew) = (
        p.worth() as int,
        sh.worth() as int,
        fit.worth() as int,
        ev.worth() as int,
    );
    lemma_worth(sh, one);
    assert(fw * sw <= 1 * u * u) by (nonlinear_arith) requires 0 <= fw <= u, 0 <= sw <= u;
    lemma_times_near(fit, sh, 1);
    lemma_times_share(fit, sh);
    let s = fit.times(sh);
    let rw = s.worth() as int;
    let t = 4 * sw - (u + 3 * ew);
    assert(-(40 * e) <= t <= 40 * e);
    let k = rw * u - fw * sw;
    assert(-(2 * u * u) <= 0x100_0000 * k <= 2 * u * u);
    assert(2 * u * u == 2 * (u * u)) by (nonlinear_arith);
    assert(u * u == 0x10_0000 * (e * u)) by (nonlinear_arith) requires u == 0x10_0000 * e;
    assert(-(e * u) <= k <= e * u);
    assert(-(40 * (e * u)) <= fw * t <= 40 * (e * u)) by (nonlinear_arith)
        requires -(40 * e) <= t <= 40 * e, 0 <= fw <= u, e > 0;
    assert(4 * rw * u - fw * (u + 3 * ew) == 4 * k + fw * t) by (nonlinear_arith)
        requires k == rw * u - fw * sw, t == 4 * sw - (u + 3 * ew);
    assert(4 * pow2(133) * pow2(149) == 64 * (e * u)) by (nonlinear_arith)
        requires pow2(133) == 16 * e, pow2(149) == u;
}

proof fn lemma_scaled_share(ev: Single)
    requires
        ev.is_share(),
    ensures
        hundredths(75).times(ev).is_plain(),
        hundredths(75).times(ev).worth() <= pow2(149),
        size(100 * hundredths(75).times(ev).worth() - 75 * ev.worth()) <= 100 * (8 * pow2(129)),
{
    let (u, e) = (pow2(149) as int, pow2(129) as int);
    let (one, b) = (Single::of_whole(1), hundredths(75));
    lemma2_to64();
    lemma_pow2_pos(149);
    lemma_pow2_pos(129);
    lemma_pow2_adds(20, 129);
    lemma_zero_one();
    lemma_whole_exact(1);
    lemma_whole_exact(75);
    lemma_whole_exact(100);
    lemma_worth(ev, one);
    lemma_worth(Single::of_whole(100), Single::of_whole(100));
    lemma_over_error(Single::of_whole(75), Single::of_whole(100));
    lemma_fraction(75, 75, 100, 1);
    lemma_worth(b, one);
    let (q, ew) = (b.worth() as int, ev.worth() as int);
    let v = 100 * q - 75 * u;
    assert(q * (100 * u) - (75 * u) * u == v * u) by (nonlinear_arith)
        requires v == 100 * q - 75 * u;
    assert(-(100 * e) <= v <= 100 * e) by (nonlinear_arith)
        requires -(e * (100 * u)) <= v * u <= e * (100 * u), u > 0;
    assert(q * ew <= 1 * u * u) by (nonlinear_arith) requires 0 <= q <= u, 0 <= ew <= u;
    lemma_times_near(b, ev, 1);
    lemma_product(b, ev);
    let pw = b.times(ev).worth() as int;
    let k = pw * u - q * ew;
    assert(-(2 * u * u) <= 0x100_0000 * k <= 2 * u * u);
    assert(2 * u * u == 2 * (u * u)) by (nonlinear_arith);
    assert(u * u == 0x10_0000 * (e * u)) by (nonlinear_arith) requires u == 0x10_0000 * e;
    let z = 100 * pw - 75 * ew;
    assert(z * u == 100 * k + ew * v) by (nonlinear_arith)
        requires z == 100 * pw - 75 * ew, k == pw * u - q * ew, v == 100 * q - 75 * u;
    assert(-(100 * (e * u)) <= ew * v <= 100 * (e * u)) by (nonlinear_arith)
        requires -(100 * e) <= v <= 100 * e, 0 <= ew <= u, e > 0;
    assert(-(200 * (e * u)) <= z * u <= 200 * (e * u));
    assert(-(200 * e) <= z <= 200 * e) by (nonlinear_arith)
        requires -(200 * (e * u)) <= z * u <= 200 * (e * u), u > 0;
}

/// A challenger of a genre.
pub open spec fn is_of(c: (Genre, nat), g: Genre) -> bool {
    c.0 == g
}

/// A lead counts only where the highest score reaches 1/2: below that an update names no genre, and
/// from there on the sixth lead in a row does.
pub proof fn lemma_sixth_lead(m: ClassifierModel, f: Features, g: Genre)
    ensures
        ({
            let scores = blended_scores(m.scores, f);
            let top = leader(scores).1;
            let ahead = margin_leader(scores, m.current) == Some(g);
            let n = m.updated(f);
            &&& top.lt(Single::fraction(1, 2)) ==> n.1 is None && n.0.current == m.current
            &&& !ahead ==> n.1 != Some(g) && (n.0.challenger matches Some((h, _)) ==> h != g)
            &&& !top.lt(Single::fraction(1, 2)) && ahead && m.challenger == Some((g, 5nat)) ==> n.1
                == Some(g) && n.0.current == g && n.0.challenger is None
            &&& !top.lt(Single::fraction(1, 2)) && ahead && (m.challenger is None || !is_of(
                m.challenger->0,
                g,
            )) ==> n.1 is None && n.0.challenger == Some((g, 1nat))
            &&& n.0.scores == scores
        }),
{
    lemma_cancelled(1, 2, 50);
}

/// A ranking names the genres whose score is above a hundredth, each with its part of the sum of
/// the positive scores, at most 2^-20 off.
pub proof fn lemma_ranked_share(m: ClassifierModel, g: Genre, s: Single)
    requires
        m.scores[g.position() as int] == Some(s),
        s.is_plain(),
        m.positive_total(29).is_plain(),
        m.positive_total(29).magnitude() > 0,
        s.magnitude() <= m.positive_total(29).magnitude(),
    ensures
        m.share(g) is Some <==> Single::fraction(1, 100).lt(s),
        m.share(g) matches Some(r) ==> r.is_share() && size(
            r.worth() * m.positive_total(29).worth() - s.worth() * pow2(149),
        ) <= pow2(129) * m.positive_total(29).worth(),
{
    let t = m.positive_total(29);
    lemma_share(s, t);
    lemma_worth(s, t);
    lemma_worth(t, t);
    lemma_over_error(s, t);
    lemma_zero_one();
}

} // verus!
