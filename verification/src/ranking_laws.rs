//! What holds of the rankings that the classifier gives.
use vstd::arithmetic::power2::{lemma_pow2_adds, lemma_pow2_pos, pow2};
use vstd::prelude::*;

use crate::core_types::{lemma_all_genres, lemma_position_unique, Genre, GENRES};
use crate::genre::{blended, blended_scores, is_ranked, is_ranking, ranks_before, ClassifierModel};
use crate::genre_laws::{after_updates, are_finite, lemma_scores_range};
use crate::genre_rules::{hundredths, instant_score, Features};
use crate::order::{
    lemma_fraction, lemma_product, lemma_quotient, lemma_share, lemma_sum, lemma_sum_grows,
    lemma_sum_order, lemma_whole_exact, lemma_whole_order, lemma_whole_sum, lemma_worth,
    lemma_zero_one,
};
use crate::rounding::{
    lemma_rounded_above, lemma_rounded_below, lemma_rounded_exact, lemma_rounded_monotone,
    lemma_units_increase, lemma_units_of_parts, units,
};
use crate::single::{Single, INF};

verus! {

/// Of two genres that have a share, one ranks before the other.
proof fn lemma_ranks(m: ClassifierModel, a: (Genre, Single), b: (Genre, Single))
    requires
        m.share(a.0) == Some(a.1),
        m.share(b.0) == Some(b.1),
        a != b,
    ensures
        ranks_before(a, b) || ranks_before(b, a),
        !(ranks_before(a, b) && ranks_before(b, a)),
{
    if a.0.position() == b.0.position() {
        lemma_position_unique(a.0, b.0);
    }
}

/// Two rankings agree at a place where both have agreed before.
proof fn lemma_rankings_agree(
    m: ClassifierModel,
    a: nat,
    b: nat,
    v: Seq<(Genre, Single)>,
    w: Seq<(Genre, Single)>,
    i: int,
)
    requires
        a <= b,
        is_ranking(m, a, v),
        is_ranking(m, b, w),
        0 <= i < v.len(),
        i <= w.len(),
        forall|j: int| 0 <= j < i ==> v[j] == w[j],
    ensures
        i < w.len(),
        v[i] == w[i],
{
    let x = v[i];
    assert(m.share(x.0) == Some(x.1));
    if w.contains(x) {
        let k = w.index_of(x);
        if k < i {
            assert(ranks_before(v[k], v[i]));
        }
    }
    assert(i < w.len());
    let y = w[i];
    assert(m.share(y.0) == Some(y.1));
    if x != y {
        lemma_ranks(m, x, y);
        if ranks_before(x, y) {
            if w.contains(x) {
                let k = w.index_of(x);
                if k > i {
                    assert(ranks_before(w[i], w[k]));
                } else {
                    assert(ranks_before(v[k], v[i]));
                }
            } else {
                assert(ranks_before(w[i], (x.0, x.1)));
            }
        } else {
            if v.contains(y) {
                let k = v.index_of(y);
                if k > i {
                    assert(ranks_before(v[i], v[k]));
                } else {
                    assert(ranks_before(w[k], w[i]));
                }
            } else {
                assert(ranks_before(v[i], (y.0, y.1)));
            }
        }
    }
}

proof fn lemma_rankings_from(
    m: ClassifierModel,
    a: nat,
    b: nat,
    v: Seq<(Genre, Single)>,
    w: Seq<(Genre, Single)>,
    n: nat,
)
    requires
        a <= b,
        is_ranking(m, a, v),
        is_ranking(m, b, w),
        n <= v.len(),
    ensures
        n <= w.len(),
        forall|j: int| 0 <= j < n ==> v[j] == w[j],
    decreases n,
{
    if n > 0 {
        lemma_rankings_from(m, a, b, v, w, (n - 1) as nat);
        lemma_rankings_agree(m, a, b, v, w, n - 1);
    }
}

/// A shorter ranking is the beginning of a longer one.
pub proof fn lemma_ranking_prefix(
    m: ClassifierModel,
    a: nat,
    b: nat,
    v: Seq<(Genre, Single)>,
    w: Seq<(Genre, Single)>,
)
    requires
        a <= b,
        is_ranked(m, a, v),
        is_ranked(m, b, w),
    ensures
        v.is_prefix_of(w),
{
    if v.len() > 0 {
        lemma_rankings_from(m, a, b, v, w, v.len());
    }
}

/// Scores as the rules give them: numbers from 0 to 8.
pub open spec fn are_bounded(m: ClassifierModel) -> bool {
    &&& m.scores.len() == GENRES
    &&& forall|i: int|
        0 <= i < GENRES ==> (#[trigger] m.scores[i] matches Some(s) ==> s.is_plain()
            && s.magnitude() <= Single::of_whole(8).magnitude())
}

/// 8, decayed by one update, is at most 7.
proof fn lemma_decay()
    ensures
        hundredths(82).is_plain(),
        8 * hundredths(82).worth() <= 7 * pow2(149),
{
    let u = pow2(149);
    let (a, b, h) = (Single::of_whole(82), Single::of_whole(100), hundredths(82));
    lemma_whole_exact(82);
    lemma_whole_exact(100);
    lemma_fraction(82, 82, 100, 1);
    lemma_pow2_pos(149);
    lemma_worth(b, b);
    assert(b.worth() > 0);
    lemma_quotient(a, b);
    lemma_rounded_above(23, INF as nat, a.worth() * u, b.worth());
    lemma_powers();
    let (n, d, e) = (a.worth() * u, b.worth(), pow2(23));
    assert(2 * e * (h.worth() * d) <= (2 * e + 1) * n + e * d);
    let x = h.worth() * d;
    assert(n == 82 * (u * u)) by (nonlinear_arith) requires n == (82 * u) * u;
    assert(x == 100 * (h.worth() * u)) by (nonlinear_arith)
        requires x == h.worth() * d, d == 100 * u;
    assert(2 * e * x == 16777216 * x) by (nonlinear_arith) requires e == 8388608;
    assert((2 * e + 1) * n == 16777217 * n) by (nonlinear_arith) requires e == 8388608;
    assert(e * d == 8388608 * d) by (nonlinear_arith) requires e == 8388608;
    lemma_decay_bound(h.worth() as int, u as int, x as int, n as int, d as int);
}

proof fn lemma_decay_bound(w: int, u: int, x: int, n: int, d: int)
    requires
        u >= 1000,
        w >= 0,
        x == 100 * (w * u),
        n == 82 * (u * u),
        d == 100 * u,
        16777216 * x <= 16777217 * n + 8388608 * d,
    ensures
        8 * w <= 7 * u,
{
    assert(1677721600 * w <= 1375731794 * u + 838860800) by (nonlinear_arith)
        requires
            1677721600 * (w * u) <= 1375731794 * (u * u) + 838860800 * u,
            u >= 1000,
    ;
}

proof fn lemma_powers()
    ensures
        pow2(23) == 8388608,
        pow2(149) >= 0x1_0000_0000_0000,
{
    vstd::arithmetic::power2::lemma2_to64();
    vstd::arithmetic::power2::lemma2_to64_rest();
    lemma_pow2_adds(48, 101);
    lemma_pow2_pos(101);
    assert(pow2(48) * pow2(101) >= pow2(48)) by (nonlinear_arith) requires pow2(101) >= 1;
}

/// An update keeps scores bounded.
proof fn lemma_blended_bounded(score: Option<Single>, instant: Option<Single>)
    requires
        score matches Some(s) ==> s.is_plain() && s.magnitude() <= Single::of_whole(8).magnitude(),
        instant matches Some(s) ==> s.is_share(),
    ensures
        blended(score, instant) matches Some(s) ==> s.is_plain() && s.magnitude()
            <= Single::of_whole(8).magnitude(),
{
    let u = pow2(149);
    let (one, seven, eight) = (Single::of_whole(1), Single::of_whole(7), Single::of_whole(8));
    let h = hundredths(82);
    lemma_zero_one();
    lemma_decay();
    lemma_pow2_pos(149);
    lemma_whole_exact(7);
    lemma_whole_exact(8);
    lemma_whole_order(7, 8);
    lemma_whole_order(1, 8);
    lemma_whole_sum(7, 1);
    lemma_whole_sum(0, 1);
    if let Some(s) = score {
        lemma_product(s, h);
        lemma_worth(s, eight);
        assert(s.worth() <= eight.worth());
        let (x, w) = (s.worth(), h.worth());
        assert(x * w <= (8 * u) * w) by (nonlinear_arith) requires x <= 8 * u;
        assert((8 * u) * w <= (7 * u) * u) by (nonlinear_arith) requires 8 * w <= 7 * u;
        lemma_rounded_monotone(23, INF as nat, s.worth() * h.worth(), u, seven.worth(), 1);
        lemma_rounded_exact(23, INF as nat, seven.worth(), 1, seven.magnitude());
        assert(s.times(h).magnitude() <= seven.magnitude());
        if let Some(t) = instant {
            lemma_sum_order(s.times(h), seven, t, one);
        }
    } else if let Some(t) = instant {
        lemma_sum_order(Single::of_whole(0), Single::of_whole(0), t, one);
    }
}

/// Features as they are measured: finite, with a regularity from 0 to 1.
pub open spec fn are_measured(features: Seq<Features>, n: nat) -> bool {
    forall|k: int|
        0 <= k < n ==> are_finite(#[trigger] features[k]) && features[k].kick_regularity.is_share()
}

/// The scores of a classifier stay from 0 to 8.
pub proof fn lemma_scores_bounded(features: Seq<Features>, n: nat)
    requires
        n <= features.len(),
        are_measured(features, n),
    ensures
        are_bounded(after_updates(ClassifierModel::initial(), features, n)),
    decreases n,
{
    if n > 0 {
        let k = (n - 1) as nat;
        let f = features[k as int];
        let before = after_updates(ClassifierModel::initial(), features, k);
        let after = after_updates(ClassifierModel::initial(), features, n);
        lemma_scores_bounded(features, k);
        assert(after.scores == blended_scores(before.scores, f));
        assert forall|i: int| 0 <= i < GENRES implies (#[trigger] after.scores[i] matches Some(s)
            ==> s.is_plain() && s.magnitude() <= Single::of_whole(8).magnitude()) by {
            let g = Genre::ALL@[i];
            assert(before.scores[i] is Some || before.scores[i] is None);
            lemma_scores_range(g, f);
            lemma_blended_bounded(before.scores[i], instant_score(g, f));
        }
    }
}

/// The total of bounded scores is finite, and no score is above it.
proof fn lemma_totals(m: ClassifierModel, n: nat)
    requires
        n <= GENRES,
        are_bounded(m),
    ensures
        m.positive_total(n).is_plain(),
        m.positive_total(n).magnitude() <= Single::of_whole(8 * n).magnitude(),
        forall|i: int|
            0 <= i < n ==> (#[trigger] m.scores[i] matches Some(s) ==> s.magnitude()
                <= m.positive_total(n).magnitude()),
    decreases n,
{
    lemma_zero_one();
    if n > 0 {
        let k = (n - 1) as nat;
        lemma_totals(m, k);
        lemma_whole_order(8 * k, 8 * n);
        if let Some(s) = m.scores[k as int] {
            if Single::of_whole(0).lt(s) {
                lemma_sum_grows(m.positive_total(k), s);
                lemma_whole_order(8, 8);
                lemma_whole_sum(8 * k, 8);
                lemma_sum_order(
                    m.positive_total(k),
                    Single::of_whole(8 * k),
                    s,
                    Single::of_whole(8),
                );
            }
        }
    }
}

/// The shares of a ranking are above 0 and at most 1.
pub proof fn lemma_shares_range(m: ClassifierModel, g: Genre)
    requires
        are_bounded(m),
    ensures
        m.share(g) matches Some(s) ==> Single::of_whole(0).lt(s) && s.le(Single::of_whole(1)),
{
    lemma_zero_one();
    let u = pow2(149);
    let total = m.positive_total(GENRES as nat);
    lemma_totals(m, GENRES as nat);
    lemma_all_genres(g.position() as int);
    if let Some(s) = m.scores[g.position() as int] {
        if hundredths(1).lt(s) {
            lemma_hundredth();
            lemma_worth(hundredths(1), s);
            assert(m.scores[g.position() as int] is Some);
            lemma_share(s, total);
            lemma_quotient(s, total);
            lemma_whole_exact(232);
            lemma_worth(total, Single::of_whole(232));
            lemma_pow2_pos(149);
            assert(1 * total.worth() <= (s.worth() * u) * 1) by (nonlinear_arith)
                requires total.worth() <= 232 * u, s.worth() >= 232, u > 0;
            lemma_rounded_monotone(23, INF as nat, 1, 1, s.worth() * u, total.worth());
            lemma_small(1);
            lemma_rounded_exact(23, INF as nat, 1, 1, 1);
        }
    }
}

/// Small magnitudes are worth as many units.
proof fn lemma_small(k: nat)
    requires
        k < 8388608,
    ensures
        units(23, k) == k,
{
    lemma_powers();
    lemma_units_of_parts(23, 0, k);
    vstd::arithmetic::power2::lemma2_to64();
}

/// A hundredth is many units.
proof fn lemma_hundredth()
    ensures
        hundredths(1).is_plain(),
        hundredths(1).worth() >= 232,
{
    let u = pow2(149);
    lemma_whole_exact(1);
    lemma_whole_exact(100);
    lemma_fraction(1, 1, 100, 1);
    lemma_powers();
    lemma_worth(Single::of_whole(100), Single::of_whole(100));
    let (a, b) = (Single::of_whole(1), Single::of_whole(100));
    lemma_quotient(a, b);
    lemma_small(232);
    lemma_rounded_exact(23, INF as nat, 232, 1, 232);
    assert(232 * b.worth() <= (a.worth() * u) * 1) by (nonlinear_arith)
        requires a.worth() == u, b.worth() == 100 * u, u >= 23200;
    lemma_rounded_monotone(23, INF as nat, 232, 1, a.worth() * u, b.worth());
    if 232 < hundredths(1).magnitude() {
        lemma_units_increase(23, 232, hundredths(1).magnitude());
    }
}

/// What a genre adds to the total, in units.
spec fn part(m: ClassifierModel, p: int) -> nat {
    match m.scores[p] {
        Some(s) => if Single::of_whole(0).lt(s) {
            s.worth()
        } else {
            0
        },
        None => 0,
    }
}

/// The parts of the first `n` genres that are in a set.
spec fn parts_in(m: ClassifierModel, set: Set<int>, n: nat) -> nat
    decreases n,
{
    if n == 0 {
        0
    } else {
        parts_in(m, set, (n - 1) as nat) + if set.contains(n - 1) {
            part(m, n - 1)
        } else {
            0
        }
    }
}

/// The parts of the first `n` genres.
spec fn parts(m: ClassifierModel, n: nat) -> nat
    decreases n,
{
    if n == 0 {
        0
    } else {
        parts(m, (n - 1) as nat) + part(m, n - 1)
    }
}

proof fn lemma_parts_in(m: ClassifierModel, set: Set<int>, n: nat)
    ensures
        parts_in(m, set, n) <= parts(m, n),
    decreases n,
{
    if n > 0 {
        lemma_parts_in(m, set, (n - 1) as nat);
    }
}

proof fn lemma_one_part(m: ClassifierModel, set: Set<int>, p: int, n: nat)
    requires
        !set.contains(p),
        0 <= p,
    ensures
        parts_in(m, set.insert(p), n) == parts_in(m, set, n) + if p < n {
            part(m, p)
        } else {
            0
        },
    decreases n,
{
    if n > 0 {
        lemma_one_part(m, set, p, (n - 1) as nat);
    }
}

/// The total of the scores is hardly below the sum of its parts.
proof fn lemma_total_of_parts(m: ClassifierModel, n: nat)
    requires
        n <= GENRES,
        are_bounded(m),
    ensures
        16777216 * parts(m, n) <= (16777216 + 2 * n) * m.positive_total(n).worth(),
    decreases n,
{
    lemma_zero_one();
    lemma_powers();
    if n > 0 {
        let k = (n - 1) as nat;
        lemma_total_of_parts(m, k);
        lemma_totals(m, k);
        lemma_totals(m, n);
        let (t, q) = (m.positive_total(k), m.positive_total(n));
        let before = parts(m, k);
        if part(m, k as int) > 0 {
            let s = m.scores[k as int]->0;
            lemma_sum(t, s);
            lemma_rounded_below(23, INF as nat, t.worth() + s.worth());
            let x = t.worth() + s.worth();
            assert(2 * pow2(23) * x == 16777216 * x) by (nonlinear_arith)
                requires pow2(23) == 8388608;
            assert((2 * pow2(23) + 1) * q.worth() == 16777217 * q.worth()) by (nonlinear_arith)
                requires pow2(23) == 8388608;
            lemma_total_step(
                before as int,
                t.worth() as int,
                s.worth() as int,
                q.worth() as int,
                n as int,
            );
        } else {
            assert((16777216 + 2 * k) * t.worth() <= (16777216 + 2 * n) * t.worth())
                by (nonlinear_arith)
                requires k <= n;
            lemma_worth(t, q);
            if let Some(s) = m.scores[k as int] {
                lemma_worth(s, s);
            }
        }
    }
}

proof fn lemma_total_step(before: int, t: int, s: int, q: int, n: int)
    requires
        0 < n <= 29,
        0 <= before,
        0 <= t,
        0 <= s,
        0 <= q,
        16777216 * before <= (16777216 + 2 * (n - 1)) * t,
        16777216 * (t + s) <= 16777217 * q,
    ensures
        16777216 * (before + s) <= (16777216 + 2 * n) * q,
{
    let e = 16777216int;
    let a = e + 2 * (n - 1);
    assert(e * (before + s) <= a * (t + s)) by (nonlinear_arith)
        requires e * before <= a * t, e <= a, s >= 0;
    assert(a * (e * (t + s)) <= a * ((e + 1) * q)) by (nonlinear_arith)
        requires e * (t + s) <= (e + 1) * q, a >= 0;
    assert((e * (e * (before + s))) <= e * (a * (t + s))) by (nonlinear_arith)
        requires e * (before + s) <= a * (t + s), e >= 0;
    assert(e * (a * (t + s)) == a * (e * (t + s))) by (nonlinear_arith);
    assert(a * ((e + 1) * q) <= e * ((e + 2 * n) * q)) by (nonlinear_arith)
        requires a == e + 2 * (n - 1), e == 16777216, 0 < n <= 29, q >= 0;
    assert(e * (before + s) <= (e + 2 * n) * q) by (nonlinear_arith)
        requires e * (e * (before + s)) <= e * ((e + 2 * n) * q), e == 16777216;
}

/// The shares of a list, added up exactly, in units.
pub open spec fn shares_sum(v: Seq<(Genre, Single)>) -> nat
    decreases v.len(),
{
    if v.len() == 0 {
        0
    } else {
        shares_sum(v.drop_last()) + v.last().1.worth()
    }
}

/// The places of the genres in a list.
spec fn places(v: Seq<(Genre, Single)>) -> Set<int> {
    Set::new(|p: int| exists|i: int| 0 <= i < v.len() && (#[trigger] v[i]).0.position() == p)
}

/// The shares of different genres add up to little more than their parts of the total.
proof fn lemma_shares_of_parts(m: ClassifierModel, v: Seq<(Genre, Single)>)
    requires
        are_bounded(m),
        forall|i: int| 0 <= i < v.len() ==> m.share((#[trigger] v[i]).0) == Some(v[i].1),
        forall|i: int, j: int|
            0 <= i < j < v.len() ==> (#[trigger] v[i]).0 != (#[trigger] v[j]).0,
    ensures
        16777216 * (shares_sum(v) * m.positive_total(GENRES as nat).worth()) <= 16777217 * (
        parts_in(m, places(v), GENRES as nat) * pow2(149)) + 8388608 * (v.len()
            * m.positive_total(GENRES as nat).worth()),
    decreases v.len(),
{
    let total = m.positive_total(GENRES as nat);
    let (t, u) = (total.worth(), pow2(149));
    if v.len() == 0 {
        assert(16777216 * (0 * t) == 0) by (nonlinear_arith);
        assert(0 <= parts_in(m, places(v), GENRES as nat) * u) by (nonlinear_arith)
            requires parts_in(m, places(v), GENRES as nat) >= 0, u >= 0;
        assert(0 * t == 0) by (nonlinear_arith);
    } else {
        let head = v.drop_last();
        let (g, x) = v.last();
        let p = g.position() as int;
        assert forall|i: int| 0 <= i < head.len() implies m.share((#[trigger] head[i]).0) == Some(
            head[i].1,
        ) by {
            assert(head[i] == v[i]);
        }
        assert forall|i: int, j: int| 0 <= i < j < head.len() implies (#[trigger] head[i]).0 != (
        #[trigger] head[j]).0 by {
            assert(head[i] == v[i] && head[j] == v[j]);
        }
        lemma_shares_of_parts(m, head);
        assert(!places(head).contains(p)) by {
            if places(head).contains(p) {
                let i = choose|i: int| 0 <= i < head.len() && (#[trigger] head[i]).0.position() == p;
                assert(head[i] == v[i]);
                lemma_position_unique(v[i].0, g);
                assert(v[v.len() - 1].0 == g);
            }
        }
        assert(places(v) =~= places(head).insert(p)) by {
            assert forall|q: int| places(v).contains(q) == places(head).insert(p).contains(q) by {
                if places(head).contains(q) {
                    let i = choose|i: int|
                        0 <= i < head.len() && (#[trigger] head[i]).0.position() == q;
                    assert(v[i].0.position() == q);
                }
                if q == p {
                    assert(v[v.len() - 1].0.position() == q);
                }
                if places(v).contains(q) && q != p {
                    let i = choose|i: int| 0 <= i < v.len() && (#[trigger] v[i]).0.position() == q;
                    assert(head[i].0.position() == q);
                }
            }
        }
        lemma_one_part(m, places(head), p, GENRES as nat);
        lemma_all_genres(p);
        assert(m.share(v[v.len() - 1].0) == Some(v[v.len() - 1].1));
        let s = m.scores[p]->0;
        lemma_zero_one();
        lemma_fraction(1, 1, 100, 1);
        lemma_totals(m, GENRES as nat);
        assert(m.scores[p] is Some);
        assert(part(m, p) == s.worth());
        lemma_quotient(s, total);
        lemma_rounded_above(23, INF as nat, s.worth() * u, t);
        lemma_powers();
        let (y, z) = (x.worth() * t, s.worth() * u);
        assert(2 * pow2(23) * y == 16777216 * y) by (nonlinear_arith) requires pow2(23) == 8388608;
        assert((2 * pow2(23) + 1) * z == 16777217 * z) by (nonlinear_arith)
            requires pow2(23) == 8388608;
        assert(pow2(23) * t == 8388608 * t) by (nonlinear_arith) requires pow2(23) == 8388608;
        let (a, b) = (shares_sum(head), parts_in(m, places(head), GENRES as nat));
        assert((a + x.worth()) * t == a * t + y) by (nonlinear_arith) requires y == x.worth() * t;
        assert((b + s.worth()) * u == b * u + z) by (nonlinear_arith) requires z == s.worth() * u;
        assert(v.len() * t == head.len() * t + t) by (nonlinear_arith)
            requires v.len() == head.len() + 1;
    }
}

/// The shares of a ranking add up to 1, or a thousandth more at most.
pub proof fn lemma_shares_sum(m: ClassifierModel, n: nat, v: Seq<(Genre, Single)>)
    requires
        are_bounded(m),
        is_ranked(m, n, v),
    ensures
        1000 * shares_sum(v) <= 1001 * pow2(149),
{
    lemma_powers();
    if v.len() > 0 {
        let total = m.positive_total(GENRES as nat);
        let (t, u) = (total.worth(), pow2(149));
        assert forall|i: int, j: int| 0 <= i < j < v.len() implies (#[trigger] v[i]).0 != (
        #[trigger] v[j]).0 by {
            assert(m.share(v[i].0) == Some(v[i].1) && m.share(v[j].0) == Some(v[j].1));
            assert(ranks_before(v[i], v[j]));
        }
        lemma_shares_of_parts(m, v);
        lemma_parts_in(m, places(v), GENRES as nat);
        lemma_total_of_parts(m, GENRES as nat);
        lemma_distinct(v);
        lemma_totals(m, GENRES as nat);
        lemma_zero_one();
        let g = v[0].0;
        assert(m.share(g) == Some(v[0].1));
        lemma_all_genres(g.position() as int);
        lemma_fraction(1, 1, 100, 1);
        assert(m.scores[g.position() as int] is Some);
        lemma_worth(total, total);
        lemma_sum_bound(
            shares_sum(v) as int,
            t as int,
            u as int,
            parts_in(m, places(v), GENRES as nat) as int,
            parts(m, GENRES as nat) as int,
            v.len() as int,
        );
    }
}

/// There are no more than 29 different genres.
proof fn lemma_distinct(v: Seq<(Genre, Single)>)
    requires
        forall|i: int, j: int|
            0 <= i < j < v.len() ==> (#[trigger] v[i]).0 != (#[trigger] v[j]).0,
    ensures
        v.len() <= GENRES,
{
    let p = v.map_values(|x: (Genre, Single)| x.0.position() as int);
    assert(p.no_duplicates()) by {
        assert forall|i: int, j: int| 0 <= i < p.len() && 0 <= j < p.len() && i != j implies p[i]
            != p[j] by {
            if p[i] == p[j] {
                lemma_position_unique(v[i].0, v[j].0);
                if i < j {
                    assert(v[i].0 != v[j].0);
                } else {
                    assert(v[j].0 != v[i].0);
                }
            }
        }
    }
    p.unique_seq_to_set();
    let all = vstd::set_lib::set_int_range(0, GENRES as int);
    vstd::set_lib::lemma_int_range(0, GENRES as int);
    assert(p.to_set().subset_of(all)) by {
        assert forall|q: int| p.to_set().contains(q) implies all.contains(q) by {
            let i = choose|i: int| 0 <= i < p.len() && p[i] == q;
            lemma_all_genres(v[i].0.position() as int);
        }
    }
    vstd::set_lib::lemma_len_subset(p.to_set(), all);
}

proof fn lemma_sum_bound(sum: int, t: int, u: int, held: int, all: int, n: int)
    requires
        0 <= sum,
        0 < t,
        0x1_0000_0000_0000 <= u,
        0 <= held <= all,
        0 <= n <= 29,
        16777216 * (sum * t) <= 16777217 * (held * u) + 8388608 * (n * t),
        16777216 * all <= 16777274 * t,
    ensures
        1000 * sum <= 1001 * u,
{
    assert(held * u <= all * u) by (nonlinear_arith) requires held <= all, u >= 0;
    assert(16777216 * (all * u) <= 16777274 * (t * u)) by (nonlinear_arith)
        requires 16777216 * all <= 16777274 * t, u >= 0;
    assert(n * t <= 29 * t) by (nonlinear_arith) requires n <= 29, t > 0;
    lemma_chain(sum * t, held * u, all * u, t * u, n * t, t);
    assert(281474976710656 * sum <= 281475966566458 * u + 4081387162304512) by (nonlinear_arith)
        requires
            281474976710656 * (sum * t) <= 281475966566458 * (t * u) + 4081387162304512 * t,
            t > 0,
    ;
}

proof fn lemma_chain(a: int, b: int, c: int, d: int, e: int, t: int)
    requires
        16777216 * a <= 16777217 * b + 8388608 * e,
        b <= c,
        16777216 * c <= 16777274 * d,
        e <= 29 * t,
    ensures
        281474976710656 * a <= 281475966566458 * d + 4081387162304512 * t,
{
}

/// A ranking of a classifier that was fed with measured features: at most as long as asked, with
/// different genres in descending order of their shares, each above 0 and at most 1, all of them
/// together at most 1 but for a thousandth; and empty before the first update.
pub proof fn lemma_ranking(features: Seq<Features>, n: nat, k: nat, v: Seq<(Genre, Single)>)
    requires
        n <= features.len(),
        are_measured(features, n),
        is_ranked(after_updates(ClassifierModel::initial(), features, n), k, v),
    ensures
        v.len() <= k,
        forall|i: int, j: int|
            0 <= i < j < v.len() ==> (#[trigger] v[i]).0 != (#[trigger] v[j]).0 && v[j].1.le(
                v[i].1,
            ),
        forall|i: int|
            0 <= i < v.len() ==> Single::of_whole(0).lt((#[trigger] v[i]).1) && v[i].1.le(
                Single::of_whole(1),
            ),
        1000 * shares_sum(v) <= 1001 * pow2(149),
        n == 0 ==> v.len() == 0,
{
    let m = after_updates(ClassifierModel::initial(), features, n);
    lemma_scores_bounded(features, n);
    lemma_shares_sum(m, k, v);
    lemma_zero_one();
    if v.len() > 0 {
        assert forall|i: int| 0 <= i < v.len() implies Single::of_whole(0).lt((#[trigger] v[i]).1)
            && v[i].1.le(Single::of_whole(1)) by {
            lemma_shares_range(m, v[i].0);
        }
        assert forall|i: int, j: int| 0 <= i < j < v.len() implies (#[trigger] v[i]).0 != (
        #[trigger] v[j]).0 && v[j].1.le(v[i].1) by {
            assert(ranks_before(v[i], v[j]));
            assert(m.share(v[i].0) == Some(v[i].1) && m.share(v[j].0) == Some(v[j].1));
            assert(Single::of_whole(0).lt(v[i].1) && Single::of_whole(0).lt(v[j].1));
        }
        if n == 0 {
            let g = v[0].0;
            assert(m.share(g) == Some(v[0].1));
            lemma_all_genres(g.position() as int);
        }
    }
}

} // verus!
