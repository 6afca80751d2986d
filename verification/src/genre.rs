//! Genre estimation: a rule-based scorer with temporal smoothing and hysteresis.
use vstd::prelude::*;

use crate::core_types::{lemma_position_unique, no_scores, Genre, GENRES};
use crate::genre_rules::{
    decimal, hundredths, instant_list, instant_score, instant_scores, is_ambient, lemma_rule_place,
    rule_place, Features, RULES,
};
use crate::single::Single;

verus! {

/// Something that follows the genre of the music.
pub trait GenreClassifier: Send {
    /// The genre that the music counts as at present.
    spec fn genre(&self) -> Genre;

    /// Called roughly once per second with fresh features; returns a genre only when the
    /// classification changes.
    fn update(&mut self, features: &Features) -> (r: Option<Genre>)
        ensures
            r matches Some(g) ==> g == final(self).genre() && g != old(self).genre(),
            r is None ==> final(self).genre() == old(self).genre(),
    ;

    fn current(&self) -> (g: Genre)
        ensures
            g == self.genre(),
    ;
}

/// Updates that a challenger must lead, in one row, before it becomes the current genre.
pub const SWITCH_AFTER: u32 = 6;

/// What a classifier remembers: the smoothed score of each genre by its place in `Genre::ALL`,
/// the current genre, and a challenger with the number of updates that it has led in one row.
pub struct ClassifierModel {
    pub scores: Seq<Option<Single>>,
    pub current: Genre,
    pub challenger: Option<(Genre, nat)>,
}

/// The smoothed score: the old one decays, so that scores follow the music with a memory of some
/// seconds, and the instant score is added to it.
pub open spec fn blended(score: Option<Single>, instant: Option<Single>) -> Option<Single> {
    let kept = match score {
        Some(s) => Some(s.times(hundredths(82))),
        None => None,
    };
    match (kept, instant) {
        (Some(k), Some(s)) => Some(k.plus(s)),
        (None, Some(s)) => Some(Single::of_whole(0).plus(s)),
        (k, None) => k,
    }
}

/// The scores after one update.
pub open spec fn blended_scores(scores: Seq<Option<Single>>, f: Features) -> Seq<Option<Single>> {
    Seq::new(GENRES as nat, |i: int| blended(scores[i], instant_score(Genre::ALL@[i], f)))
}

/// `s` is the score of `g`, and no other score ranks above it; of equal scores, the one later in
/// `Genre::ALL` leads.
pub open spec fn leads(scores: Seq<Option<Single>>, g: Genre, s: Single) -> bool {
    &&& scores[g.position() as int] == Some(s)
    &&& forall|h: Genre|
        scores[#[trigger] h.position() as int] matches Some(t) ==> t.rank() < s.rank() || (t.rank()
            == s.rank() && h.position() <= g.position())
}

/// The genre with the highest score, and that score; without any, the unknown genre with 0.
pub open spec fn leader(scores: Seq<Option<Single>>) -> (Genre, Single) {
    if exists|p: (Genre, Single)| leads(scores, p.0, p.1) {
        choose|p: (Genre, Single)| leads(scores, p.0, p.1)
    } else {
        (Genre::Unknown, Single::of_whole(0))
    }
}

/// The genre that leads the current one by the margin: more than 1.4 times the current genre's
/// score and 0.2.
pub open spec fn margin_leader(scores: Seq<Option<Single>>, current: Genre) -> Option<Genre> {
    let (best, top) = leader(scores);
    let held = match scores[current.position() as int] {
        Some(s) => s,
        None => Single::of_whole(0),
    };
    if best != current && held.times(hundredths(140)).plus(hundredths(20)).lt(top) {
        Some(best)
    } else {
        None
    }
}

/// Even the highest score is below a half: too little to go by.
pub open spec fn is_faint(scores: Seq<Option<Single>>) -> bool {
    leader(scores).1.lt(hundredths(50))
}

impl ClassifierModel {
    pub open spec fn initial() -> ClassifierModel {
        ClassifierModel {
            scores: Seq::new(GENRES as nat, |i: int| None),
            current: Genre::Unknown,
            challenger: None,
        }
    }

    /// How many updates `g` has led in one row, this one counted.
    pub open spec fn lead_count(self, g: Genre) -> nat {
        match self.challenger {
            Some((h, c)) => if h == g {
                c + 1
            } else {
                1
            },
            None => 1,
        }
    }

    /// The challenger after an update at which scores are faint: one that still leads keeps its
    /// count.
    pub open spec fn kept_challenger(self, g: Genre) -> Option<(Genre, nat)> {
        match self.challenger {
            Some((h, c)) => if h == g {
                Some((h, c))
            } else {
                None
            },
            None => None,
        }
    }

    /// The classifier after one update, and what the update returns. A row of leads ends where the
    /// challenger does not lead by the margin; where scores are faint, a lead is not counted.
    pub open spec fn updated(self, f: Features) -> (ClassifierModel, Option<Genre>) {
        let scores = blended_scores(self.scores, f);
        match margin_leader(scores, self.current) {
            None => (ClassifierModel { scores, challenger: None, ..self }, None),
            Some(g) => if is_faint(scores) {
                (ClassifierModel { scores, challenger: self.kept_challenger(g), ..self }, None)
            } else if self.lead_count(g) >= SWITCH_AFTER {
                (ClassifierModel { scores, current: g, challenger: None }, Some(g))
            } else {
                (
                    ClassifierModel { scores, challenger: Some((g, self.lead_count(g))), ..self },
                    None,
                )
            },
        }
    }

    /// The sum of the positive scores among the first `n` genres.
    pub open spec fn positive_total(self, n: nat) -> Single
        decreases n,
    {
        if n == 0 {
            Single::of_whole(0)
        } else {
            let before = self.positive_total((n - 1) as nat);
            match self.scores[n - 1] {
                Some(s) => if Single::of_whole(0).lt(s) {
                    before.plus(s)
                } else {
                    before
                },
                None => before,
            }
        }
    }

    /// The share of a genre in all positive scores; none for a score of a hundredth or less.
    pub open spec fn share(self, g: Genre) -> Option<Single> {
        match self.scores[g.position() as int] {
            Some(s) => if hundredths(1).lt(s) {
                Some(s.over(self.positive_total(GENRES as nat)))
            } else {
                None
            },
            None => None,
        }
    }
}

/// The order of a ranking: higher shares first, equal ones in the order of `Genre::ALL`.
pub open spec fn ranks_before(a: (Genre, Single), b: (Genre, Single)) -> bool {
    b.1.rank() < a.1.rank() || (b.1.rank() == a.1.rank() && a.0.position() < b.0.position())
}

/// `v` holds the `n` genres with the largest shares, or all that have one, best first.
pub open spec fn is_ranking(m: ClassifierModel, n: nat, v: Seq<(Genre, Single)>) -> bool {
    &&& v.len() <= n
    &&& forall|i: int| 0 <= i < v.len() ==> m.share((#[trigger] v[i]).0) == Some(v[i].1)
    &&& forall|i: int, j: int| 0 <= i < j < v.len() ==> ranks_before(#[trigger] v[i], #[trigger] v[j])
    &&& forall|g: Genre| #[trigger]
        m.share(g) matches Some(s) ==> v.contains((g, s)) || (v.len() == n && forall|i: int|
            0 <= i < n ==> ranks_before(#[trigger] v[i], (g, s)))
}

/// `v` is the ranking that a classifier gives: none where it has no scores to speak of.
pub open spec fn is_ranked(m: ClassifierModel, n: nat, v: Seq<(Genre, Single)>) -> bool {
    if m.positive_total(GENRES as nat).le(Single::fraction(1, 1000000)) {
        v.len() == 0
    } else {
        is_ranking(m, n, v)
    }
}

pub struct RuleBasedClassifier {
    scores: [Option<Single>; 29],
    current: Genre,
    /// The genre that leads by the margin, with the number of updates that it has led in one row.
    challenger: Option<(Genre, u32)>,
}

impl View for RuleBasedClassifier {
    type V = ClassifierModel;

    closed spec fn view(&self) -> ClassifierModel {
        ClassifierModel {
            scores: self.scores@,
            current: self.current,
            challenger: match self.challenger {
                Some((g, c)) => Some((g, c as nat)),
                None => None,
            },
        }
    }
}

impl Default for RuleBasedClassifier {
    fn default() -> (c: RuleBasedClassifier)
        ensures
            c@ == ClassifierModel::initial(),
    {
        let c = RuleBasedClassifier {
            scores: no_scores(),
            current: Genre::Unknown,
            challenger: None,
        };
        assert(c@.scores =~= ClassifierModel::initial().scores);
        c
    }
}

/// The genre at a place in `Genre::ALL`, seen from the genre.
proof fn lemma_at_position(g: Genre)
    ensures
        Genre::ALL@.len() == GENRES,
        Genre::ALL@[g.position() as int] == g,
{
    crate::core_types::lemma_all_genres(g.position() as int);
    lemma_position_unique(Genre::ALL@[g.position() as int], g);
}

/// Only one genre leads.
proof fn lemma_leader(scores: Seq<Option<Single>>, g: Genre, s: Single)
    requires
        leads(scores, g, s),
    ensures
        leader(scores) == (g, s),
{
    let p = (g, s);
    assert(leads(scores, p.0, p.1));
    let q = leader(scores);
    assert(leads(scores, q.0, q.1));
    assert(scores[q.0.position() as int] == Some(q.1));
    assert(scores[g.position() as int] == Some(s));
    lemma_position_unique(q.0, g);
}

/// The leader after an update.
fn find_leader(scores: &[Option<Single>; 29]) -> (r: (Genre, Single))
    ensures
        r == leader(scores@),
{
    let mut best: Option<(usize, Single)> = None;
    let mut i: usize = 0;
    while i < 29
        invariant
            i <= 29,
            best is None ==> forall|j: int| 0 <= j < i ==> scores@[j] is None,
            best matches Some((b, s)) ==> b < i && scores@[b as int] == Some(s) && forall|j: int|
                0 <= j < i && scores@[j] is Some ==> scores@[j]->0.rank() < s.rank() || (
                scores@[j]->0.rank() == s.rank() && j <= b),
        decreases 29 - i,
    {
        if let Some(s) = scores[i] {
            match best {
                Some((_, t)) => {
                    if !s.ranks_below(t) {
                        best = Some((i, s));
                    }
                },
                None => {
                    best = Some((i, s));
                },
            }
        }
        i = i + 1;
    }
    match best {
        Some((b, s)) => {
            let g = Genre::at(b);
            proof {
                assert forall|h: Genre| scores@[#[trigger] h.position() as int] is Some implies ({
                    let t = scores@[h.position() as int]->0;
                    t.rank() < s.rank() || (t.rank() == s.rank() && h.position() <= g.position())
                }) by {
                    lemma_at_position(h);
                }
                lemma_leader(scores@, g, s);
            }
            (g, s)
        },
        None => {
            proof {
                assert forall|p: (Genre, Single)| !leads(scores@, p.0, p.1) by {
                    lemma_at_position(p.0);
                    assert(scores@[p.0.position() as int] is None);
                }
            }
            (Genre::Unknown, Single::from_whole(0))
        },
    }
}

/// The place in `Genre::ALL` determines whether a score was added in the first `i` steps.
proof fn lemma_added(
    i: int,
    f: Features,
    before: Seq<Option<Single>>,
    after: Seq<Option<Single>>,
    old_scores: Seq<Option<Single>>,
)
    requires
        0 <= i < 27,
        !is_ambient(f),
        before.len() == GENRES,
        old_scores.len() == GENRES,
        forall|j: int|
            0 <= j < GENRES ==> #[trigger] before[j] == blended(
                old_scores[j],
                if rule_place(Genre::ALL@[j]) < i {
                    instant_score(Genre::ALL@[j], f)
                } else {
                    None
                },
            ),
        after == before.update(
            RULES@[i].position() as int,
            blended(old_scores[RULES@[i].position() as int], instant_score(RULES@[i], f)),
        ),
    ensures
        forall|j: int|
            0 <= j < GENRES ==> #[trigger] after[j] == blended(
                old_scores[j],
                if rule_place(Genre::ALL@[j]) < i + 1 {
                    instant_score(Genre::ALL@[j], f)
                } else {
                    None
                },
            ),
{
    let g = RULES@[i];
    lemma_at_position(g);
    assert forall|j: int| 0 <= j < GENRES implies #[trigger] after[j] == blended(
        old_scores[j],
        if rule_place(Genre::ALL@[j]) < i + 1 {
            instant_score(Genre::ALL@[j], f)
        } else {
            None
        },
    ) by {
        crate::core_types::lemma_all_genres(j);
        lemma_rule_place(i, Genre::ALL@[j]);
        assert(before[j] == before[j]);
    }
}

impl RuleBasedClassifier {
    #[verifier::type_invariant]
    spec fn counts(self) -> bool {
        self.challenger matches Some((_, c)) ==> c < SWITCH_AFTER
    }

    /// Decays every score and adds the instant ones.
    fn blend(scores: &mut [Option<Single>; 29], f: &Features)
        ensures
            final(scores)@ == blended_scores(old(scores)@, *f),
    {
        let ghost before = scores@;
        let mut i: usize = 0;
        while i < 29
            invariant
                i <= 29,
                before.len() == 29,
                scores@.len() == 29,
                forall|j: int| i <= j < 29 ==> scores@[j] == before[j],
                forall|j: int| 0 <= j < i ==> #[trigger] scores@[j] == blended(before[j], None),
            decreases 29 - i,
        {
            if let Some(s) = scores[i] {
                scores[i] = Some(s.times(decimal(82)));
            }
            i = i + 1;
        }
        let list = instant_scores(f);
        let mut k: usize = 0;
        proof {
            assert forall|j: int| 0 <= j < 29 implies #[trigger] scores@[j] == blended(
                before[j],
                if !is_ambient(*f) && rule_place(Genre::ALL@[j]) < 0 {
                    instant_score(Genre::ALL@[j], *f)
                } else {
                    None
                },
            ) by {
            }
        }
        while k < list.len()
            invariant
                k <= list@.len(),
                list@ == instant_list(*f),
                before.len() == 29,
                scores@.len() == 29,
                !is_ambient(*f) ==> list@.len() == 27 && forall|j: int|
                    0 <= j < GENRES ==> #[trigger] scores@[j] == blended(
                        before[j],
                        if rule_place(Genre::ALL@[j]) < k {
                            instant_score(Genre::ALL@[j], *f)
                        } else {
                            None
                        },
                    ),
                is_ambient(*f) ==> list@.len() == 1 && (k == 0 ==> forall|j: int|
                    0 <= j < GENRES ==> #[trigger] scores@[j] == blended(before[j], None)) && (k
                    == 1 ==> scores@ == blended_scores(before, *f)),
            decreases list@.len() - k,
        {
            let (g, s) = list[k];
            let ghost prior = scores@;
            proof {
                lemma_at_position(g);
            }
            let p: usize = g.index();
            let held = match scores[p] {
                Some(t) => t,
                None => Single::from_whole(0),
            };
            scores[p] = Some(held.plus(s));
            proof {
                if is_ambient(*f) {
                    assert forall|j: int| 0 <= j < GENRES implies #[trigger] scores@[j]
                        == blended_scores(before, *f)[j] by {
                        crate::core_types::lemma_all_genres(j);
                        assert(prior[j] == blended(before[j], None));
                    }
                    assert(scores@ =~= blended_scores(before, *f));
                } else {
                    lemma_rule_place(k as int, g);
                    assert(prior[p as int] == blended(before[p as int], None));
                    lemma_added(k as int, *f, prior, scores@, before);
                }
            }
            k = k + 1;
        }
        proof {
            if !is_ambient(*f) {
                assert forall|j: int| 0 <= j < GENRES implies #[trigger] scores@[j]
                    == blended_scores(before, *f)[j] by {
                    lemma_rule_place(0, Genre::ALL@[j]);
                }
                assert(scores@ =~= blended_scores(before, *f));
            }
        }
    }

    /// The smoothed scores as shares of their total, the `n` best, best first.
    pub fn ranked(&self, n: usize) -> (v: Vec<(Genre, Single)>)
        ensures
            is_ranked(self@, n as nat, v@),
    {
        let zero = Single::from_whole(0);
        let mut total = zero;
        let mut i: usize = 0;
        while i < 29
            invariant
                i <= 29,
                zero == Single::of_whole(0),
                total == self@.positive_total(i as nat),
            decreases 29 - i,
        {
            if let Some(s) = self.scores[i] {
                if zero.lt(s) {
                    total = total.plus(s);
                }
            }
            i = i + 1;
        }
        let mut v: Vec<(Genre, Single)> = Vec::new();
        if total.le(Single::ratio(1, 1000000)) {
            return v;
        }
        let mut taken: Vec<bool> = vec![false; 29];
        assert(taken@.len() == 29);
        while v.len() < n
            invariant
                total == self@.positive_total(GENRES as nat),
                taken@.len() == 29,
                v@.len() <= n,
                forall|k: int| 0 <= k < v@.len() ==> self@.share((#[trigger] v@[k]).0) == Some(v@[k].1),
                forall|k: int, l: int|
                    0 <= k < l < v@.len() ==> ranks_before(#[trigger] v@[k], #[trigger] v@[l]),
                forall|g: Genre| #[trigger]
                    self@.share(g) matches Some(s) ==> (if taken@[g.position() as int] {
                        v@.contains((g, s))
                    } else {
                        forall|k: int| 0 <= k < v@.len() ==> ranks_before(#[trigger] v@[k], (g, s))
                    }),
            ensures
                v@.len() == n || forall|g: Genre| #[trigger]
                    self@.share(g) is Some ==> taken@[g.position() as int],
            decreases n - v@.len(),
        {
            match self.best_left(total, &taken) {
                Some((g, s)) => {
                    let ghost before = v@;
                    let ghost marked = taken@;
                    let p: usize = g.index();
                    taken[p] = true;
                    v.push((g, s));
                    proof {
                        assert(v@ == before.push((g, s)));
                        assert(v@[before.len() as int] == (g, s));
                        assert forall|h: Genre| self@.share(h) is Some implies (if taken@[h.position() as int] {
                            v@.contains((h, self@.share(h)->0))
                        } else {
                            forall|k: int| 0 <= k < v@.len() ==> ranks_before(#[trigger] v@[k], (h, self@.share(h)->0))
                        }) by {
                            let t = self@.share(h)->0;
                            if h.position() == g.position() {
                                lemma_position_unique(g, h);
                                assert(v@[before.len() as int] == (h, t));
                            } else if taken@[h.position() as int] {
                                assert(marked[h.position() as int]);
                                let w = choose|w: int| 0 <= w < before.len() && before[w] == (h, t);
                                assert(v@[w] == (h, t));
                            } else {
                                assert(ranks_before((g, s), (h, t)));
                            }
                        }
                    }
                },
                None => {
                    break;
                },
            }
        }
        v
    }

    /// The genre with the largest share among those not taken yet.
    fn best_left(&self, total: Single, taken: &Vec<bool>) -> (r: Option<(Genre, Single)>)
        requires
            total == self@.positive_total(GENRES as nat),
            taken@.len() == 29,
        ensures
            r is None ==> forall|g: Genre| #[trigger]
                self@.share(g) is Some ==> taken@[g.position() as int],
            r matches Some((g, s)) ==> self@.share(g) == Some(s) && !taken@[g.position() as int]
                && forall|h: Genre| #[trigger]
                self@.share(h) is Some && !taken@[h.position() as int] && h != g ==> ranks_before(
                    (g, s),
                    (h, self@.share(h)->0),
                ),
    {
        let mut best: Option<(Genre, Single)> = None;
        let mut i: usize = 0;
        while i < 29
            invariant
                i <= 29,
                total == self@.positive_total(GENRES as nat),
                taken@.len() == 29,
                best is None ==> forall|g: Genre| #[trigger]
                    self@.share(g) is Some && g.position() < i ==> taken@[g.position() as int],
                best matches Some((g, s)) ==> self@.share(g) == Some(s) && g.position() < i
                    && !taken@[g.position() as int] && forall|h: Genre| #[trigger]
                    self@.share(h) is Some && !taken@[h.position() as int] && h != g
                        && h.position() < i ==> ranks_before((g, s), (h, self@.share(h)->0)),
            decreases 29 - i,
        {
            let g = Genre::at(i);
            let ghost earlier = best;
            if let Some(s) = self.scores[i] {
                if !taken[i] && decimal(1).lt(s) {
                    let share = s.over(total);
                    assert(self@.share(g) == Some(share));
                    match best {
                        Some((_, t)) => {
                            if t.ranks_below(share) {
                                best = Some((g, share));
                            }
                        },
                        None => {
                            best = Some((g, share));
                        },
                    }
                }
            }
            proof {
                assert forall|h: Genre| h.position() == i implies h == g by {
                    lemma_position_unique(g, h);
                }
            }
            i = i + 1;
        }
        best
    }
}

impl GenreClassifier for RuleBasedClassifier {
    closed spec fn genre(&self) -> Genre {
        self.current
    }

    fn update(&mut self, features: &Features) -> (r: Option<Genre>)
        ensures
            final(self)@ == old(self)@.updated(*features).0,
            r == old(self)@.updated(*features).1,
    {
        proof {
            use_type_invariant(&*self);
        }
        let mut scores = self.scores;
        RuleBasedClassifier::blend(&mut scores, features);
        let ghost before = self@;
        self.scores = scores;
        let (best, top) = find_leader(&scores);
        if best == self.current {
            self.challenger = None;
            return None;
        }
        let held = match scores[self.current.index()] {
            Some(s) => s,
            None => Single::from_whole(0),
        };
        if held.times(decimal(140)).plus(decimal(20)).lt(top) {
            if top.lt(decimal(50)) {
                let leading: bool = match self.challenger {
                    Some((g, _)) => g == best,
                    None => false,
                };
                if !leading {
                    self.challenger = None;
                }
                return None;
            }
            let count: u32 = match self.challenger {
                Some((g, c)) => if g == best {
                    c + 1
                } else {
                    1
                },
                None => 1,
            };
            assert(count == before.lead_count(best));
            if count >= SWITCH_AFTER {
                self.current = best;
                self.challenger = None;
                return Some(best);
            }
            self.challenger = Some((best, count));
        } else {
            self.challenger = None;
        }
        None
    }

    fn current(&self) -> (g: Genre)
        ensures
            g == self@.current,
    {
        self.current
    }
}

} // verus!
