//! What holds of the feature window, the conductor and the test patterns.
use vstd::arithmetic::power2::{lemma_pow2_pos, pow2};
use vstd::prelude::*;

use crate::core_types::{Band, BandBeatEvent, FrameModel};
use crate::engine::{
    forced_genre, intervals, kick_steadiness, median, near_count, recent_frames, sorted, sorted_in,
    times_of, ConductorModel, WindowModel, FEATURE_WINDOW_MS,
};
use crate::order::{
    lemma_difference, lemma_difference_order, lemma_of, lemma_plus_zero, lemma_quotient, lemma_same,
    lemma_share, lemma_times_share, lemma_whole_exact, lemma_whole_order, lemma_whole_product,
    lemma_worth, lemma_zero_one,
};
use crate::palette::StoreModel;
use crate::pattern::{hue_color, ramp, wheel_color};
use crate::rounding::{
    lemma_rounded_exact, lemma_rounded_monotone, lemma_rounded_nearest, lemma_units_zero, Whole,
};
use crate::single::{Single, INF};

verus! {

/// The frames are in the order of their times.
pub open spec fn in_order(frames: Seq<FrameModel>) -> bool {
    forall|i: int, j: int|
        0 <= i <= j < frames.len() ==> (#[trigger] frames[i]).timestamp_ms <= (
        #[trigger] frames[j]).timestamp_ms
}

/// Dropping frames from the front keeps the rest in order, and keeps the last one.
proof fn lemma_recent(frames: Seq<FrameModel>, cutoff: u64)
    requires
        frames.len() > 0,
        frames.last().timestamp_ms >= cutoff,
    ensures
        recent_frames(frames, cutoff).len() > 0,
        recent_frames(frames, cutoff).last() == frames.last(),
        in_order(frames) ==> in_order(recent_frames(frames, cutoff)),
    decreases frames.len(),
{
    if frames[0].timestamp_ms < cutoff {
        let rest = frames.skip(1);
        assert(rest.len() > 0);
        assert(rest.last() == frames.last());
        assert forall|i: int| 0 <= i < rest.len() implies rest[i] == #[trigger] frames[i + 1] by {}
        if in_order(frames) {
            assert forall|i: int, j: int| 0 <= i <= j < rest.len() implies (
            #[trigger] rest[i]).timestamp_ms <= (#[trigger] rest[j]).timestamp_ms by {
                assert(frames[i + 1].timestamp_ms <= frames[j + 1].timestamp_ms);
            }
        }
        lemma_recent(rest, cutoff);
    }
}

/// What is left of frames in order is not older than the cut.
proof fn lemma_recent_enough(frames: Seq<FrameModel>, cutoff: u64, i: int)
    requires
        in_order(frames),
        0 <= i < recent_frames(frames, cutoff).len(),
    ensures
        recent_frames(frames, cutoff)[i].timestamp_ms >= cutoff,
    decreases frames.len(),
{
    if frames.len() > 0 && frames[0].timestamp_ms < cutoff {
        let rest = frames.skip(1);
        assert forall|a: int, b: int| 0 <= a <= b < rest.len() implies (
        #[trigger] rest[a]).timestamp_ms <= (#[trigger] rest[b]).timestamp_ms by {
            assert(rest[a] == frames[a + 1] && rest[b] == frames[b + 1]);
        }
        lemma_recent_enough(rest, cutoff, i);
    } else {
        assert(frames[0].timestamp_ms <= frames[i].timestamp_ms);
    }
}

/// Frames that come in the order of their times stay in order in the window, so that features can
/// be taken, and the newest one is kept.
pub proof fn lemma_frames_in_order(w: WindowModel, f: FrameModel)
    requires
        in_order(w.frames.push(f)),
    ensures
        in_order(w.with_frame(f).frames),
        w.with_frame(f).is_forward(),
        w.with_frame(f).frames.len() > 0,
        w.with_frame(f).frames.last() == f,
{
    let cutoff = if f.timestamp_ms >= FEATURE_WINDOW_MS {
        (f.timestamp_ms - FEATURE_WINDOW_MS) as u64
    } else {
        0
    };
    lemma_recent(w.frames.push(f), cutoff);
}

/// A window holds no frame that is more than its length older than the newest one.
pub proof fn lemma_window_length(w: WindowModel, f: FrameModel, i: int)
    requires
        in_order(w.frames.push(f)),
        0 <= i < w.with_frame(f).frames.len(),
    ensures
        w.with_frame(f).frames[i].timestamp_ms + FEATURE_WINDOW_MS >= f.timestamp_ms,
{
    let cutoff = if f.timestamp_ms >= FEATURE_WINDOW_MS {
        (f.timestamp_ms - FEATURE_WINDOW_MS) as u64
    } else {
        0
    };
    lemma_recent_enough(w.frames.push(f), cutoff, i);
}

pub open spec fn is_rising(s: Seq<u64>) -> bool {
    forall|i: int, j: int| 0 <= i <= j < s.len() ==> #[trigger] s[i] <= #[trigger] s[j]
}

spec fn bounded(s: Seq<u64>, b: u64) -> bool {
    forall|k: int| 0 <= k < s.len() ==> #[trigger] s[k] <= b
}

proof fn lemma_sorted_in(s: Seq<u64>, x: u64)
    requires
        is_rising(s),
    ensures
        is_rising(sorted_in(s, x)),
        sorted_in(s, x).to_multiset() == s.to_multiset().insert(x),
        sorted_in(s, x).len() == s.len() + 1,
        forall|b: u64| bounded(s, b) && x <= b ==> #[trigger] bounded(sorted_in(s, x), b),
    decreases s.len(),
{
    broadcast use vstd::seq_lib::group_to_multiset_ensures;

    let r = sorted_in(s, x);
    if s.len() == 0 {
        assert(r =~= s.push(x));
    } else if x < s.last() {
        let head = s.drop_last();
        let z = s.last();
        assert(is_rising(head)) by {
            assert forall|i: int, j: int| 0 <= i <= j < head.len() implies #[trigger] head[i]
                <= #[trigger] head[j] by {
                assert(head[i] == s[i] && head[j] == s[j]);
            }
        }
        lemma_sorted_in(head, x);
        let q = sorted_in(head, x);
        assert(s =~= head.push(z));
        assert(head.to_multiset().insert(x).insert(z) =~= head.to_multiset().insert(z).insert(x));
        assert forall|k: int| 0 <= k < head.len() implies #[trigger] head[k] <= z by {
            assert(s[k] <= s[s.len() - 1]);
        }
        assert(bounded(head, z));
        assert(bounded(q, z));
        assert forall|i: int, j: int| 0 <= i <= j < r.len() implies #[trigger] r[i]
            <= #[trigger] r[j] by {
            if j < q.len() {
                assert(r[i] == q[i] && r[j] == q[j]);
            } else if i < q.len() {
                assert(r[i] == q[i]);
            }
        }
        assert forall|b: u64| bounded(s, b) && x <= b implies #[trigger] bounded(r, b) by {
            assert(s[s.len() - 1] <= b);
            assert forall|k: int| 0 <= k < head.len() implies #[trigger] head[k] <= b by {
                assert(s[k] <= b);
            }
            assert(bounded(head, b));
            assert(bounded(q, b));
            assert forall|k: int| 0 <= k < r.len() implies #[trigger] r[k] <= b by {
                if k < q.len() {
                    assert(r[k] == q[k]);
                }
            }
        }
    } else {
        assert(r == s.push(x));
        assert forall|i: int, j: int| 0 <= i <= j < r.len() implies #[trigger] r[i]
            <= #[trigger] r[j] by {
            if i < s.len() {
                assert(s[i] <= s[s.len() - 1]);
            }
        }
    }
}

/// Sorting gives the same numbers in rising order.
pub proof fn lemma_sorted(s: Seq<u64>)
    ensures
        is_rising(sorted(s)),
        sorted(s).to_multiset() == s.to_multiset(),
        sorted(s).len() == s.len(),
    decreases s.len(),
{
    broadcast use vstd::seq_lib::group_to_multiset_ensures;

    if s.len() > 0 {
        lemma_sorted(s.drop_last());
        lemma_sorted_in(sorted(s.drop_last()), s.last());
        assert(s =~= s.drop_last().push(s.last()));
    } else {
        assert(s =~= Seq::<u64>::empty());
    }
}

proof fn lemma_near_count(s: Seq<u64>, m: u64)
    ensures
        near_count(s, m) <= s.len(),
    decreases s.len(),
{
    if s.len() > 0 {
        lemma_near_count(s.drop_last(), m);
    }
}

/// The regularity of kicks is a number from 0 to 1.
pub proof fn lemma_steadiness_range(beats: Seq<BandBeatEvent>)
    requires
        beats.len() <= u64::MAX,
    ensures
        kick_steadiness(beats).is_share(),
{
    let d = intervals(times_of(beats, Band::Low));
    lemma_zero_one();
    lemma_times_len(beats);
    if d.len() > 0 && median(d) > 0 {
        lemma_near_count(d, median(d));
        lemma_whole_order(near_count(d, median(d)), d.len());
        lemma_whole_order(1, d.len());
        lemma_share(Single::of_whole(near_count(d, median(d))), Single::of_whole(d.len()));
    }
}

proof fn lemma_times_len(beats: Seq<BandBeatEvent>)
    ensures
        times_of(beats, Band::Low).len() <= beats.len(),
    decreases beats.len(),
{
    if beats.len() > 0 {
        lemma_times_len(beats.drop_last());
    }
}

/// An override pins the genre and its palette: no frame changes them.
pub proof fn lemma_override_pins(
    c: ConductorModel,
    f: FrameModel,
    elapsed_ms: u64,
    store: StoreModel,
)
    requires
        !c.auto_genre,
    ensures
        c.after_frame(f, elapsed_ms, store).genre == c.genre,
        c.after_frame(f, elapsed_ms, store).palette == c.palette,
        c.after_frame(f, elapsed_ms, store).auto_genre == c.auto_genre,
        c.outcome(f, elapsed_ms, store).change is None,
        !c.outcome(f, elapsed_ms, store).restart_timer,
{
}

/// An override that names a genre pins it and its palette from the moment it is set, and the next
/// frame changes neither; one that is taken back leaves both as they are and lets the genre follow
/// the music again. Nothing that was heard is lost either way.
pub proof fn lemma_live_override(
    c: ConductorModel,
    palette_override: Option<&str>,
    f: FrameModel,
    elapsed_ms: u64,
    store: StoreModel,
)
    ensures
        ({
            let n = c.overridden(palette_override, store);
            let next = n.after_frame(f, elapsed_ms, store);
            &&& n.window == c.window && n.classifier == c.classifier
            &&& n.frames == c.frames && n.bpm == c.bpm
            &&& forced_genre(palette_override) matches Some(g) ==> next.genre == g && next.palette
                == store.palette_for(g) && n.outcome(f, elapsed_ms, store).change is None
            &&& forced_genre(palette_override) is None ==> n.auto_genre && n.genre == c.genre
                && n.palette == c.palette
        }),
{
}

/// A genre is announced where the current one changes, with the palette that the lights get.
pub proof fn lemma_change_is_announced(
    c: ConductorModel,
    f: FrameModel,
    elapsed_ms: u64,
    store: StoreModel,
)
    ensures
        ({
            let next = c.after_frame(f, elapsed_ms, store);
            match c.outcome(f, elapsed_ms, store).change {
                Some((g, p)) => next.genre == g && next.palette == p && p == store.palette_for(g),
                None => next.genre == c.genre && next.palette == c.palette,
            }
        }),
{
}

/// A difference the other way round has the same size.
proof fn lemma_turned_difference(a: Single, b: Single)
    requires
        a.is_plain(),
        b.is_plain(),
        a.magnitude() < b.magnitude(),
    ensures
        a.minus(b).magnitude() == b.minus(a).magnitude(),
{
    lemma_difference(b, a);
    lemma_worth(a, b);
    reveal(Single::sum);
    lemma_of(true, b.minus(a).magnitude());
}

/// The ramp of a hue is from 0 to 1.
proof fn lemma_ramp(h: Single)
    requires
        h.is_plain(),
    ensures
        ramp(h).is_share(),
{
    let (one, two, sixty) = (Single::of_whole(1), Single::of_whole(2), Single::of_whole(60));
    lemma_zero_one();
    lemma_whole_exact(2);
    lemma_whole_exact(1);
    lemma_whole_exact(60);
    lemma_whole_order(1, 2);
    lemma_whole_order(1, 60);
    let q = h.over(sixty);
    lemma_quotient(h, sixty);
    lemma_worth(h, h);
    lemma_pow2_pos(149);
    let p = pow2(149);
    lemma_rounded_exact(23, INF as nat, h.worth(), 1, h.magnitude());
    assert((h.worth() * p) * 1 <= h.worth() * sixty.worth()) by (nonlinear_arith)
        requires sixty.worth() == 60 * p;
    lemma_rounded_monotone(23, INF as nat, h.worth() * p, sixty.worth(), h.worth(), 1);
    assert(q.is_plain());
    let r = q.rem(two);
    assert(r.is_plain() && r.magnitude() <= two.magnitude()) by {
        reveal(Single::remainder);
        lemma_worth(two, two);
        let n = q.worth() % two.worth();
        assert(n < two.worth());
        lemma_rounded_nearest(23, INF as nat, n, 1);
        lemma_rounded_exact(23, INF as nat, two.worth(), 1, two.magnitude());
        lemma_rounded_monotone(23, INF as nat, n, 1, two.worth(), 1);
    }
    let d = r.minus(one);
    assert(d.abs().is_share()) by {
        if r.magnitude() >= one.magnitude() {
            lemma_difference_order(r, two, one);
            lemma_two_less_one();
        } else {
            lemma_turned_difference(r, one);
            lemma_difference(one, r);
        }
    }
    lemma_difference(one, d.abs());
}

proof fn lemma_two_less_one()
    ensures
        Single::of_whole(2).minus(Single::of_whole(1)) == Single::of_whole(1),
{
    let (one, two) = (Single::of_whole(1), Single::of_whole(2));
    lemma_whole_exact(1);
    lemma_whole_exact(2);
    lemma_whole_order(1, 2);
    lemma_difference(two, one);
    lemma_rounded_exact(23, INF as nat, one.worth(), 1, one.magnitude());
    lemma_same(two.minus(one), one);
}

/// The byte of a whole number below 256.
proof fn lemma_whole_byte(n: nat)
    requires
        n < 256,
    ensures
        Single::of_whole(n).to_byte() == n,
{
    reveal(Single::whole_number);
    lemma_whole_exact(n);
    lemma_pow2_pos(149);
    crate::rounding::lemma_whole_of_multiple(Whole::Floor, n, pow2(149));
}

/// At full saturation and value, a hue has the colour of the wheel.
pub proof fn lemma_wheel(h: Single)
    requires
        h.is_plain(),
    ensures
        hue_color(h, Single::of_whole(1), Single::of_whole(1)) == wheel_color(h),
{
    let (zero, one, full) = (Single::of_whole(0), Single::of_whole(1), Single::of_whole(255));
    lemma_zero_one();
    lemma_ramp(h);
    lemma_whole_exact(255);
    lemma_times_share(one, one);
    lemma_times_share(one, ramp(h));
    lemma_difference(one, one);
    lemma_units_zero(23);
    lemma_rounded_exact(23, INF as nat, 0, 1, 0);
    let m = one.minus(one);
    assert(m.magnitude() == 0);
    lemma_plus_zero(one, m);
    lemma_plus_zero(zero, m);
    lemma_plus_zero(ramp(h), m);
    lemma_whole_product(1, 255);
    lemma_whole_product(0, 255);
    assert(0 * 255 == 0nat);
    lemma_whole_byte(255);
    lemma_whole_byte(0);
}

} // verus!
