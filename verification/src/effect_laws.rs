//! What holds of the effect engine.
use vstd::arithmetic::power2::{lemma2_to64, lemma_pow2_pos, pow2};
use vstd::prelude::*;

use crate::core_types::Color;
use crate::double::Double;
use crate::effects::{
    after_flashes, chase_delay, chase_order, due_flashes, later_flashes, placed, ChannelState,
    EngineModel, Panic, PendingFlash, SettingsModel,
};
use crate::rounding::{
    lemma_rounded_exact, lemma_rounded_monotone, lemma_units_of_parts, lemma_units_zero,
};
use crate::single::Single;

verus! {

/// In a blackout every light is black, and in a white flash every light is white, in the order of
/// the channels.
pub proof fn lemma_panic_frames(m: EngineModel, dt: Double, decay: Single, i: int)
    requires
        0 <= i < m.channels.len(),
        m.is_sound(),
    ensures
        m.panic == Some(Panic::Blackout) ==> m.frame(dt, decay).len() == m.channels.len()
            && m.frame(dt, decay)[i] == (m.channels[i].info.id, Color { r: 0, g: 0, b: 0 }),
        m.panic == Some(Panic::WhiteFlash) ==> m.frame(dt, decay).len() == m.channels.len()
            && m.frame(dt, decay)[i] == (
            m.channels[i].info.id,
            Color { r: 255, g: 255, b: 255 },
        ),
{
    lemma_time_keeps_lights(m, dt);
}

/// Flashes that begin do not change which light is which, and those that wait are for lights that
/// exist.
pub proof fn lemma_time_keeps_lights(m: EngineModel, dt: Double)
    requires
        m.is_sound(),
    ensures
        m.on_time(dt).is_sound(),
        m.on_time(dt).infos() == m.infos(),
        m.on_time(dt).channels.len() == m.channels.len(),
        forall|i: int|
            0 <= i < m.channels.len() ==> (#[trigger] m.on_time(dt).channels[i]).info
                == m.channels[i].info,
{
    let clock = m.clock.plus(dt);
    lemma_split_flashes(m.pending, clock, m.channels.len());
    lemma_after_flashes(m.channels, due_flashes(m.pending, clock), clock);
    assert(m.on_time(dt).infos() =~= m.infos());
}

/// All flashes are for the first `n` channels.
pub open spec fn all_for(flashes: Seq<PendingFlash>, n: nat) -> bool {
    forall|k: int| 0 <= k < flashes.len() ==> (#[trigger] flashes[k]).channel < n
}

/// Due flashes and later ones are for the channels that the waiting ones were for.
pub proof fn lemma_split_flashes(pending: Seq<PendingFlash>, clock: Double, n: nat)
    requires
        all_for(pending, n),
    ensures
        all_for(due_flashes(pending, clock), n),
        all_for(later_flashes(pending, clock), n),
    decreases pending.len(),
{
    if pending.len() > 0 {
        let head = pending.drop_last();
        assert forall|k: int| 0 <= k < head.len() implies (#[trigger] head[k]).channel < n by {
            assert(head[k] == pending[k]);
        }
        assert(pending[pending.len() - 1].channel < n);
        lemma_split_flashes(head, clock, n);
    }
}

proof fn lemma_after_flashes(channels: Seq<ChannelState>, flashes: Seq<PendingFlash>, clock: Double)
    requires
        forall|k: int| 0 <= k < flashes.len() ==> (#[trigger] flashes[k]).channel < channels.len(),
    ensures
        after_flashes(channels, flashes, clock).len() == channels.len(),
        forall|i: int|
            0 <= i < channels.len() ==> (#[trigger] after_flashes(channels, flashes, clock)[i]).info
                == channels[i].info,
    decreases flashes.len(),
{
    if flashes.len() > 0 {
        let head = flashes.drop_last();
        assert forall|k: int| 0 <= k < head.len() implies (#[trigger] head[k]).channel < channels.len() by {
            assert(head[k] == flashes[k]);
        }
        assert(flashes[flashes.len() - 1].channel < channels.len());
        lemma_after_flashes(channels, head, clock);
    }
}

/// Without a panic, a frame has the lights of the engine, each once, in their order.
pub proof fn lemma_frame_lights(m: EngineModel, dt: Double, decay: Single, i: int)
    requires
        m.panic is None,
        0 <= i < m.channels.len(),
        m.is_sound(),
    ensures
        m.frame(dt, decay).len() == m.channels.len(),
        m.frame(dt, decay)[i].0 == m.channels[i].info.id,
{
    lemma_time_keeps_lights(m, dt);
    assert(m.on_time(dt).channels[i].info == m.channels[i].info);
}

/// A freeze shows what the lights showed when it began, at every tick, and the next tick does so
/// too.
pub proof fn lemma_freeze(m: EngineModel, dt: Double, decay: Single)
    ensures
        m.panicking(Some(Panic::Freeze)).frame(dt, decay) == m.rendered(),
        ({
            let next = m.panicking(Some(Panic::Freeze)).ticked(dt, decay);
            next.panic == Some(Panic::Freeze) && next.frozen == Some(m.rendered())
        }),
{
}

/// A freeze lasts: while it does, ticks and beats do not change what is shown.
pub proof fn lemma_freeze_lasts(
    m: EngineModel,
    beat: crate::core_types::BandBeatEvent,
    draws: Seq<Single>,
    dt: Double,
    decay: Single,
)
    requires
        m.panic == Some(Panic::Freeze),
        m.frozen is Some,
    ensures
        m.frame(dt, decay) == m.frozen->0,
        m.ticked(dt, decay).panic == m.panic,
        m.ticked(dt, decay).frozen == m.frozen,
        m.beaten(beat, draws).panic == m.panic,
        m.beaten(beat, draws).frozen == m.frozen,
{
    let order = chase_order(m.channels, m.reacting(beat, draws), m.channels.len());
    lemma_chase_keeps_panic(m, order, order.len(), m.flash(beat));
}

proof fn lemma_chase_keeps_panic(m: EngineModel, order: Seq<int>, n: nat, f: crate::effects::Flash)
    ensures
        m.chased(order, n, f).panic == m.panic,
        m.chased(order, n, f).frozen == m.frozen,
    decreases n,
{
    if n > 0 {
        lemma_chase_keeps_panic(m, order, (n - 1) as nat, f);
    }
}

/// Other settings and another palette do not change what the lights show at once.
pub proof fn lemma_settings_keep_lights(
    m: EngineModel,
    settings: SettingsModel,
    palette: crate::core_types::PaletteModel,
)
    ensures
        m.with_settings(settings).rendered() == m.rendered(),
        (EngineModel { palette, ..m }).rendered() == m.rendered(),
{
    assert(m.with_settings(settings).rendered() =~= m.rendered());
    assert((EngineModel { palette, ..m }).rendered() =~= m.rendered());
}

/// A waiting flash is due or goes on waiting; none is lost and none comes twice.
pub proof fn lemma_flashes_are_kept(pending: Seq<PendingFlash>, clock: Double)
    ensures
        due_flashes(pending, clock).to_multiset().add(later_flashes(pending, clock).to_multiset())
            == pending.to_multiset(),
    decreases pending.len(),
{
    broadcast use vstd::seq_lib::group_to_multiset_ensures;

    if pending.len() > 0 {
        let head = pending.drop_last();
        lemma_flashes_are_kept(head, clock);
        assert(pending =~= head.push(pending.last()));
        let (d, l) = (due_flashes(head, clock).to_multiset(), later_flashes(head, clock).to_multiset());
        if pending.last().due_ms.le(clock) {
            assert(d.insert(pending.last()).add(l) =~= d.add(l).insert(pending.last()));
        } else {
            assert(d.add(l.insert(pending.last())) =~= d.add(l).insert(pending.last()));
        }
    } else {
        assert(due_flashes(pending, clock).to_multiset().add(
            later_flashes(pending, clock).to_multiset(),
        ) =~= pending.to_multiset());
    }
}

/// One channel comes before another in a chase: further left, or at the same place and earlier in
/// the list.
pub open spec fn goes_before(channels: Seq<ChannelState>, j: int, i: int) -> bool {
    let (a, b) = (channels[j].info.x.rank(), channels[i].info.x.rank());
    a < b || (a == b && j < i)
}

/// The order is strictly from left to right.
pub open spec fn is_lined_up(channels: Seq<ChannelState>, order: Seq<int>) -> bool {
    forall|a: int, b: int|
        0 <= a < b < order.len() ==> goes_before(channels, #[trigger] order[a], #[trigger] order[b])
}

proof fn lemma_placed(channels: Seq<ChannelState>, order: Seq<int>, i: int)
    requires
        is_lined_up(channels, order),
        forall|a: int| 0 <= a < order.len() ==> #[trigger] order[a] < i,
    ensures
        is_lined_up(channels, placed(channels, order, i)),
        placed(channels, order, i).len() == order.len() + 1,
        forall|k: int| #[trigger]
            placed(channels, order, i).contains(k) <==> k == i || order.contains(k),
    decreases order.len(),
{
    let p = placed(channels, order, i);
    if order.len() == 0 {
        assert(p[0] == i);
        assert forall|k: int| #[trigger] p.contains(k) <==> k == i || order.contains(k) by {
            if k == i {
                assert(p[0] == k);
            }
        }
    } else if channels[i].info.x.rank() < channels[order.last()].info.x.rank() {
        let head = order.drop_last();
        let z = order.last();
        assert forall|a: int| 0 <= a < head.len() implies #[trigger] head[a] < i by {
            assert(head[a] == order[a]);
        }
        assert forall|a: int, b: int| 0 <= a < b < head.len() implies goes_before(
            channels,
            #[trigger] head[a],
            #[trigger] head[b],
        ) by {
            assert(head[a] == order[a] && head[b] == order[b]);
        }
        lemma_placed(channels, head, i);
        let q = placed(channels, head, i);
        assert(p == q.push(z));
        assert forall|k: int| #[trigger] p.contains(k) <==> k == i || order.contains(k) by {
            assert(q.contains(k) <==> k == i || head.contains(k));
            if p.contains(k) {
                let a = p.index_of(k);
                if a < q.len() {
                    assert(q[a] == k);
                    if head.contains(k) {
                        let b = head.index_of(k);
                        assert(order[b] == k);
                    }
                } else {
                    assert(order[order.len() - 1] == k);
                }
            }
            if k == i || order.contains(k) {
                if k == i {
                    assert(q.contains(k));
                    let a = q.index_of(k);
                    assert(p[a] == k);
                } else {
                    let b = order.index_of(k);
                    if b < head.len() {
                        assert(head[b] == k);
                        assert(q.contains(k));
                        let a = q.index_of(k);
                        assert(p[a] == k);
                    } else {
                        assert(p[q.len() as int] == k);
                    }
                }
            }
        }
        assert forall|a: int, b: int| 0 <= a < b < p.len() implies goes_before(
            channels,
            #[trigger] p[a],
            #[trigger] p[b],
        ) by {
            if b < q.len() {
                assert(p[a] == q[a] && p[b] == q[b]);
            } else {
                assert(p[b] == z);
                assert(q[a] == p[a]);
                assert(q.contains(p[a]));
                if p[a] != i {
                    let c = head.index_of(p[a]);
                    assert(order[c] == p[a]);
                    assert(goes_before(channels, order[c], order[order.len() - 1]));
                }
            }
        }
    } else {
        assert(p == order.push(i));
        assert forall|k: int| #[trigger] p.contains(k) <==> k == i || order.contains(k) by {
            if p.contains(k) {
                let a = p.index_of(k);
                if a < order.len() {
                    assert(order[a] == k);
                }
            }
            if order.contains(k) {
                let b = order.index_of(k);
                assert(p[b] == k);
            }
            if k == i {
                assert(p[order.len() as int] == k);
            }
        }
        assert forall|a: int, b: int| 0 <= a < b < p.len() implies goes_before(
            channels,
            #[trigger] p[a],
            #[trigger] p[b],
        ) by {
            if b < order.len() {
                assert(p[a] == order[a] && p[b] == order[b]);
            } else {
                assert(p[a] == order[a] && p[b] == i);
                let z = order.len() - 1;
                if a < z {
                    assert(goes_before(channels, order[a], order[z]));
                }
                assert(order[z] < i);
                assert(order[a] < i);
            }
        }
    }
}

/// A chase goes strictly from left to right, and through the reacting channels, each once.
pub proof fn lemma_chase_order(channels: Seq<ChannelState>, reacting: Seq<bool>, n: nat)
    ensures
        is_lined_up(channels, chase_order(channels, reacting, n)),
        forall|k: int| #[trigger]
            chase_order(channels, reacting, n).contains(k) <==> 0 <= k < n && reacting[k],
    decreases n,
{
    let order = chase_order(channels, reacting, n);
    if n > 0 {
        let before = chase_order(channels, reacting, (n - 1) as nat);
        lemma_chase_order(channels, reacting, (n - 1) as nat);
        if reacting[n - 1] {
            assert forall|a: int| 0 <= a < before.len() implies #[trigger] before[a] < n - 1 by {
                assert(before.contains(before[a]));
            }
            lemma_placed(channels, before, n - 1);
            assert forall|k: int| #[trigger] order.contains(k) <==> 0 <= k < n && reacting[k] by {
                assert(order.contains(k) <==> k == n - 1 || before.contains(k));
                assert(before.contains(k) <==> 0 <= k < n - 1 && reacting[k]);
            }
        } else {
            assert forall|k: int| #[trigger] order.contains(k) <==> 0 <= k < n && reacting[k] by {
                assert(before.contains(k) <==> 0 <= k < n - 1 && reacting[k]);
            }
        }
    }
}

/// A positive whole number as a double is positive.
proof fn lemma_double_positive(n: nat)
    requires
        n > 0,
    ensures
        Double::of_whole(n).magnitude() > 0,
        !Double::of_whole(n).is_not_a_number(),
        !Double::of_whole(n).is_negative(),
{
    reveal(Double::of_whole);
    let inf = crate::double::INF as nat;
    let p = pow2(1074);
    lemma_pow2_pos(1074);
    lemma2_to64();
    lemma_pow2_pos(52);
    lemma_units_of_parts(52, 0, 1);
    assert(0 * pow2(52) + 1 == 1) by (nonlinear_arith);
    lemma_rounded_exact(52, inf, 1, 1, 1);
    assert(1 * 1 <= (n * p) * 1) by (nonlinear_arith) requires n > 0, p > 0;
    lemma_rounded_monotone(52, inf, 1, 1, n * p, 1);
}

/// The first channel of a chase flashes at once.
pub proof fn lemma_first_flashes_at_once(chase: Double, count: nat)
    requires
        chase.is_finite(),
    ensures
        chase_delay(chase, 0, count).le(Double::of_whole(0)),
{
    let zero = Double::of_whole(0);
    let inf = crate::double::INF as nat;
    lemma_pow2_pos(1074);
    lemma_units_zero(52);
    assert(zero.magnitude() == 0 && !zero.is_negative()) by {
        reveal(Double::of_whole);
        assert(0 * pow2(1074) == 0) by (nonlinear_arith);
        lemma_rounded_exact(52, inf, 0, 1, 0);
    }
    if zero.lt(chase) && count > 1 {
        let x = chase.times(zero);
        let d = Double::of_whole((count - 1) as nat);
        lemma_double_positive((count - 1) as nat);
        assert(x.magnitude() == 0) by {
            reveal(Double::product);
            let u = crate::rounding::units(52, chase.magnitude());
            assert(u * 0 == 0) by (nonlinear_arith);
            assert(0 * pow2(1074) == 0) by (nonlinear_arith);
            lemma_rounded_exact(52, inf, 0, pow2(1074), 0);
        }
        assert(x.over(d).magnitude() == 0) by {
            reveal(Double::quotient);
            if d.is_finite() {
                let u = crate::rounding::units(52, d.magnitude());
                crate::rounding::lemma_units_increase(52, 0, d.magnitude());
                assert(0 * pow2(1074) == 0) by (nonlinear_arith);
                assert(0 * u == 0) by (nonlinear_arith);
                lemma_rounded_exact(52, inf, 0, u, 0);
            }
        }
    }
}

} // verus!
