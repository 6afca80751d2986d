//! What a beat does to the lights over time.
use vstd::prelude::*;

use crate::core_types::{BandBeatEvent, PaletteModel};
use crate::double::Double;
use crate::effect_laws::{all_for, lemma_chase_order, lemma_split_flashes};
use crate::effects::{
    after_flashes, chase_order, due_flashes, later_flashes, placed, ChannelState, EffectMode,
    EngineModel, Flash, Panic, PendingFlash, SettingsModel,
};
use crate::single::Single;

verus! {

/// What can happen to an engine.
pub enum LightEvent {
    Tick { dt: Double, decay: Single },
    Beat { beat: BandBeatEvent, draws: Seq<Single> },
    Intensity { level: Single },
    Palette { palette: PaletteModel },
    Settings { settings: SettingsModel },
    Panic { panic: Option<Panic> },
}

/// The engine after an event.
pub open spec fn after_event(m: EngineModel, e: LightEvent) -> EngineModel {
    match e {
        LightEvent::Tick { dt, decay } => m.ticked(dt, decay),
        LightEvent::Beat { beat, draws } => m.beaten(beat, draws),
        LightEvent::Intensity { level } => EngineModel {
            intensity: level.clamp(Single::of_whole(0), Single::of_whole(1)),
            ..m
        },
        LightEvent::Palette { palette } => EngineModel { palette, ..m },
        LightEvent::Settings { settings } => m.with_settings(settings),
        LightEvent::Panic { panic } => m.panicking(panic),
    }
}

/// The engine after the first `n` of a row of events.
pub open spec fn after_events(m: EngineModel, events: Seq<LightEvent>, n: nat) -> EngineModel
    decreases n,
{
    if n == 0 {
        m
    } else {
        after_event(after_events(m, events, (n - 1) as nat), events[n - 1])
    }
}

/// The flashes for one channel.
spec fn flashes_of(flashes: Seq<PendingFlash>, i: int) -> Seq<PendingFlash>
    decreases flashes.len(),
{
    if flashes.len() == 0 {
        Seq::empty()
    } else {
        let before = flashes_of(flashes.drop_last(), i);
        if flashes.last().channel == i {
            before.push(flashes.last())
        } else {
            before
        }
    }
}

proof fn lemma_one_flash(flashes: Seq<PendingFlash>, f: PendingFlash, i: int)
    ensures
        flashes_of(flashes.push(f), i) == if f.channel == i {
            flashes_of(flashes, i).push(f)
        } else {
            flashes_of(flashes, i)
        },
{
    assert(flashes.push(f).drop_last() =~= flashes);
}

/// The flashes of a channel come due by themselves.
proof fn lemma_due_of(pending: Seq<PendingFlash>, clock: Double, i: int)
    ensures
        flashes_of(due_flashes(pending, clock), i) == due_flashes(flashes_of(pending, i), clock),
        flashes_of(later_flashes(pending, clock), i) == later_flashes(
            flashes_of(pending, i),
            clock,
        ),
    decreases pending.len(),
{
    if pending.len() > 0 {
        let head = pending.drop_last();
        let f = pending.last();
        lemma_due_of(head, clock, i);
        lemma_one_flash(due_flashes(head, clock), f, i);
        lemma_one_flash(later_flashes(head, clock), f, i);
        assert(flashes_of(head, i).push(f).drop_last() =~= flashes_of(head, i));
    }
}

/// A channel after flashes of its own.
spec fn light_after(c: ChannelState, flashes: Seq<PendingFlash>, clock: Double) -> ChannelState
    decreases flashes.len(),
{
    if flashes.len() == 0 {
        c
    } else {
        let f = flashes.last();
        light_after(c, flashes.drop_last(), clock).flashed(f.color, f.peak, f.strobe, clock)
    }
}

proof fn lemma_light_after(
    channels: Seq<ChannelState>,
    flashes: Seq<PendingFlash>,
    clock: Double,
    i: int,
)
    requires
        all_for(flashes, channels.len()),
        0 <= i < channels.len(),
    ensures
        ({
            let after = after_flashes(channels, flashes, clock);
            &&& after.len() == channels.len()
            &&& after[i] == light_after(channels[i], flashes_of(flashes, i), clock)
            &&& after[i].info == channels[i].info
            &&& after[i].bands == channels[i].bands
        }),
    decreases flashes.len(),
{
    if flashes.len() > 0 {
        let head = flashes.drop_last();
        assert forall|k: int| 0 <= k < head.len() implies (#[trigger] head[k]).channel
            < channels.len() by {
            assert(head[k] == flashes[k]);
        }
        assert(flashes[flashes.len() - 1].channel < channels.len());
        lemma_light_after(channels, head, clock, i);
        let of = flashes_of(head, i);
        assert(of.push(flashes.last()).drop_last() =~= of);
    }
}

/// Two engines with the same lights, settings and time.
spec fn agree(a: EngineModel, b: EngineModel) -> bool {
    &&& a.is_sound() && b.is_sound()
    &&& a.channels.len() == b.channels.len()
    &&& forall|j: int|
        0 <= j < a.channels.len() ==> (#[trigger] a.channels[j]).info == b.channels[j].info
            && a.channels[j].bands == b.channels[j].bands
    &&& a.settings == b.settings
    &&& a.palette == b.palette
    &&& a.intensity == b.intensity
    &&& a.panic == b.panic
    &&& a.clock == b.clock
    &&& a.strobe_phase == b.strobe_phase
}

/// Two engines that show the same light `i`, now and later.
spec fn same_light(a: EngineModel, b: EngineModel, i: int) -> bool {
    &&& agree(a, b)
    &&& 0 <= i < a.channels.len()
    &&& a.channels[i] == b.channels[i]
    &&& flashes_of(a.pending, i) == flashes_of(b.pending, i)
    &&& a.frozen is Some == b.frozen is Some
    &&& a.frozen matches Some(x) ==> x[i] == b.frozen->0[i]
}

proof fn lemma_same_tick(a: EngineModel, b: EngineModel, i: int, dt: Double, decay: Single)
    requires
        same_light(a, b, i),
    ensures
        same_light(a.ticked(dt, decay), b.ticked(dt, decay), i),
        a.frame(dt, decay)[i] == b.frame(dt, decay)[i],
{
    let clock = a.clock.plus(dt);
    let n = a.channels.len();
    lemma_split_flashes(a.pending, clock, n);
    lemma_split_flashes(b.pending, clock, n);
    lemma_due_of(a.pending, clock, i);
    lemma_due_of(b.pending, clock, i);
    let (c, d) = (a.on_time(dt), b.on_time(dt));
    lemma_light_after(a.channels, due_flashes(a.pending, clock), clock, i);
    lemma_light_after(b.channels, due_flashes(b.pending, clock), clock, i);
    assert forall|j: int| 0 <= j < n implies (#[trigger] c.channels[j]).info == d.channels[j].info
        && c.channels[j].bands == d.channels[j].bands by {
        lemma_light_after(a.channels, due_flashes(a.pending, clock), clock, j);
        lemma_light_after(b.channels, due_flashes(b.pending, clock), clock, j);
        assert(a.channels[j].info == b.channels[j].info);
    }
    assert(same_light(c, d, i));
    assert(c.panic_frame() is Some == d.panic_frame() is Some);
    let (e, f) = (a.ticked(dt, decay), b.ticked(dt, decay));
    assert forall|j: int| 0 <= j < n implies (#[trigger] e.channels[j]).info == f.channels[j].info
        && e.channels[j].bands == f.channels[j].bands by {
        assert(c.channels[j].info == d.channels[j].info);
    }
    assert(c.channels[i].info == d.channels[i].info);
}

proof fn lemma_same_struck(
    a: EngineModel,
    b: EngineModel,
    i: int,
    k: int,
    delay: Double,
    f: Flash,
)
    requires
        same_light(a, b, i),
        0 <= k < a.channels.len(),
    ensures
        same_light(a.struck(k, delay, f), b.struck(k, delay, f), i),
{
    let (c, d) = (a.struck(k, delay, f), b.struck(k, delay, f));
    let waiting = PendingFlash {
        due_ms: a.clock.plus(delay),
        channel: k as usize,
        color: f.color,
        peak: f.peak,
        strobe: f.strobe,
    };
    lemma_one_flash(a.pending, waiting, i);
    lemma_one_flash(b.pending, waiting, i);
    assert forall|j: int| 0 <= j < c.channels.len() implies (#[trigger] c.channels[j]).info
        == d.channels[j].info && c.channels[j].bands == d.channels[j].bands by {
        assert(a.channels[j].info == b.channels[j].info);
    }
}

proof fn lemma_same_chased(
    a: EngineModel,
    b: EngineModel,
    i: int,
    order: Seq<int>,
    n: nat,
    f: Flash,
)
    requires
        same_light(a, b, i),
        n <= order.len(),
        forall|k: int| 0 <= k < order.len() ==> 0 <= #[trigger] order[k] < a.channels.len(),
    ensures
        same_light(a.chased(order, n, f), b.chased(order, n, f), i),
        a.chased(order, n, f).channels.len() == a.channels.len(),
    decreases n,
{
    if n > 0 {
        let k = (n - 1) as nat;
        lemma_same_chased(a, b, i, order, k, f);
        let chase = Double::widen(a.settings.chase_ms.max(Single::of_whole(0)));
        lemma_same_struck(
            a.chased(order, k, f),
            b.chased(order, k, f),
            i,
            order[n - 1],
            crate::effects::chase_delay(chase, k, order.len()),
            f,
        );
    }
}

/// Places depend on the places of the lights alone.
proof fn lemma_same_placed(a: Seq<ChannelState>, b: Seq<ChannelState>, order: Seq<int>, i: int)
    requires
        a.len() == b.len(),
        forall|j: int| 0 <= j < a.len() ==> (#[trigger] a[j]).info == b[j].info,
        0 <= i < a.len(),
        forall|k: int| 0 <= k < order.len() ==> 0 <= #[trigger] order[k] < a.len(),
    ensures
        placed(a, order, i) == placed(b, order, i),
    decreases order.len(),
{
    if order.len() > 0 {
        let head = order.drop_last();
        assert forall|k: int| 0 <= k < head.len() implies 0 <= #[trigger] head[k] < a.len() by {
            assert(head[k] == order[k]);
        }
        lemma_same_placed(a, b, head, i);
        let z = order[order.len() - 1];
        assert(a[z].info == b[z].info && a[i].info == b[i].info);
    }
}

proof fn lemma_same_order(
    a: Seq<ChannelState>,
    b: Seq<ChannelState>,
    reacting: Seq<bool>,
    n: nat,
)
    requires
        a.len() == b.len(),
        forall|j: int| 0 <= j < a.len() ==> (#[trigger] a[j]).info == b[j].info,
        n <= a.len(),
    ensures
        chase_order(a, reacting, n) == chase_order(b, reacting, n),
        forall|k: int|
            0 <= k < chase_order(a, reacting, n).len() ==> 0 <= #[trigger] chase_order(
                a,
                reacting,
                n,
            )[k] < n && reacting[chase_order(a, reacting, n)[k]],
    decreases n,
{
    let order = chase_order(a, reacting, n);
    lemma_chase_order(a, reacting, n);
    assert forall|k: int| 0 <= k < order.len() implies 0 <= #[trigger] order[k] < n
        && reacting[order[k]] by {
        assert(order.contains(order[k]));
    }
    if n > 0 {
        let before = chase_order(a, reacting, (n - 1) as nat);
        lemma_same_order(a, b, reacting, (n - 1) as nat);
        if reacting[n - 1] {
            lemma_same_placed(a, b, before, n - 1);
        }
    }
}

proof fn lemma_same_beat(
    a: EngineModel,
    b: EngineModel,
    i: int,
    beat: BandBeatEvent,
    draws: Seq<Single>,
)
    requires
        same_light(a, b, i),
    ensures
        same_light(a.beaten(beat, draws), b.beaten(beat, draws), i),
{
    let n = a.channels.len();
    assert(a.reacting(beat, draws) =~= b.reacting(beat, draws)) by {
        assert forall|j: int| 0 <= j < n implies a.reacting(beat, draws)[j] == b.reacting(
            beat,
            draws,
        )[j] by {
            assert(a.channels[j].bands == b.channels[j].bands);
        }
    }
    let r = a.reacting(beat, draws);
    lemma_same_order(a.channels, b.channels, r, n);
    let order = chase_order(a.channels, r, n);
    lemma_same_chased(a, b, i, order, order.len(), a.flash(beat));
}

proof fn lemma_same_event(a: EngineModel, b: EngineModel, i: int, e: LightEvent)
    requires
        same_light(a, b, i),
    ensures
        same_light(after_event(a, e), after_event(b, e), i),
{
    let (c, d) = (after_event(a, e), after_event(b, e));
    assert(a.infos() =~= b.infos()) by {
        assert forall|j: int| 0 <= j < a.channels.len() implies a.infos()[j] == b.infos()[j] by {
            assert(a.channels[j].info == b.channels[j].info);
        }
    }
    match e {
        LightEvent::Tick { dt, decay } => {
            lemma_same_tick(a, b, i, dt, decay);
        },
        LightEvent::Beat { beat, draws } => {
            lemma_same_beat(a, b, i, beat, draws);
        },
        LightEvent::Settings { settings } => {
            assert forall|j: int| 0 <= j < c.channels.len() implies (#[trigger] c.channels[j]).info
                == d.channels[j].info && c.channels[j].bands == d.channels[j].bands by {
                assert(a.channels[j].info == b.channels[j].info);
            }
        },
        _ => {
            assert forall|j: int| 0 <= j < c.channels.len() implies (#[trigger] c.channels[j]).info
                == d.channels[j].info && c.channels[j].bands == d.channels[j].bands by {
                assert(a.channels[j].info == b.channels[j].info);
            }
        },
    }
}

proof fn lemma_same_events(
    a: EngineModel,
    b: EngineModel,
    i: int,
    events: Seq<LightEvent>,
    n: nat,
)
    requires
        same_light(a, b, i),
    ensures
        same_light(after_events(a, events, n), after_events(b, events, n), i),
    decreases n,
{
    if n > 0 {
        lemma_same_events(a, b, i, events, (n - 1) as nat);
        lemma_same_event(
            after_events(a, events, (n - 1) as nat),
            after_events(b, events, (n - 1) as nat),
            i,
            events[n - 1],
        );
    }
}

proof fn lemma_chased_elsewhere(m: EngineModel, order: Seq<int>, n: nat, f: Flash, i: int)
    requires
        m.is_sound(),
        0 <= i < m.channels.len(),
        n <= order.len(),
        forall|k: int|
            0 <= k < order.len() ==> 0 <= #[trigger] order[k] < m.channels.len() && order[k] != i,
    ensures
        same_light(m, m.chased(order, n, f), i),
    decreases n,
{
    if n > 0 {
        let k = (n - 1) as nat;
        lemma_chased_elsewhere(m, order, k, f, i);
        let before = m.chased(order, k, f);
        let after = m.chased(order, n, f);
        let at = order[n - 1];
        let chase = Double::widen(m.settings.chase_ms.max(Single::of_whole(0)));
        let waiting = PendingFlash {
            due_ms: before.clock.plus(crate::effects::chase_delay(chase, k, order.len())),
            channel: at as usize,
            color: f.color,
            peak: f.peak,
            strobe: f.strobe,
        };
        lemma_one_flash(before.pending, waiting, i);
        assert forall|j: int| 0 <= j < m.channels.len() implies (#[trigger] m.channels[j]).info
            == after.channels[j].info && m.channels[j].bands == after.channels[j].bands by {
            assert(m.channels[j].info == before.channels[j].info);
        }
    }
}

/// A light does not react to a beat of a band that is not its own: whatever happens afterwards, it
/// shows at every tick what it would have shown without the beat.
pub proof fn lemma_other_bands(
    m: EngineModel,
    beat: BandBeatEvent,
    draws: Seq<Single>,
    i: int,
    events: Seq<LightEvent>,
    n: nat,
    dt: Double,
    decay: Single,
)
    requires
        m.is_sound(),
        0 <= i < m.channels.len(),
        !m.channels[i].bands.has(beat.band.position() as int),
    ensures
        after_events(m.beaten(beat, draws), events, n).frame(dt, decay)[i] == after_events(
            m,
            events,
            n,
        ).frame(dt, decay)[i],
{
    let r = m.reacting(beat, draws);
    let order = chase_order(m.channels, r, m.channels.len());
    lemma_same_order(m.channels, m.channels, r, m.channels.len());
    lemma_chased_elsewhere(m, order, order.len(), m.flash(beat), i);
    lemma_same_events(m, m.beaten(beat, draws), i, events, n);
    lemma_same_tick(
        after_events(m, events, n),
        after_events(m.beaten(beat, draws), events, n),
        i,
        dt,
        decay,
    );
}

proof fn lemma_chase_brightens(m: EngineModel, order: Seq<int>, n: nat, f: Flash, i: int)
    requires
        0 <= i < m.channels.len(),
        n <= order.len(),
        forall|k: int| 0 <= k < order.len() ==> 0 <= #[trigger] order[k] < m.channels.len(),
    ensures
        ({
            let (a, b) = (m.channels[i], m.chased(order, n, f).channels[i]);
            &&& m.chased(order, n, f).channels.len() == m.channels.len()
            &&& a.brightness.is_not_a_number() || (!b.brightness.is_not_a_number()
                && a.brightness.place() <= b.brightness.place())
            &&& !f.strobe ==> b.strobe_until_ms == a.strobe_until_ms
        }),
        m.chased(order, n, f).pending.len() >= m.pending.len(),
        forall|k: int|
            0 <= k < m.pending.len() ==> #[trigger] m.chased(order, n, f).pending[k]
                == m.pending[k],
        forall|k: int|
            m.pending.len() <= k < m.chased(order, n, f).pending.len() ==> (
            #[trigger] m.chased(order, n, f).pending[k]).strobe == f.strobe,
    decreases n,
{
    if n > 0 {
        lemma_chase_brightens(m, order, (n - 1) as nat, f, i);
        assert(0 <= order[n - 1] < m.channels.len());
    }
}

/// A beat never lowers the brightness of a light.
pub proof fn lemma_beat_brightens(m: EngineModel, beat: BandBeatEvent, draws: Seq<Single>, i: int)
    requires
        0 <= i < m.channels.len(),
    ensures
        !m.beaten(beat, draws).channels[i].brightness.lt(m.channels[i].brightness),
{
    let r = m.reacting(beat, draws);
    let order = chase_order(m.channels, r, m.channels.len());
    lemma_same_order(m.channels, m.channels, r, m.channels.len());
    lemma_chase_brightens(m, order, order.len(), m.flash(beat), i);
}

/// In the glow mode a beat starts no strobe: no light strobes longer than before, and no flash
/// that strobes is added to those that wait.
pub proof fn lemma_glow_never_strobes(
    m: EngineModel,
    beat: BandBeatEvent,
    draws: Seq<Single>,
    i: int,
)
    requires
        m.settings.mode == EffectMode::Glow,
        0 <= i < m.channels.len(),
    ensures
        m.beaten(beat, draws).channels[i].strobe_until_ms == m.channels[i].strobe_until_ms,
        forall|k: int|
            0 <= k < m.beaten(beat, draws).pending.len() && (#[trigger] m.beaten(
                beat,
                draws,
            ).pending[k]).strobe ==> k < m.pending.len() && m.beaten(beat, draws).pending[k]
                == m.pending[k],
{
    let r = m.reacting(beat, draws);
    let order = chase_order(m.channels, r, m.channels.len());
    lemma_same_order(m.channels, m.channels, r, m.channels.len());
    lemma_chase_brightens(m, order, order.len(), m.flash(beat), i);
}

} // verus!
