//! What lights show, and when the lights of a chase flash.
use vstd::prelude::*;

use crate::color_laws::{is_between, is_dimmed, lemma_blend_part, lemma_dimmed_part};
use crate::core_laws::lemma_dimmed;
use crate::core_types::{BandBeatEvent, PaletteModel};
use crate::double::Double;
use crate::effect_laws::lemma_first_flashes_at_once;
use crate::effects::{
    chase_delay, chase_order, due_flashes, mask, ChannelInfo, ChannelState, EngineModel, Flash,
    SettingsModel,
};
use crate::order::{lemma_same, lemma_zero_one};
use crate::single::Single;
use crate::time_laws::lemma_chase_time;

verus! {

/// A light that does not strobe shows its colour at its brightness: a part of every component, all
/// of it from 1 on, and nothing below 0.
pub proof fn lemma_shown(c: ChannelState, clock: Double, phase: bool)
    requires
        !clock.lt(c.strobe_until_ms),
    ensures
        ({
            let (id, seen) = c.shown(clock, phase);
            let b = c.brightness;
            &&& id == c.info.id
            &&& b.is_share() ==> is_dimmed(c.color.r, b, seen.r) && is_dimmed(c.color.g, b, seen.g)
                && is_dimmed(c.color.b, b, seen.b)
            &&& Single::of_whole(1).le(b) ==> seen == c.color
            &&& b.lt(Single::of_whole(0)) ==> seen.r == 0 && seen.g == 0 && seen.b == 0
        }),
{
    let (zero, one) = (Single::of_whole(0), Single::of_whole(1));
    let b = c.brightness;
    lemma_zero_one();
    lemma_dimmed(c.color, zero);
    lemma_dimmed(c.color, one);
    if b.is_share() {
        assert(b.clamp(zero, one) == b);
        lemma_dimmed_part(c.color, b);
    }
    if one.le(b) && !one.lt(b) {
        lemma_same(b, one);
    }
}

/// At a tick the colour of a light moves its part of the way to the target, and the target stays;
/// white and black of a strobe take turns from tick to tick.
pub proof fn lemma_color_moves(m: EngineModel, dt: Double, decay: Single, i: int)
    requires
        0 <= i < m.channels.len(),
        m.panic is None,
        m.pending.len() == 0,
        m.color_step(dt).is_share(),
    ensures
        ({
            let (before, after) = (m.channels[i], m.ticked(dt, decay).channels[i]);
            let t = m.color_step(dt);
            &&& is_between(before.color.r, before.target.r, t, after.color.r)
            &&& is_between(before.color.g, before.target.g, t, after.color.g)
            &&& is_between(before.color.b, before.target.b, t, after.color.b)
            &&& after.target == before.target
            &&& after.strobe_until_ms == before.strobe_until_ms
            &&& m.ticked(dt, decay).strobe_phase != m.strobe_phase
        }),
{
    let t = m.on_time(dt);
    assert(due_flashes(m.pending, t.clock).len() == 0);
    assert(t.channels == m.channels);
    lemma_blend_part(m.channels[i].color, m.channels[i].target, m.color_step(dt));
}

/// At the beginning every light has the first colour of the palette at the lower brightness, and
/// the bands that the settings give it; new settings give new bands, and keep what is shown.
pub proof fn lemma_light_bands(
    channels: Seq<ChannelInfo>,
    palette: PaletteModel,
    settings: SettingsModel,
    m: EngineModel,
    i: int,
)
    requires
        0 <= i < channels.len(),
        m.infos() == channels,
        palette.colors.len() > 0,
    ensures
        ({
            let c = EngineModel::initial(channels, palette, settings).channels[i];
            &&& c.info == channels[i] && c.color == palette.colors[0] && c.target
                == palette.colors[0] && c.brightness == settings.brightness_min
            &&& c.bands == mask(channels, settings, i)
        }),
        m.with_settings(settings).channels[i].bands == mask(channels, settings, i),
        m.with_settings(settings).channels[i].color == m.channels[i].color,
        m.with_settings(settings).channels[i].brightness == m.channels[i].brightness,
{
    assert(m.channels.len() == channels.len());
}

proof fn lemma_chased(m: EngineModel, order: Seq<int>, n: nat, f: Flash)
    requires
        m.settings.chase_ms.is_plain(),
        m.settings.chase_ms.magnitude() > 0,
        n <= order.len(),
        1 < order.len() <= 0x100_0000,
    ensures
        ({
            let a = m.chased(order, n, f);
            let chase = Double::widen(m.settings.chase_ms);
            &&& a.clock == m.clock && a.settings == m.settings
            &&& a.pending.len() == m.pending.len() + if n > 0 {
                n - 1
            } else {
                0
            }
            &&& a.pending.take(m.pending.len() as int) == m.pending
            &&& forall|k: int|
                #![trigger a.pending[m.pending.len() + k - 1]]
                1 <= k < n ==> {
                    let p = a.pending[m.pending.len() + k - 1];
                    &&& p.channel == order[k] as usize && p.color == f.color && p.peak == f.peak
                        && p.strobe == f.strobe
                    &&& p.due_ms == m.clock.plus(chase_delay(chase, k as nat, order.len()))
                }
            &&& n > 0 ==> a.channels == m.channels.update(
                order[0],
                m.channels[order[0]].flashed(f.color, f.peak, f.strobe, m.clock),
            )
        }),
    decreases n,
{
    let s = m.settings.chase_ms;
    let zero = Single::of_whole(0);
    lemma_zero_one();
    assert(s.max(zero) == s);
    if n == 0 {
        assert(m.pending.take(m.pending.len() as int) =~= m.pending);
    } else {
        let j = (n - 1) as nat;
        lemma_chased(m, order, j, f);
        let b = m.chased(order, j, f);
        let a = m.chased(order, n, f);
        let delay = chase_delay(Double::widen(s), j, order.len());
        lemma_chase_time(s, (order.len() - 1) as nat, order.len());
        if j == 0 {
            lemma_first_flashes_at_once(Double::widen(s), order.len());
            assert(a.pending == m.pending);
            assert(m.pending.take(m.pending.len() as int) =~= m.pending);
        } else {
            lemma_chase_time(s, j, order.len());
            assert(a.pending == b.pending.push(a.pending.last()));
            assert(a.pending.take(m.pending.len() as int) =~= b.pending.take(
                m.pending.len() as int,
            ));
            assert forall|k: int|
                #![trigger a.pending[m.pending.len() + k - 1]]
                1 <= k < n implies {
                let p = a.pending[m.pending.len() + k - 1];
                &&& p.channel == order[k] as usize && p.color == f.color && p.peak == f.peak
                    && p.strobe == f.strobe
                &&& p.due_ms == m.clock.plus(
                    chase_delay(Double::widen(s), k as nat, order.len()),
                )
            } by {
                if k < j {
                    assert(a.pending[m.pending.len() + k - 1] == b.pending[m.pending.len() + k
                        - 1]);
                }
            }
        }
    }
}

/// A chase of several lights lights the leftmost at once, and every other one at its part of the
/// time of the chase, in the colour and at the peak of the beat.
pub proof fn lemma_chase_flashes(m: EngineModel, beat: BandBeatEvent, draws: Seq<Single>, k: int)
    requires
        m.settings.chase_ms.is_plain(),
        m.settings.chase_ms.magnitude() > 0,
        1 < chase_order(m.channels, m.reacting(beat, draws), m.channels.len()).len() <= 0x100_0000,
    ensures
        ({
            let order = chase_order(m.channels, m.reacting(beat, draws), m.channels.len());
            let (a, f, old) = (m.beaten(beat, draws), m.flash(beat), m.pending.len());
            let chase = Double::widen(m.settings.chase_ms);
            &&& a.pending.len() == old + order.len() - 1
            &&& a.pending.take(old as int) == m.pending
            &&& a.channels == m.channels.update(
                order[0],
                m.channels[order[0]].flashed(f.color, f.peak, f.strobe, m.clock),
            )
            &&& 1 <= k < order.len() ==> {
                let p = a.pending[old + k - 1];
                &&& p.channel == order[k] as usize && p.color == f.color && p.peak == f.peak
                    && p.strobe == f.strobe
                &&& p.due_ms == m.clock.plus(chase_delay(chase, k as nat, order.len()))
            }
        }),
{
    let order = chase_order(m.channels, m.reacting(beat, draws), m.channels.len());
    lemma_chased(m, order, order.len(), m.flash(beat));
}

} // verus!
