//! What holds of the flash that a beat asks for.
use vstd::arithmetic::power2::{lemma2_to64, lemma_pow2_adds, lemma_pow2_pos, pow2};
use vstd::prelude::*;

use crate::accuracy::{
    lemma_minus_error, lemma_over_error, lemma_plus_error, lemma_times_error, size,
};
use crate::core_types::{Band, BandBeatEvent};
use crate::double::Double;
use crate::effect_laws::lemma_chase_order;
use crate::effects::{
    chase_delay, chase_order, due_flashes, ChannelState, EffectMode, EngineModel, Flash,
};
use crate::order::{
    lemma_difference, lemma_fraction, lemma_of, lemma_product_order, lemma_quotient, lemma_same,
    lemma_share, lemma_sum, lemma_sum_order, lemma_times_share, lemma_whole_exact, lemma_worth,
    lemma_zero_one,
};
use crate::rounding::{
    lemma_rounded_exact, lemma_rounded_monotone, lemma_units_zero, rounded, units,
};
use crate::route_laws::reacts;
use crate::single::{Single, INF};

verus! {

/// Brightness settings from 0 to 1, the lower below the higher.
pub open spec fn has_brightness(m: EngineModel) -> bool {
    &&& m.settings.brightness_min.is_share()
    &&& m.settings.brightness_max.is_share()
    &&& m.settings.brightness_min.magnitude() <= m.settings.brightness_max.magnitude()
}

proof fn lemma_fifth()
    ensures
        Single::fraction(2, 10).is_share(),
        Single::fraction(2, 10).magnitude() > 0,
        size(5 * Single::fraction(2, 10).worth() - pow2(149)) <= 5 * pow2(129),
{
    let (a, b) = (Single::of_whole(2), Single::of_whole(10));
    let u = pow2(149);
    lemma_pow2_pos(149);
    lemma_fraction(2, 2, 10, 1);
    lemma_whole_exact(2);
    lemma_whole_exact(10);
    lemma_worth(b, b);
    assert(10 * u > 0 && 2 * u <= 4 * (10 * u));
    lemma_over_error(a, b);
    let w = Single::fraction(2, 10).worth();
    assert(size(5 * w - u) <= 5 * pow2(129)) by (nonlinear_arith)
        requires size(w * (10 * u) - (2 * u) * u) <= pow2(129) * (10 * u), u > 0;
}

/// How far the mix of two shares by a third one is from the exact one.
proof fn lemma_mix(a: Single, b: Single, t: Single)
    requires
        a.is_share(),
        b.is_share(),
        t.is_share(),
        a.magnitude() <= b.magnitude(),
    ensures
        a.plus(b.minus(a).times(t)).is_plain(),
        size(
            a.plus(b.minus(a).times(t)).worth() * pow2(149) - (a.worth() * pow2(149) + (b.worth()
                - a.worth()) * t.worth()),
        ) <= 3 * pow2(129) * pow2(149),
{
    let u = pow2(149);
    let one = Single::of_whole(1);
    lemma_pow2_pos(149);
    lemma_zero_one();
    lemma_whole_exact(1);
    lemma_worth(a, one);
    lemma_worth(b, one);
    lemma_worth(t, one);
    lemma_worth(a, b);
    let d = b.minus(a);
    lemma_difference(b, a);
    lemma_worth(d, b);
    lemma_minus_error(b, a);
    lemma_times_error(d, t);
    lemma_times_share(t, d);
    let p = d.times(t);
    lemma_worth(p, d);
    lemma_plus_error(a, p);
    lemma_sum(a, p);
    let r = a.plus(p);
    let e = pow2(129);
    lemma_pow2_pos(129);
    let (aw, bw, tw, dw, pw, rw) = (
        a.worth() as int,
        b.worth() as int,
        t.worth() as int,
        d.worth() as int,
        p.worth() as int,
        r.worth() as int,
    );
    let x = (bw - aw) * tw;
    assert(-(e * u) <= dw * tw - x <= e * u) by (nonlinear_arith)
        requires x == (bw - aw) * tw, -e <= dw - (bw - aw) <= e, 0 <= tw <= u, e > 0;
    assert(-(e * u) <= rw * u - (aw * u + pw * u) <= e * u) by (nonlinear_arith)
        requires -e <= rw - (aw + pw) <= e, u > 0;
    assert(3 * e * u == 3 * (e * u)) by (nonlinear_arith);
}

/// A flash is as bright as its beat is strong: its peak lies between the two brightness settings
/// where the strength lies between 0 and 1, at most 2^-18 off. A strength of 1 or more gives the
/// higher setting, and one of a fifth or less a fifth of the way to it.
pub proof fn lemma_flash_peak(m: EngineModel, beat: BandBeatEvent)
    requires
        has_brightness(m),
        beat.strength.is_finite(),
    ensures
        ({
            let (lo, hi) = (m.settings.brightness_min.worth(), m.settings.brightness_max.worth());
            let (peak, one) = (m.flash(beat).peak, pow2(149));
            &&& peak.is_plain()
            &&& Single::of_whole(1).le(beat.strength) ==> size(peak.worth() - hi) <= pow2(131)
            &&& beat.strength.le(Single::fraction(1, 5)) ==> size(
                5 * peak.worth() - (4 * lo + hi),
            ) <= 5 * pow2(131)
            &&& Single::fraction(1, 5).le(beat.strength) && beat.strength.le(Single::of_whole(1))
                ==> size(
                peak.worth() * one - (lo * one + (hi - lo) * beat.strength.worth()),
            ) <= pow2(131) * one
        }),
{
    let (a, b) = (m.settings.brightness_min, m.settings.brightness_max);
    let (fifth, one) = (Single::fraction(2, 10), Single::of_whole(1));
    let t = beat.strength.clamp(fifth, one);
    let (u, e) = (pow2(149), pow2(129));
    lemma2_to64();
    lemma_pow2_pos(149);
    lemma_pow2_pos(129);
    lemma_pow2_adds(2, 129);
    lemma_zero_one();
    lemma_whole_exact(1);
    lemma_fifth();
    lemma_same_fifth();
    lemma_worth(a, b);
    lemma_worth(b, one);
    assert(t.is_share());
    lemma_mix(a, b, t);
    let r = m.flash(beat).peak;
    let (aw, bw, tw, rw) = (
        a.worth() as int,
        b.worth() as int,
        t.worth() as int,
        r.worth() as int,
    );
    assert(size(rw * u - (aw * u + (bw - aw) * tw)) <= 3 * e * u);
    if one.le(beat.strength) {
        lemma_worth(t, one);
        assert(tw == u);
        assert(size(rw - bw) <= 4 * e) by (nonlinear_arith)
            requires
                size(rw * u - (aw * u + (bw - aw) * tw)) <= 3 * e * u,
                tw == u,
                u > 0,
                e > 0,
        ;
    }
    if beat.strength.le(fifth) {
        assert(t.worth() == fifth.worth());
        lemma_fifth_way(aw, bw, tw, rw, u as int, e as int);
    }
    if fifth.le(beat.strength) && beat.strength.le(one) {
        lemma_worth(t, beat.strength);
        assert(tw == beat.strength.worth());
        assert(3 * e * u <= 4 * e * u) by (nonlinear_arith) requires e > 0, u > 0;
    }
}

proof fn lemma_fifth_way(aw: int, bw: int, tw: int, rw: int, u: int, e: int)
    requires
        size(rw * u - (aw * u + (bw - aw) * tw)) <= 3 * e * u,
        size(5 * tw - u) <= 5 * e,
        0 <= aw <= bw <= u,
        u > 0,
        e > 0,
    ensures
        size(5 * rw - (4 * aw + bw)) <= 20 * e,
{
    let x = (bw - aw) * tw;
    let y = (bw - aw) * u;
    assert(-(5 * e * u) <= 5 * x - y <= 5 * e * u) by (nonlinear_arith)
        requires
            x == (bw - aw) * tw,
            y == (bw - aw) * u,
            -(5 * e) <= 5 * tw - u <= 5 * e,
            0 <= bw - aw <= u,
            e > 0,
    ;
    assert(-(3 * e * u) <= rw * u - (aw * u + x) <= 3 * e * u);
    let z = 5 * rw - (4 * aw + bw);
    assert(z * u == 5 * (rw * u) - (5 * (aw * u) + y)) by (nonlinear_arith)
        requires z == 5 * rw - (4 * aw + bw), y == (bw - aw) * u;
    assert(3 * e * u == 3 * (e * u) && 5 * e * u == 5 * (e * u)) by (nonlinear_arith);
    assert(-(20 * (e * u)) <= z * u <= 20 * (e * u));
    assert(-(20 * e) <= z <= 20 * e) by (nonlinear_arith)
        requires -(20 * (e * u)) <= z * u <= 20 * (e * u), u > 0;
}

/// One fifth and two tenths are the same.
proof fn lemma_same_fifth()
    ensures
        Single::fraction(1, 5) == Single::fraction(2, 10),
{
    lemma_cancelled(1, 5, 2);
}

/// A stronger beat gives no darker flash.
pub proof fn lemma_flash_rises(m: EngineModel, weak: BandBeatEvent, strong: BandBeatEvent)
    requires
        has_brightness(m),
        weak.strength.le(strong.strength),
    ensures
        m.flash(weak).peak.le(m.flash(strong).peak),
{
    let (a, b) = (m.settings.brightness_min, m.settings.brightness_max);
    let (fifth, one) = (Single::fraction(2, 10), Single::of_whole(1));
    lemma_zero_one();
    lemma_fifth();
    lemma_difference(b, a);
    let d = b.minus(a);
    let (s, t) = (weak.strength.clamp(fifth, one), strong.strength.clamp(fifth, one));
    lemma_times_share(s, d);
    lemma_times_share(t, d);
    lemma_product_order(s, t, d);
    lemma_sum_order(a, a, d.times(s), d.times(t));
    lemma_sum(a, d.times(s));
    lemma_sum(a, d.times(t));
}

/// The place of a band in the list of slots, from the lowest frequencies to the highest.
pub open spec fn slot_of(m: EngineModel, band: Band) -> nat {
    match band {
        Band::Low => m.settings.band_slots[0] as nat,
        Band::LowMid => m.settings.band_slots[1] as nat,
        Band::HighMid => m.settings.band_slots[2] as nat,
        Band::High => m.settings.band_slots[3] as nat,
    }
}

/// A flash has the colour of the slot of its band; slots beyond the last colour wrap around, and
/// without colours it is white.
pub proof fn lemma_flash_color(m: EngineModel, beat: BandBeatEvent)
    ensures
        ({
            let colors = m.palette.colors;
            let slot = slot_of(m, beat.band);
            let c = m.flash(beat).color;
            &&& colors.len() == 0 ==> c.r == 255 && c.g == 255 && c.b == 255
            &&& slot < colors.len() ==> c == colors[slot as int]
            &&& colors.len() > 0 ==> c == colors[(slot % colors.len()) as int]
        }),
{
    if slot_of(m, beat.band) < m.palette.colors.len() {
        vstd::arithmetic::div_mod::lemma_small_mod(
            slot_of(m, beat.band),
            m.palette.colors.len(),
        );
    }
}

/// A flash strobes only on a strength above 0.9 and only where that is switched on: always in the
/// strobe mode, never in the glow mode, and in the automatic mode where the music is intense.
pub proof fn lemma_flash_strobes(m: EngineModel, beat: BandBeatEvent)
    ensures
        ({
            let s = m.settings;
            let hard = s.strobe_on_peaks && Single::fraction(9, 10).lt(beat.strength);
            let strobe = m.flash(beat).strobe;
            &&& !hard ==> !strobe
            &&& s.mode == EffectMode::Strobe ==> strobe == hard
            &&& s.mode == EffectMode::Glow ==> !strobe
            &&& s.mode == EffectMode::Auto ==> strobe == (hard && Single::fraction(75, 100).lt(
                m.intensity,
            ))
        }),
{
    lemma_same_quarters();
}

/// A fraction does not change with what is taken out of both numbers.
pub proof fn lemma_cancelled(n: nat, d: nat, k: nat)
    requires
        0 < d,
        0 < k,
        n * k < 0x100_0000,
        d * k < 0x100_0000,
        n < 0x100_0000,
        d < 0x100_0000,
    ensures
        Single::fraction(n, d) == Single::fraction(n * k, d * k),
{
    let u = pow2(149);
    let (a, b, c, e) = (
        Single::of_whole(n),
        Single::of_whole(d),
        Single::of_whole(n * k),
        Single::of_whole(d * k),
    );
    lemma_pow2_pos(149);
    lemma_whole_exact(n);
    lemma_whole_exact(d);
    lemma_whole_exact(n * k);
    lemma_whole_exact(d * k);
    lemma_worth(b, b);
    lemma_worth(e, e);
    assert(d * u > 0 && (d * k) * u > 0) by (nonlinear_arith) requires d > 0, k > 0, u > 0;
    lemma_quotient(a, b);
    lemma_quotient(c, e);
    let (n1, d1, n2, d2) = ((n * u) * u, d * u, ((n * k) * u) * u, (d * k) * u);
    assert(n1 * d2 == n2 * d1) by (nonlinear_arith)
        requires n1 == (n * u) * u, d1 == d * u, n2 == ((n * k) * u) * u, d2 == (d * k) * u;
    lemma_rounded_monotone(23, INF as nat, n1, d1, n2, d2);
    lemma_rounded_monotone(23, INF as nat, n2, d2, n1, d1);
    lemma_same(a.over(b), c.over(e));
}

proof fn lemma_same_quarters()
    ensures
        Single::fraction(3, 4) == Single::fraction(75, 100),
{
    lemma_cancelled(3, 4, 25);
}

/// What a flash does to a light.
pub open spec fn is_lit(before: ChannelState, after: ChannelState, f: Flash) -> bool {
    &&& after.info == before.info && after.bands == before.bands && after.color == before.color
    &&& after.target == f.color
    &&& after.brightness == before.brightness || after.brightness == f.peak
    &&& !after.brightness.lt(before.brightness)
    &&& !after.brightness.lt(f.peak)
}

proof fn lemma_all_lit(m: EngineModel, order: Seq<int>, n: nat, f: Flash, i: int)
    requires
        n <= order.len(),
        0 <= i < m.channels.len(),
        !Single::of_whole(0).lt(m.settings.chase_ms),
        forall|k: int| 0 <= k < order.len() ==> 0 <= #[trigger] order[k] < m.channels.len(),
    ensures
        ({
            let a = m.chased(order, n, f);
            &&& a.channels.len() == m.channels.len()
            &&& a.settings == m.settings && a.clock == m.clock
            &&& a.pending == m.pending
            &&& (exists|k: int| 0 <= k < n && order[k] == i) ==> is_lit(
                m.channels[i],
                a.channels[i],
                f,
            )
            &&& !(exists|k: int| 0 <= k < n && order[k] == i) ==> a.channels[i] == m.channels[i]
        }),
    decreases n,
{
    if n > 0 {
        let k = (n - 1) as nat;
        lemma_all_lit(m, order, k, f, i);
        let before = m.chased(order, k, f);
        let chase = Double::widen(m.settings.chase_ms.max(Single::of_whole(0)));
        lemma_no_delay(m.settings.chase_ms, k, order.len());
        assert(0 <= order[n - 1] < m.channels.len());
        if order[n - 1] == i {
            assert(0 <= n - 1 < n && order[n - 1] == i);
        } else if exists|j: int| 0 <= j < n && order[j] == i {
            let j = choose|j: int| 0 <= j < n && order[j] == i;
            assert(0 <= j < k && order[j] == i);
        }
    }
}

/// Without a chase nothing is delayed.
proof fn lemma_no_delay(chase_ms: Single, k: nat, count: nat)
    requires
        !Single::of_whole(0).lt(chase_ms),
    ensures
        chase_delay(Double::widen(chase_ms.max(Single::of_whole(0))), k, count).le(
            Double::of_whole(0),
        ),
{
    let zero = Single::of_whole(0);
    lemma_zero_one();
    let c = chase_ms.max(zero);
    assert(c.magnitude() == 0);
    lemma_double_zero();
    assert(Double::widen(c).magnitude() == 0) by {
        reveal(Double::widen);
        lemma_units_zero(23);
        lemma_units_zero(52);
        assert(0 * pow2(925) == 0) by (nonlinear_arith);
        lemma_rounded_exact(52, crate::double::INF as nat, 0, 1, 0);
    }
}

proof fn lemma_double_zero()
    ensures
        Double::of_whole(0).magnitude() == 0,
        !Double::of_whole(0).is_not_a_number(),
{
    reveal(Double::of_whole);
    lemma_units_zero(52);
    assert(0 * pow2(1074) == 0) by (nonlinear_arith);
    lemma_rounded_exact(52, crate::double::INF as nat, 0, 1, 0);
}

/// A beat without a chase lights every light of its band at once, where the draw lets it, in the
/// colour of the band's slot and at the peak of the beat, and leaves every other light as it is.
pub proof fn lemma_beat_lights(m: EngineModel, beat: BandBeatEvent, draws: Seq<Single>, i: int)
    requires
        0 <= i < m.channels.len(),
        !Single::of_whole(0).lt(m.settings.chase_ms),
    ensures
        ({
            let hit = reacts(m.channels[i].bands, beat.band) && (Single::of_whole(1).le(
                m.settings.per_light_probability,
            ) || draws[i].le(m.settings.per_light_probability));
            let a = m.beaten(beat, draws);
            &&& hit ==> is_lit(m.channels[i], a.channels[i], m.flash(beat))
            &&& !hit ==> a.channels[i] == m.channels[i]
            &&& a.pending == m.pending
        }),
{
    let r = m.reacting(beat, draws);
    let order = chase_order(m.channels, r, m.channels.len());
    lemma_chase_order(m.channels, r, m.channels.len());
    assert forall|k: int| 0 <= k < order.len() implies 0 <= #[trigger] order[k] < m.channels.len() by {
        assert(order.contains(order[k]));
    }
    lemma_all_lit(m, order, order.len(), m.flash(beat), i);
    assert(order.contains(i) <==> r[i]);
    if order.contains(i) {
        let k = order.index_of(i);
        assert(0 <= k < order.len() && order[k] == i);
    }
}

/// How far the mix of two shares by a third one is from the exact one, whichever is larger.
pub proof fn lemma_signed_mix(a: Single, b: Single, t: Single)
    requires
        a.is_share(),
        b.is_share(),
        t.is_share(),
    ensures
        a.plus(b.minus(a).times(t)).is_finite(),
        size(
            a.plus(b.minus(a).times(t)).exact() * pow2(149) - (a.worth() * pow2(149) + (b.worth()
                - a.worth()) * t.worth()),
        ) <= 3 * pow2(129) * pow2(149),
{
    let u = pow2(149);
    let e = pow2(129);
    let one = Single::of_whole(1);
    lemma2_to64();
    lemma_pow2_pos(129);
    lemma_pow2_adds(20, 129);
    lemma_zero_one();
    lemma_whole_exact(1);
    lemma_worth(a, one);
    lemma_worth(b, one);
    lemma_worth(t, one);
    let d = b.minus(a);
    lemma_minus_error(b, a);
    lemma_times_error(d, t);
    let p = d.times(t);
    let (aw, bw, tw, dx, px) = (
        a.worth() as int,
        b.worth() as int,
        t.worth() as int,
        d.exact(),
        p.exact(),
    );
    assert(-(u + e) <= dx <= u + e);
    assert(-(u + 2 * e) <= px <= u + 2 * e) by (nonlinear_arith)
        requires
            -(e * u) <= px * u - dx * tw <= e * u,
            -(u + e) <= dx <= u + e,
            0 <= tw <= u,
            u > 0,
            e > 0,
    ;
    lemma_plus_error(a, p);
    let rx = a.plus(p).exact();
    let x = (bw - aw) * tw;
    assert(-(e * u) <= dx * tw - x <= e * u) by (nonlinear_arith)
        requires x == (bw - aw) * tw, -e <= dx - (bw - aw) <= e, 0 <= tw <= u, e > 0;
    assert(-(e * u) <= rx * u - (aw * u + px * u) <= e * u) by (nonlinear_arith)
        requires -e <= rx - (aw + px) <= e, u > 0;
    assert(3 * e * u == 3 * (e * u)) by (nonlinear_arith);
}

/// Between beats a light decays: of the distance of its brightness from the floor the given part is
/// left, at most 2^-18 off.
pub proof fn lemma_light_decays(m: EngineModel, dt: Double, decay: Single, i: int)
    requires
        0 <= i < m.channels.len(),
        m.panic is None,
        m.pending.len() == 0,
        m.channels[i].brightness.is_share(),
        m.floor().is_share(),
        decay.is_share(),
    ensures
        ({
            let (b, f, one) = (m.channels[i].brightness.worth(), m.floor().worth(), pow2(149));
            let after = m.ticked(dt, decay).channels[i].brightness;
            &&& after.is_finite()
            &&& size(after.exact() * one - (f * one + (b - f) * decay.worth())) <= pow2(131) * one
        }),
{
    let t = m.on_time(dt);
    lemma2_to64();
    lemma_pow2_pos(129);
    lemma_pow2_pos(149);
    lemma_pow2_adds(2, 129);
    assert(due_flashes(m.pending, t.clock).len() == 0);
    assert(t.channels == m.channels);
    lemma_signed_mix(m.floor(), m.channels[i].brightness, decay);
    let (e, u) = (pow2(129), pow2(149));
    assert(3 * e * u <= 4 * e * u) by (nonlinear_arith) requires e > 0, u > 0;
}

/// The floor that lights decay to rises with the intensity of the music, from the lower brightness
/// setting up to a quarter of the way to the higher one, at most 2^-17 off.
pub proof fn lemma_floor(m: EngineModel)
    requires
        has_brightness(m),
        m.intensity.is_share(),
    ensures
        ({
            let (lo, hi) = (m.settings.brightness_min.worth(), m.settings.brightness_max.worth());
            let one = pow2(149);
            &&& m.floor().is_plain()
            &&& size(
                4 * (m.floor().worth() * one) - (4 * (lo * one) + (hi - lo) * m.intensity.worth()),
            ) <= 4 * pow2(132) * one
        }),
{
    let (a, b, t) = (m.settings.brightness_min, m.settings.brightness_max, m.intensity);
    let (u, e) = (pow2(149), pow2(129));
    let (one, quarter) = (Single::of_whole(1), Single::fraction(1, 4));
    lemma2_to64();
    lemma_pow2_pos(149);
    lemma_pow2_pos(129);
    lemma_pow2_adds(3, 129);
    lemma_zero_one();
    lemma_whole_exact(1);
    lemma_fraction(1, 1, 4, 1);
    lemma_quarter_worth();
    lemma_worth(a, one);
    lemma_worth(b, one);
    lemma_worth(t, one);
    lemma_worth(a, b);
    let d = b.minus(a);
    lemma_difference(b, a);
    lemma_worth(d, b);
    lemma_minus_error(b, a);
    lemma_times_share(quarter, d);
    lemma_times_error(d, quarter);
    let q = d.times(quarter);
    lemma_worth(q, d);
    lemma_times_share(t, q);
    lemma_times_error(q, t);
    let p = q.times(t);
    lemma_worth(p, q);
    lemma_plus_error(a, p);
    lemma_sum(a, p);
    let (aw, bw, tw, dw, qw, pw, rw) = (
        a.worth() as int,
        b.worth() as int,
        t.worth() as int,
        d.worth() as int,
        q.worth() as int,
        p.worth() as int,
        m.floor().worth() as int,
    );
    let cw = quarter.worth() as int;
    assert(-(4 * e) <= 4 * qw - dw <= 4 * e) by (nonlinear_arith)
        requires -(e * u) <= qw * u - dw * cw <= e * u, 4 * cw == u, u > 0;
    assert(-(5 * e) <= 4 * qw - (bw - aw) <= 5 * e);
    let x = (bw - aw) * tw;
    assert(-(5 * (e * u)) <= 4 * (qw * tw) - x <= 5 * (e * u)) by (nonlinear_arith)
        requires
            x == (bw - aw) * tw,
            -(5 * e) <= 4 * qw - (bw - aw) <= 5 * e,
            0 <= tw <= u,
            e > 0,
    ;
    assert(-(e * u) <= rw * u - (aw * u + pw * u) <= e * u) by (nonlinear_arith)
        requires -e <= rw - (aw + pw) <= e, u > 0;
    assert(-(13 * (e * u)) <= 4 * (rw * u) - (4 * (aw * u) + x) <= 13 * (e * u));
    assert(13 * (e * u) <= 4 * (8 * e) * u) by (nonlinear_arith) requires e > 0, u > 0;
}

pub proof fn lemma_quarter_worth()
    ensures
        4 * Single::fraction(1, 4).worth() == pow2(149),
{
    let (one, four) = (Single::of_whole(1), Single::of_whole(4));
    let u = pow2(149);
    lemma2_to64();
    lemma_pow2_pos(147);
    lemma_pow2_adds(2, 147);
    lemma_whole_exact(1);
    lemma_whole_exact(4);
    lemma_worth(four, four);
    assert(4 * u > 0);
    lemma_quotient(one, four);
    let (n, d, h) = (one.worth() * u, four.worth(), pow2(147));
    assert(n == 1 * h * d) by (nonlinear_arith)
        requires n == 1 * u * u, d == 4 * u, u == 4 * h;
    crate::order::lemma_rounds_within(n, d, 1, 147);
    crate::order::lemma_rounds_beyond(n, d, 1, 147);
}

/// The decay of a flash over a time is the exponential of that time by the fade time, and no fade
/// is shorter than 20 ms: the exponent times the fade time is the time, at most 2^-20 of the fade
/// time off.
pub proof fn lemma_decay_time(m: EngineModel, dt: Double)
    requires
        dt.to_single().is_plain(),
        m.settings.fade_ms.is_finite(),
        dt.to_single().worth() <= 4 * m.settings.fade_ms.max(Single::of_whole(20)).worth(),
    ensures
        ({
            let (x, t, fade) = (m.decay_exponent(dt), dt.to_single(), m.settings.fade_ms);
            &&& x.is_finite() && (x.is_negative() || x.magnitude() == 0)
            &&& Single::of_whole(20).le(fade) ==> size(
                x.worth() * fade.worth() - t.worth() * pow2(149),
            ) <= pow2(129) * fade.worth()
            &&& fade.lt(Single::of_whole(20)) ==> size(
                x.worth() * (20 * pow2(149)) - t.worth() * pow2(149),
            ) <= pow2(129) * (20 * pow2(149))
        }),
{
    let twenty = Single::of_whole(20);
    let (t, f) = (dt.to_single(), m.settings.fade_ms.max(twenty));
    lemma_pow2_pos(149);
    lemma_whole_exact(20);
    lemma_zero_one();
    crate::order::lemma_whole_order(1, 20);
    lemma_over_error(t, f);
    let x = m.decay_exponent(dt);
    assert(x == t.over(f).neg()) by {
        reveal(Single::quotient);
        lemma_of(true, t.magnitude());
        let (n, d) = (units(23, t.magnitude()) * pow2(149), units(23, f.magnitude()));
        crate::rounding::lemma_rounded_nearest(23, INF as nat, n, d);
        lemma_of(false, rounded(23, INF as nat, n, d));
        lemma_of(true, rounded(23, INF as nat, n, d));
    }
    lemma_of(true, t.over(f).magnitude());
}

/// Over a time a colour moves by that part of the way to its target that the time is of the fade
/// time, all of it where the time is no shorter; no fade is shorter than 20 ms.
pub proof fn lemma_color_time(m: EngineModel, dt: Double)
    requires
        dt.to_single().is_plain(),
        m.settings.color_fade_ms.is_finite(),
    ensures
        ({
            let (x, t, fade) = (m.color_step(dt), dt.to_single(), m.settings.color_fade_ms);
            let whole = fade.max(Single::of_whole(20));
            &&& x.is_share()
            &&& whole.le(t) ==> x == Single::of_whole(1)
            &&& t.le(whole) ==> size(x.worth() * whole.worth() - t.worth() * pow2(149)) <= pow2(129)
                * whole.worth()
        }),
{
    let (twenty, one) = (Single::of_whole(20), Single::of_whole(1));
    let (t, f) = (dt.to_single(), m.settings.color_fade_ms.max(twenty));
    lemma_pow2_pos(149);
    lemma_whole_exact(20);
    lemma_zero_one();
    crate::order::lemma_whole_order(1, 20);
    lemma_worth(t, f);
    if t.magnitude() <= f.magnitude() {
        lemma_share(t, f);
        lemma_over_error(t, f);
    } else {
        lemma_share(f, f);
        crate::order::lemma_quotient_order(f, t, f);
        lemma_quotient(t, f);
    }
}

} // verus!
