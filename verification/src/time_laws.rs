//! What the clocks of the library tell: the time of a frame, of a strobe and of a chase.
use vstd::arithmetic::power2::{lemma2_to64, lemma_pow2_adds, lemma_pow2_pos, pow2};
use vstd::prelude::*;

use crate::accuracy::{lemma_rounding_error, size};
use crate::analysis::AnalyzerModel;
use crate::bounds::lemma_power_order;
use crate::core_laws::lemma_dimmed;
use crate::core_types::Color;
use crate::double::{Double, INF};
use crate::effects::{chase_delay, due_flashes, later_flashes, ChannelState, PendingFlash};
use crate::order::{lemma_same, lemma_whole_exact, lemma_zero_one};
use crate::rounding::{
    lemma_on_grid, lemma_parts, lemma_rounded_exact, lemma_rounded_monotone, lemma_units_increase,
    lemma_units_zero, rounded, spacing, units, Whole,
};
use crate::single::Single;
use crate::stream_laws::lemma_fraction_bits;

verus! {

/// A number of double precision that is finite and not negative, with its value in units of
/// 2^-1074.
spec fn holds(x: Double, n: nat) -> bool {
    x.is_finite() && !x.is_negative() && units(52, x.magnitude()) == n
}

/// Numbers with the same value are the same.
proof fn lemma_holds_one(x: Double, y: Double, n: nat)
    requires
        holds(x, n),
        holds(y, n),
    ensures
        x == y,
{
    if x.magnitude() < y.magnitude() {
        lemma_units_increase(52, x.magnitude(), y.magnitude());
    }
    if y.magnitude() < x.magnitude() {
        lemma_units_increase(52, y.magnitude(), x.magnitude());
    }
}

/// The order of numbers is that of their values.
proof fn lemma_holds_order(x: Double, a: nat, y: Double, b: nat)
    requires
        holds(x, a),
        holds(y, b),
    ensures
        x.lt(y) <==> a < b,
        x.le(y) <==> a <= b,
{
    if x.magnitude() < y.magnitude() {
        lemma_units_increase(52, x.magnitude(), y.magnitude());
    }
    if y.magnitude() < x.magnitude() {
        lemma_units_increase(52, y.magnitude(), x.magnitude());
    }
}

/// What lies on the grid is its own rounding.
proof fn lemma_rounds_to(n: nat, d: nat, c: nat, t: nat)
    requires
        d > 0,
        c < 0x20_0000_0000_0000,
        t <= 2044,
        n == c * pow2(t) * d,
    ensures
        holds(Double::nearest(false, n, d), c * pow2(t)),
{
    lemma_fraction_bits();
    let k = lemma_on_grid(52, c, t);
    assert((t + 2) * pow2(52) <= 0x7fe * 0x10_0000_0000_0000) by (nonlinear_arith)
        requires t <= 2044, pow2(52) == 0x10_0000_0000_0000;
    lemma_rounded_exact(52, INF as nat, n, d, k);
}

/// Whole numbers of up to 53 bits are exact.
proof fn lemma_double_exact(n: nat)
    requires
        n < 0x20_0000_0000_0000,
    ensures
        holds(Double::of_whole(n), n * pow2(1074)),
{
    reveal(Double::of_whole);
    lemma_rounds_to(n * pow2(1074), 1, n, 1074);
}

/// Numbers of single precision keep their value.
proof fn lemma_widened_exact(s: Single) -> (part: (nat, nat))
    requires
        s.is_plain(),
    ensures
        holds(Double::widen(s), s.worth() * pow2(925)),
        part.0 < 0x100_0000,
        part.1 <= 1179,
        s.worth() * pow2(925) == part.0 * pow2(part.1),
{
    reveal(Double::widen);
    let m = s.magnitude();
    let t = spacing(23, m);
    let c = (m - t * pow2(23)) as nat;
    lemma_fraction_bits();
    lemma_parts(23, m);
    lemma_pow2_adds(t, 925);
    assert(t <= 254) by {
        if t >= 255 {
            assert(255 * 0x80_0000 <= t * 0x80_0000) by (nonlinear_arith) requires t >= 255;
        }
    }
    let w = s.worth() * pow2(925);
    assert(w == c * pow2(t + 925)) by (nonlinear_arith)
        requires
            w == s.worth() * pow2(925),
            s.worth() == c * pow2(t),
            pow2(t + 925) == pow2(t) * pow2(925),
    ;
    lemma_rounds_to(w, 1, c, t + 925);
    (c, t + 925)
}

/// The time of a frame is that of the samples up to it, at most a millisecond off.
pub proof fn lemma_frame_time(m: AnalyzerModel, hz: nat, mags: Seq<Single>)
    requires
        0 < hz < 0x100_0000,
        m.rate == Single::of_whole(hz),
        1000 * m.samples < 0x20_0000_0000_0000,
    ensures
        ({
            let t = m.output(mags).frame.timestamp_ms;
            t * hz <= 1000 * m.samples + hz && 1000 * m.samples < (t + 1) * hz
        }),
        1000 * m.samples % hz == 0 ==> m.output(mags).frame.timestamp_ms * hz == 1000 * m.samples,
{
    lemma_time_of_samples(m.samples, hz);
    assert(m.output(mags).frame.timestamp_ms == m.now().to_whole(Whole::Floor));
}

proof fn lemma_time_of_samples(s: nat, hz: nat)
    requires
        0 < hz < 0x100_0000,
        1000 * s < 0x20_0000_0000_0000,
    ensures
        ({
            let t = Double::of_whole(s).times(Double::of_whole(1000)).over(
                Double::widen(Single::of_whole(hz)),
            ).to_whole(Whole::Floor);
            &&& t * hz <= 1000 * s + hz && 1000 * s < (t + 1) * hz
            &&& 1000 * s % hz == 0 ==> t * hz == 1000 * s
        }),
{
    let d = pow2(1074);
    let p = 1000 * s;
    let (x, y, rate) = (Double::of_whole(s), Double::of_whole(1000), Single::of_whole(hz));
    let r = Double::widen(rate);
    lemma_pow2_pos(1074);
    lemma_pow2_adds(149, 925);
    lemma_double_exact(s);
    lemma_double_exact(1000);
    lemma_whole_exact(hz);
    lemma_widened_exact(rate);
    assert(rate.worth() * pow2(925) == hz * d) by (nonlinear_arith)
        requires rate.worth() == hz * pow2(149), d == pow2(149) * pow2(925);
    let z = x.times(y);
    assert(holds(z, p * d)) by {
        reveal(Double::product);
        assert((s * d) * (1000 * d) == p * d * d) by (nonlinear_arith) requires p == 1000 * s;
        lemma_rounds_to((s * d) * (1000 * d), d, p, 1074);
    }
    let now = z.over(r);
    assert(hz * d > 0) by (nonlinear_arith) requires hz > 0, d > 0;
    lemma_units_zero(52);
    assert(r.magnitude() > 0);
    assert(now == Double::nearest(false, (p * d) * d, hz * d)) by {
        reveal(Double::quotient);
    }
    lemma_floor_of_quotient(p, hz);
}

proof fn lemma_floor_of_quotient(p: nat, hz: nat)
    requires
        0 < hz,
        p + 1 < 0x20_0000_0000_0000,
    ensures
        ({
            let d = pow2(1074);
            let t = Double::nearest(false, (p * d) * d, hz * d).to_whole(Whole::Floor);
            &&& t * hz <= p + hz && p < (t + 1) * hz
            &&& p % hz == 0 ==> t * hz == p
        }),
{
    let d = pow2(1074);
    let f = p / hz;
    let (n2, d2) = ((p * d) * d, hz * d);
    lemma_pow2_pos(1074);
    assert(hz * d > 0) by (nonlinear_arith) requires hz > 0, d > 0;
    assert(f * hz <= p < (f + 1) * hz && f <= p) by (nonlinear_arith)
        requires f == p / hz, hz > 0, p >= 0;
    let k = rounded(52, INF as nat, n2, d2);
    let (a, b) = (f * d, (f + 1) * d);
    assert(a == f * d * 1 && b == (f + 1) * d * 1);
    lemma_rounds_to(a, 1, f, 1074);
    lemma_rounds_to(b, 1, f + 1, 1074);
    let (lo, hi) = (rounded(52, INF as nat, a, 1), rounded(52, INF as nat, b, 1));
    assert(a * d2 <= n2 * 1) by (nonlinear_arith)
        requires f * hz <= p, d2 == hz * d, n2 == (p * d) * d, a == f * d, d > 0;
    assert(n2 * 1 <= b * d2) by (nonlinear_arith)
        requires p < (f + 1) * hz, d2 == hz * d, n2 == (p * d) * d, b == (f + 1) * d, d > 0;
    lemma_rounded_monotone(52, INF as nat, a, 1, n2, d2);
    lemma_rounded_monotone(52, INF as nat, n2, d2, b, 1);
    let v = units(52, k);
    if lo < k {
        lemma_units_increase(52, lo, k);
    }
    if k < hi {
        lemma_units_increase(52, k, hi);
    }
    assert(a <= v <= b);
    let now = Double::nearest(false, n2, d2);
    let t = now.to_whole(Whole::Floor);
    assert(v / d <= f + 1) by (nonlinear_arith) requires v <= (f + 1) * d, d > 0;
    assert(t == v / d) by {
        reveal(Double::whole_number);
    }
    assert(f <= t <= f + 1) by (nonlinear_arith)
        requires t == v / d, f * d <= v <= (f + 1) * d, d > 0;
    assert(t * hz <= p + hz && p < (t + 1) * hz) by (nonlinear_arith)
        requires f <= t <= f + 1, f * hz <= p, p < (f + 1) * hz, hz > 0;
    if p % hz == 0 {
        assert(p == f * hz) by (nonlinear_arith) requires f == p / hz, p % hz == 0, hz > 0;
        assert(n2 == f * d * d2) by (nonlinear_arith)
            requires p == f * hz, d2 == hz * d, n2 == (p * d) * d;
        lemma_rounds_to(n2, d2, f, 1074);
        assert(t == f) by (nonlinear_arith) requires t == v / d, v == f * d, d > 0;
    }
}

/// A strobe lasts 120 ms from its flash: during that time the light is white at its brightness, or
/// grey, in one tick and black in the other, and afterwards it has its colour again.
pub proof fn lemma_strobe_time(
    c: ChannelState,
    color: Color,
    peak: Single,
    start: nat,
    now: nat,
    phase: bool,
)
    requires
        start + 120 < 0x20_0000_0000_0000,
        now < 0x20_0000_0000_0000,
    ensures
        ({
            let lit = c.flashed(color, peak, true, Double::of_whole(start));
            let (id, seen) = lit.shown(Double::of_whole(now), phase);
            let bright = Single::of_whole(1).le(lit.brightness);
            &&& id == c.info.id
            &&& now < start + 120 && phase ==> seen.r == seen.g && seen.g == seen.b
            &&& now < start + 120 && phase && bright ==> seen.r == 255
            &&& now < start + 120 && !phase ==> seen.r == 0 && seen.g == 0 && seen.b == 0
            &&& now >= start + 120 && bright ==> seen == c.color
        }),
{
    let d = pow2(1074);
    let end = start + 120;
    let (x, y) = (Double::of_whole(start), Double::of_whole(120));
    let white = Color { r: 255, g: 255, b: 255 };
    let one = Single::of_whole(1);
    lemma_pow2_pos(1074);
    lemma_double_exact(start);
    lemma_double_exact(120);
    lemma_double_exact(now);
    assert(holds(x.plus(y), end * d)) by {
        reveal(Double::sum);
        assert(start * d + 120 * d == end * d && end * d > 0) by (nonlinear_arith)
            requires end == start + 120, d > 0;
        lemma_rounds_to(end * d, 1, end, 1074);
    }
    lemma_holds_order(Double::of_whole(now), now * d, x.plus(y), end * d);
    assert(now * d < end * d <==> now < end) by (nonlinear_arith) requires d > 0;
    lemma_zero_one();
    lemma_dimmed(c.color, Single::of_whole(0));
    lemma_dimmed(c.color, one);
    lemma_dimmed(white, one);
    let lit = c.flashed(color, peak, true, x);
    if one.le(lit.brightness) {
        let b = lit.brightness.clamp(Single::of_whole(0), one);
        assert(b.magnitude() == one.magnitude() && !b.is_negative());
        lemma_same(b, one);
    }
}

/// A chase takes its time: its last channel flashes when the time is over, and each in between
/// after its part of it.
pub proof fn lemma_chase_time(s: Single, k: nat, count: nat)
    requires
        s.is_plain(),
        s.magnitude() > 0,
        1 < count <= 0x100_0000,
        k < count,
    ensures
        chase_delay(Double::widen(s), (count - 1) as nat, count) == Double::widen(s),
        ({
            let (delay, chase) = (chase_delay(Double::widen(s), k, count), Double::widen(s));
            let steps = (count - 1) as nat;
            &&& delay.is_finite()
            &&& 2 * pow2(52) * size(delay.exact() * steps - chase.exact() * k) <= (delay.exact()
                + pow2(52)) * steps
        }),
        k > 0 ==> Double::of_whole(0).lt(chase_delay(Double::widen(s), k, count)),
{
    lemma_chase_step(s, k, count);
    lemma_chase_step(s, (count - 1) as nat, count);
}

proof fn lemma_chase_step(s: Single, k: nat, count: nat)
    requires
        s.is_plain(),
        s.magnitude() > 0,
        1 < count <= 0x100_0000,
        k < count,
    ensures
        ({
            let (delay, chase) = (chase_delay(Double::widen(s), k, count), Double::widen(s));
            let steps = (count - 1) as nat;
            &&& delay.is_finite() && !delay.is_negative()
            &&& k == steps ==> delay == chase
            &&& k > 0 ==> Double::of_whole(0).lt(delay)
            &&& 2 * pow2(52) * size(delay.exact() * steps - chase.exact() * k) <= (delay.exact()
                + pow2(52)) * steps
        }),
{
    let d = pow2(1074);
    let steps = (count - 1) as nat;
    let chase = Double::widen(s);
    let (c, t) = lemma_widened_exact(s);
    let w = c * pow2(t);
    let (x, y) = (Double::of_whole(k), Double::of_whole(steps));
    lemma_pow2_pos(1074);
    lemma_pow2_pos(925);
    lemma_pow2_pos(t);
    lemma_double_exact(k);
    lemma_double_exact(steps);
    lemma_double_exact(0);
    lemma_fraction_bits();
    lemma_units_zero(23);
    lemma_units_increase(23, 0, s.magnitude());
    lemma2_to64();
    lemma_power_order(24, 925);
    assert(w > 0) by (nonlinear_arith)
        requires w == s.worth() * pow2(925), s.worth() > 0, pow2(925) > 0;
    assert(0 * d == 0) by (nonlinear_arith);
    lemma_holds_order(Double::of_whole(0), 0, chase, w);
    let z = chase.times(x);
    let ck = c * k;
    assert(ck < 0x1_0000_0000_0000) by (nonlinear_arith)
        requires ck == c * k, c < 0x100_0000, k < 0x100_0000;
    let wk = ck * pow2(t);
    assert(holds(z, wk)) by {
        reveal(Double::product);
        assert(w * (k * d) == ck * pow2(t) * d) by (nonlinear_arith)
            requires w == c * pow2(t), ck == c * k;
        lemma_rounds_to(w * (k * d), d, ck, t);
    }
    let delay = z.over(y);
    let (n2, d2) = (wk * d, steps * d);
    assert(d2 > 0) by (nonlinear_arith) requires d2 == steps * d, steps > 0, d > 0;
    lemma_units_zero(52);
    assert(delay == Double::nearest(false, n2, d2)) by {
        reveal(Double::quotient);
    }
    let q = rounded(52, INF as nat, n2, d2);
    // It is no longer than the chase.
    lemma_rounds_to(w, 1, c, t);
    let top = rounded(52, INF as nat, w, 1);
    assert(n2 * 1 <= w * d2) by (nonlinear_arith)
        requires
            n2 == wk * d,
            d2 == steps * d,
            wk == ck * pow2(t),
            ck == c * k,
            w == c * pow2(t),
            k <= steps,
            d > 0,
    ;
    lemma_rounded_monotone(52, INF as nat, n2, d2, w, 1);
    assert(q <= top < INF);
    lemma_rounding_error(52, INF as nat, n2, d2);
    let v = units(52, q);
    assert(size(v * d2 - n2) == size(v * steps - wk) * d) by {
        let e = v * steps - wk;
        assert(v * d2 - n2 == e * d) by (nonlinear_arith)
            requires e == v * steps - wk, d2 == steps * d, n2 == wk * d;
        assert(size(e * d) == size(e) * d) by (nonlinear_arith) requires d > 0;
    }
    assert(w * k == wk) by (nonlinear_arith)
        requires w == c * pow2(t), wk == ck * pow2(t), ck == c * k;
    let b = size(v * steps - wk) as int;
    assert(2 * pow2(52) * b <= (v + pow2(52)) * steps) by (nonlinear_arith)
        requires 2 * pow2(52) * (b * d) <= (v + pow2(52)) * d2, d2 == steps * d, d > 0;
    if k == steps {
        assert(n2 == c * pow2(t) * d2) by (nonlinear_arith)
            requires n2 == wk * d, wk == ck * pow2(t), ck == c * k, d2 == steps * d, k == steps;
        lemma_rounds_to(n2, d2, c, t);
        lemma_holds_one(delay, chase, w);
    }
    if k > 0 {
        // A positive value of this size does not round to zero.
        assert(v > 0) by {
            if v == 0 {
                assert(size(0 * steps - wk) == wk) by (nonlinear_arith);
                assert(2 * b <= steps) by (nonlinear_arith)
                    requires
                        2 * pow2(52) * b <= (v + pow2(52)) * steps,
                        v == 0,
                        pow2(52) == 0x10_0000_0000_0000,
                ;
                assert(0x100_0000 <= w <= wk) by (nonlinear_arith)
                    requires
                        w == s.worth() * pow2(925),
                        s.worth() > 0,
                        0x100_0000 <= pow2(925),
                        wk == w * k,
                        k > 0,
                ;
            }
        }
        lemma_holds_order(Double::of_whole(0), 0, delay, v);
    }
}

/// Due are the waiting flashes whose time has come, and all of them; the others go on waiting.
pub proof fn lemma_due(pending: Seq<PendingFlash>, clock: Double)
    ensures
        due_flashes(pending, clock) == pending.filter(|f: PendingFlash| f.due_ms.le(clock)),
        later_flashes(pending, clock) == pending.filter(|f: PendingFlash| !f.due_ms.le(clock)),
    decreases pending.len(),
{
    reveal(Seq::filter);
    if pending.len() > 0 {
        lemma_due(pending.drop_last(), clock);
    } else {
        assert(pending =~= Seq::empty());
    }
}

} // verus!
