//! The colours of the test pattern.
use vstd::arithmetic::power2::{lemma2_to64, lemma_pow2_adds, lemma_pow2_pos, pow2};
use vstd::prelude::*;

use crate::engine_laws::lemma_wheel;
use crate::order::{
    lemma_difference, lemma_of, lemma_product, lemma_quotient, lemma_same, lemma_whole_exact,
    lemma_whole_product, lemma_whole_quotient, lemma_whole_sum, lemma_worth, lemma_zero_one,
};
use crate::pattern::{hue_color, pattern_hue, ramp, sixth};
use crate::rounding::{lemma_on_grid, lemma_rounded_exact, lemma_units_zero};
use crate::single::{Single, INF};

verus! {

/// The remainder of whole numbers.
proof fn lemma_whole_remainder(a: nat, b: nat)
    requires
        a < 0x100_0000,
        0 < b < 0x100_0000,
    ensures
        Single::of_whole(a).rem(Single::of_whole(b)) == Single::of_whole(a % b),
{
    reveal(Single::remainder);
    let u = pow2(149);
    let (x, y, r) = (Single::of_whole(a), Single::of_whole(b), a % b);
    lemma2_to64();
    lemma_pow2_pos(149);
    lemma_whole_exact(a);
    lemma_whole_exact(b);
    assert(r < b) by (nonlinear_arith) requires r == a % b, b > 0;
    lemma_whole_exact(r);
    assert(b * u > 0) by (nonlinear_arith) requires b > 0, u > 0;
    lemma_worth(y, y);
    lemma_scaled_remainder(a, b, u);
    let k = lemma_on_grid(23, r, 149);
    lemma_rounded_exact(23, INF as nat, r * u, 1, k);
    lemma_of(false, k);
    lemma_worth(Single::of(false, k), Single::of_whole(r));
    lemma_same(x.rem(y), Single::of_whole(r));
}

proof fn lemma_scaled_remainder(a: nat, b: nat, u: nat)
    requires
        b > 0,
        u > 0,
    ensures
        (a * u) % (b * u) == (a % b) * u,
{
    let (q, r) = (a / b, a % b);
    assert(a == q * b + r && 0 <= r < b) by (nonlinear_arith)
        requires q == a / b, r == a % b, b > 0;
    assert(a * u == q * (b * u) + r * u) by (nonlinear_arith) requires a == q * b + r;
    assert(0 <= r * u < b * u) by (nonlinear_arith) requires 0 <= r < b, u > 0;
    vstd::arithmetic::div_mod::lemma_fundamental_div_mod_converse(
        (a * u) as int,
        (b * u) as int,
        q as int,
        (r * u) as int,
    );
}

/// The rainbow turns by a quarter of the circle per second, and from light to light by a sixth: at
/// 50 frames per second, after whole seconds.
pub proof fn lemma_rainbow(seconds: nat, k: nat)
    requires
        seconds < 16000,
        k < 100000,
    ensures
        pattern_hue(50 * seconds, k) == Single::of_whole((90 * seconds + 60 * k) % 360),
{
    let i = 50 * seconds;
    lemma_whole_product(i, 20);
    assert(i * 20 == seconds * 1000);
    lemma_whole_quotient(seconds, 1000);
    lemma_whole_product(seconds, 90);
    lemma_whole_product(k, 60);
    lemma_whole_sum(seconds * 90, k * 60);
    lemma_whole_remainder(seconds * 90 + k * 60, 360);
    assert(seconds * 90 + k * 60 == 90 * seconds + 60 * k);
}

/// How far a hue of `15 * i` degrees is from the nearest of red, green and blue, in quarters of the
/// way to the colour between.
pub open spec fn quarters(i: nat) -> nat {
    let r = i % 8;
    if r <= 4 {
        r
    } else {
        (8 - r) as nat
    }
}

proof fn lemma_quarter_ramp(i: nat)
    requires
        15 * i < 0x100_0000,
    ensures
        ramp(Single::of_whole(15 * i)).is_plain(),
        ramp(Single::of_whole(15 * i)).worth() == quarters(i) * pow2(147),
{
    let (u, g) = (pow2(149), pow2(147));
    let (h, sixty, one, two) = (
        Single::of_whole(15 * i),
        Single::of_whole(60),
        Single::of_whole(1),
        Single::of_whole(2),
    );
    let r = i % 8;
    lemma2_to64();
    lemma_pow2_pos(149);
    lemma_pow2_pos(147);
    lemma_pow2_adds(147, 2);
    lemma_zero_one();
    lemma_whole_exact(15 * i);
    lemma_whole_exact(60);
    lemma_whole_exact(1);
    lemma_whole_exact(2);
    lemma_worth(sixty, sixty);
    lemma_worth(two, two);
    lemma_quotient(h, sixty);
    let k = lemma_on_grid(23, i, 147);
    assert(((15 * i) * u) * u == i * g * (60 * u)) by (nonlinear_arith) requires u == 4 * g;
    lemma_rounded_exact(23, INF as nat, ((15 * i) * u) * u, 60 * u, k);
    let q = h.over(sixty);
    assert(q.worth() == i * g);
    let m = q.rem(two);
    let j = lemma_on_grid(23, r, 147);
    assert(m.is_plain() && m.worth() == r * g) by {
        reveal(Single::remainder);
        lemma_scaled_remainder(i, 8, g);
        assert(2 * u == 8 * g);
        lemma_rounded_exact(23, INF as nat, r * g, 1, j);
        lemma_of(false, j);
    }
    let d = m.minus(one);
    let t = if r >= 4 { (r - 4) as nat } else { (4 - r) as nat };
    let n = lemma_on_grid(23, t, 147);
    assert(d.magnitude() == n) by {
        reveal(Single::sum);
        lemma_of(true, one.magnitude());
        let x = m.exact() + one.neg().exact();
        assert(x == r * g - 4 * g);
        lemma_of(false, n);
        lemma_of(true, n);
        lemma_of(false, 0);
        assert(t * g * 1 == t * g);
        lemma_rounded_exact(23, INF as nat, t * g, 1, n);
        lemma_units_zero(23);
        if r == 4 {
            assert(0 * g == 0) by (nonlinear_arith);
            lemma_worth(Single::of(false, n), Single::of_whole(0));
        } else if r > 4 {
            assert(x == t * g && x > 0) by (nonlinear_arith)
                requires x == r * g - 4 * g, t == r - 4, r > 4, g > 0;
        } else {
            assert(-x == t * g && x < 0) by (nonlinear_arith)
                requires x == r * g - 4 * g, t == 4 - r, r < 4, g > 0;
        }
    }
    let a = d.abs();
    lemma_of(false, n);
    assert(a.is_plain() && a.worth() == t * g);
    assert(t * g <= 4 * g) by (nonlinear_arith) requires t <= 4;
    lemma_worth(a, one);
    lemma_difference(one, a);
    let w = (4 - t) as nat;
    assert(4 * g - t * g == w * g) by (nonlinear_arith) requires w == 4 - t;
    let z = lemma_on_grid(23, w, 147);
    assert(w * g * 1 == w * g);
    lemma_rounded_exact(23, INF as nat, w * g, 1, z);
    assert(w == quarters(i));
}

/// Round the wheel of colours: every sixth of the circle goes from one of red, yellow, green, cyan,
/// blue and magenta to the next, in equal steps.
pub proof fn lemma_hues(i: nat)
    requires
        15 * i < 0x100_0000,
    ensures
        ({
            let c = hue_color(Single::of_whole(15 * i), Single::of_whole(1), Single::of_whole(1));
            let step = 255 * quarters(i) / 4;
            let part = i / 4 % 6;
            &&& part == 0 ==> c.r == 255 && c.g == step && c.b == 0
            &&& part == 1 ==> c.r == step && c.g == 255 && c.b == 0
            &&& part == 2 ==> c.r == 0 && c.g == 255 && c.b == step
            &&& part == 3 ==> c.r == 0 && c.g == step && c.b == 255
            &&& part == 4 ==> c.r == step && c.g == 0 && c.b == 255
            &&& part == 5 ==> c.r == 255 && c.g == 0 && c.b == step
        }),
{
    let (u, g) = (pow2(149), pow2(147));
    let h = Single::of_whole(15 * i);
    let (t, x, full) = (quarters(i), ramp(h), Single::of_whole(255));
    lemma2_to64();
    lemma_pow2_pos(149);
    lemma_pow2_pos(147);
    lemma_pow2_adds(147, 2);
    lemma_whole_exact(15 * i);
    lemma_wheel(h);
    lemma_quarter_ramp(i);
    assert(sixth(h) == i / 4 % 6) by {
        reveal(Single::whole_number);
        let n = 15 * i;
        assert((n * u) / u == n) by (nonlinear_arith) requires u > 0;
        assert(n / 60 == i / 4);
    }
    lemma_whole_exact(255);
    let p = x.times(full);
    lemma_product(x, full);
    let v = 255 * t;
    let k = lemma_on_grid(23, v, 147);
    assert((t * g) * (255 * u) == v * g * u) by (nonlinear_arith) requires v == 255 * t;
    lemma_rounded_exact(23, INF as nat, (t * g) * (255 * u), u, k);
    assert(p.is_plain() && p.worth() == v * g);
    let w = v / 4;
    assert((v * g) / u == w) by (nonlinear_arith) requires w == v / 4, u == 4 * g, g > 0;
    assert(t <= 4);
    assert(p.to_byte() == w) by {
        reveal(Single::whole_number);
    }
}

} // verus!
