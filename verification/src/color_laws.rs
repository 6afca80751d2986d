//! How exact dimmed and blended colours are.
use vstd::arithmetic::power2::{lemma2_to64, lemma_pow2_adds, lemma_pow2_pos, pow2};
use vstd::prelude::*;

use crate::accuracy::{lemma_minus_near, lemma_plus_near, lemma_times_near, size};
use crate::core_types::Color;
use crate::order::{
    lemma_product, lemma_rounds_beyond, lemma_whole_exact, lemma_worth, lemma_zero_one,
};
use crate::rounding::Whole;
use crate::single::Single;

verus! {

/// A component is dimmed to its part by the factor, rounded down, at most 2^-16 off.
pub open spec fn is_dimmed(before: u8, f: Single, after: u8) -> bool {
    after * pow2(149) <= before * f.worth() + pow2(133) && before * f.worth() < (after + 1) * pow2(
        149,
    )
}

/// Dimming takes from every component the same part.
pub proof fn lemma_dimmed_part(c: Color, f: Single)
    requires
        f.is_share(),
    ensures
        is_dimmed(c.r, f, c.dimmed(f).r),
        is_dimmed(c.g, f, c.dimmed(f).g),
        is_dimmed(c.b, f, c.dimmed(f).b),
{
    lemma_zero_one();
    assert(f.clamp(Single::of_whole(0), Single::of_whole(1)) == f);
    lemma_component_part(c.r, f);
    lemma_component_part(c.g, f);
    lemma_component_part(c.b, f);
}

proof fn lemma_component_part(c: u8, f: Single)
    requires
        f.is_share(),
    ensures
        is_dimmed(c, f, Single::of_whole(c as nat).times(f).to_byte()),
{
    let u = pow2(149);
    let n = c as nat;
    let x = Single::of_whole(n);
    let p = x.times(f);
    let fw = f.worth();
    lemma2_to64();
    lemma_pow2_pos(149);
    lemma_pow2_pos(133);
    lemma_pow2_adds(16, 133);
    lemma_zero_one();
    lemma_whole_exact(n);
    lemma_whole_exact(1);
    lemma_worth(f, Single::of_whole(1));
    lemma_product(x, f);
    let m = (n * u) * fw;
    assert(m <= 255 * u * u) by (nonlinear_arith)
        requires m == (n * u) * fw, n <= 255, fw <= u;
    lemma_times_near(x, f, 255);
    let q = p.worth();
    let g = n * fw;
    assert(m == g * u) by (nonlinear_arith) requires m == (n * u) * fw, g == n * fw;
    let e = q - g;
    assert(q * u - m == e * u) by (nonlinear_arith) requires m == g * u, e == q - g;
    assert(e <= pow2(133)) by (nonlinear_arith)
        requires
            0x100_0000 * (e * u) <= (255 + 1) * u * u,
            u == 0x1_0000 * pow2(133),
            u > 0,
    ;
    let k = g / u;
    assert(k * u <= g < (k + 1) * u) by (nonlinear_arith) requires k == g / u, u > 0;
    assert(k <= 255) by (nonlinear_arith)
        requires k * u <= g, g == n * fw, n <= 255, fw <= u, u > 0;
    assert(k * u * u <= m) by (nonlinear_arith) requires k * u <= g, m == g * u, u > 0;
    lemma_rounds_beyond(m, u, k, 149);
    let w = q / u;
    assert(w * u <= q < (w + 1) * u && k <= w <= 255) by (nonlinear_arith)
        requires w == q / u, k * u <= q, q <= 255 * u, u > 0;
    assert(p.to_byte() == w) by {
        reveal(Single::whole_number);
    }
    assert((k + 1) * u <= (w + 1) * u) by (nonlinear_arith) requires k <= w, u > 0;
}

/// A component between two others, at most a half, and 2^-13, off.
pub open spec fn is_between(a: u8, b: u8, t: Single, c: u8) -> bool {
    size(2 * (c * pow2(149)) - 2 * (a * pow2(149) + (b - a) * t.worth())) <= pow2(149) + pow2(137)
}

/// A blend moves every component the same part of its way.
pub proof fn lemma_blend_part(c: Color, other: Color, t: Single)
    requires
        t.is_share(),
    ensures
        is_between(c.r, other.r, t, c.between(other, t).r),
        is_between(c.g, other.g, t, c.between(other, t).g),
        is_between(c.b, other.b, t, c.between(other, t).b),
{
    lemma_zero_one();
    assert(t.clamp(Single::of_whole(0), Single::of_whole(1)) == t);
    lemma_component_between(c.r, other.r, t);
    lemma_component_between(c.g, other.g, t);
    lemma_component_between(c.b, other.b, t);
}

proof fn lemma_component_between(a: u8, b: u8, t: Single)
    requires
        t.is_share(),
    ensures
        is_between(a, b, t, Color::component_between(a, b, t)),
{
    let u = pow2(149) as int;
    let (x, y) = (Single::of_whole(a as nat), Single::of_whole(b as nat));
    let (d, tw) = (y.minus(x), t.worth() as int);
    let (an, bn) = (a as int, b as int);
    lemma2_to64();
    lemma_pow2_pos(149);
    lemma_pow2_adds(12, 137);
    lemma_zero_one();
    lemma_whole_exact(1);
    lemma_whole_exact(a as nat);
    lemma_whole_exact(b as nat);
    lemma_worth(t, Single::of_whole(1));
    assert(an * u + bn * u <= 510 * u) by (nonlinear_arith)
        requires 0 <= an <= 255, 0 <= bn <= 255, u > 0;
    lemma_minus_near(y, x, 510);
    let dx = d.exact();
    let diff = (bn - an) * u;
    assert(bn * u - an * u == diff) by (nonlinear_arith) requires diff == (bn - an) * u;
    assert(-(511 * u) <= 0x100_0000 * (dx - diff) <= 511 * u);
    assert(-(255 * u) <= diff <= 255 * u) by (nonlinear_arith)
        requires diff == (bn - an) * u, -255 <= bn - an <= 255, u > 0;
    assert(-(256 * u) <= dx <= 256 * u);
    let dw = d.worth() as int;
    assert(dw * tw <= 256 * u * u) by (nonlinear_arith)
        requires 0 <= dw <= 256 * u, 0 <= tw <= u;
    lemma_times_near(d, t, 256);
    let p = d.times(t);
    let px = p.exact();
    let way = (bn - an) * tw;
    assert(-(257 * u * u) <= 0x100_0000 * (px * u - dx * tw) <= 257 * u * u);
    assert(-(511 * u * u) <= 0x100_0000 * (dx * tw - way * u) <= 511 * u * u) by (nonlinear_arith)
        requires
            -(511 * u) <= 0x100_0000 * (dx - diff) <= 511 * u,
            diff == (bn - an) * u,
            way == (bn - an) * tw,
            0 <= tw <= u,
            u > 0,
    ;
    let e = px - way;
    assert(e * u == px * u - way * u) by (nonlinear_arith) requires e == px - way;
    assert(-(768 * u) <= 0x100_0000 * e <= 768 * u) by (nonlinear_arith)
        requires
            e * u == px * u - way * u,
            -(257 * u * u) <= 0x100_0000 * (px * u - dx * tw) <= 257 * u * u,
            -(511 * u * u) <= 0x100_0000 * (dx * tw - way * u) <= 511 * u * u,
            u > 0,
    ;
    assert(an * u + 256 * u <= 511 * u) by (nonlinear_arith) requires 0 <= an <= 255, u > 0;
    lemma_plus_near(x, p, 511);
    let s = x.plus(p);
    let sx = s.exact();
    let goal = an * u + way;
    assert(x.exact() == an * u);
    assert(-(512 * u) <= 0x100_0000 * (sx - (an * u + px)) <= 512 * u);
    assert(-(1280 * u) <= 0x100_0000 * (sx - goal) <= 1280 * u);
    lemma_goal_range(an, bn, tw, u);
    assert(0 <= goal <= 255 * u);
    assert(2 * sx < 511 * u);
    let w = s.to_whole(Whole::Nearest);
    let c = Color::component_between(a, b, t) as int;
    if sx < 0 {
        assert(w == 0) by {
            reveal(Single::whole_number);
        }
        assert(c * u == 0) by (nonlinear_arith) requires c == 0;
    } else {
        lemma_nearest_part(s, sx as nat);
        assert(c == w as int);
    }
}

proof fn lemma_goal_range(a: int, b: int, t: int, u: int)
    requires
        0 <= a <= 255,
        0 <= b <= 255,
        0 <= t <= u,
    ensures
        0 <= a * u + (b - a) * t <= 255 * u,
{
    assert(0 <= a * u + (b - a) * t <= 255 * u) by (nonlinear_arith)
        requires 0 <= a <= 255, 0 <= b <= 255, 0 <= t <= u;
}

proof fn lemma_nearest_part(s: Single, n: nat)
    requires
        s.is_finite(),
        s.exact() == n,
        2 * n < 511 * pow2(149),
    ensures
        ({
            let w = s.to_whole(Whole::Nearest);
            &&& w <= 255
            &&& size(2 * (w * pow2(149)) - 2 * n) <= pow2(149)
        }),
{
    let u = pow2(149);
    lemma_pow2_pos(149);
    let w = (2 * n + u) / (2 * u);
    assert(w * (2 * u) <= 2 * n + u < (w + 1) * (2 * u)) by (nonlinear_arith)
        requires w == (2 * n + u) / (2 * u), u > 0;
    assert(w <= 255) by (nonlinear_arith)
        requires
            w * (2 * u) <= 2 * n + u,
            2 * n < 511 * u,
            u > 0,
    ;
    assert(w * (2 * u) == 2 * (w * u) && (w + 1) * (2 * u) == 2 * (w * u) + 2 * u)
        by (nonlinear_arith);
    reveal(Single::whole_number);
    if s.is_negative() {
        assert(n == 0);
        assert(w == 0) by (nonlinear_arith) requires w == (2 * 0 + u) / (2 * u), u > 0;
        assert(0 * u == 0) by (nonlinear_arith);
    }
}

} // verus!
