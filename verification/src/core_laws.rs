//! What holds of colours.
use vstd::arithmetic::power2::{lemma_pow2_pos, pow2};
use vstd::prelude::*;

use crate::core_types::{
    all_digits, byte_chars, digit_char, digit_value, hex_number, without_hashes, Color,
};
use crate::order::{
    lemma_difference, lemma_nearest_whole, lemma_plus_zero, lemma_same, lemma_sum_order,
    lemma_times_share, lemma_whole_exact, lemma_whole_order, lemma_whole_sum, lemma_worth,
};
use crate::rounding::{lemma_rounded_exact, lemma_units_zero, Whole};
use crate::single::{Single, INF};

verus! {

/// Two hexadecimal digits spell the byte that they were made from.
pub proof fn lemma_byte(b: u8)
    ensures
        digit_value(digit_char(b as int / 16)) == Some((b / 16) as nat),
        digit_value(digit_char(b as int % 16)) == Some((b % 16) as nat),
        digit_char(b as int / 16) != '#',
        digit_char(b as int / 16) != '+',
{
}

/// A colour is read back from its text.
pub proof fn lemma_color_text(c: Color)
    ensures
        Color::parse(c.text()) == Some(c),
{
    let t = c.text();
    let d = t.skip(1);
    lemma_byte(c.r);
    lemma_byte(c.g);
    lemma_byte(c.b);
    assert(d =~= byte_chars(c.r) + byte_chars(c.g) + byte_chars(c.b));
    assert(t[0] == '#');
    assert(without_hashes(d) == d);
    assert(without_hashes(t) == d);
    assert forall|i: int| 0 <= i < d.len() implies digit_value(#[trigger] d[i]) is Some by {
        if i < 2 {
            assert(d[i] == byte_chars(c.r)[i]);
        } else if i < 4 {
            assert(d[i] == byte_chars(c.g)[i - 2]);
        } else {
            assert(d[i] == byte_chars(c.b)[i - 4]);
        }
    }
    assert(all_digits(d));
    let d5 = d.drop_last();
    let d4 = d5.drop_last();
    let d3 = d4.drop_last();
    let d2 = d3.drop_last();
    let d1 = d2.drop_last();
    let d0 = d1.drop_last();
    assert(d0.len() == 0);
    assert(hex_number(d0) == 0);
    assert(d1.last() == digit_char(c.r as int / 16));
    assert(d2.last() == digit_char(c.r as int % 16));
    assert(d3.last() == digit_char(c.g as int / 16));
    assert(d4.last() == digit_char(c.g as int % 16));
    assert(d5.last() == digit_char(c.b as int / 16));
    assert(d.last() == digit_char(c.b as int % 16));
    assert(hex_number(d1) == c.r / 16);
    assert(hex_number(d2) == c.r);
    assert(hex_number(d3) == 16 * c.r + c.g / 16);
    assert(hex_number(d4) == 256 * c.r + c.g);
    assert(hex_number(d5) == 4096 * c.r + 16 * c.g + c.b / 16);
    let v = hex_number(d);
    assert(v == 65536 * c.r + 256 * c.g + c.b);
    assert(v / 65536 == c.r);
    assert(v / 256 == 256 * c.r + c.g);
}

/// Dimming never makes a component brighter; by 1 it changes nothing, and by 0 it leaves black.
pub proof fn lemma_dimmed(c: Color, f: Single)
    requires
        f.is_share(),
    ensures
        c.dimmed(f).r <= c.r,
        c.dimmed(f).g <= c.g,
        c.dimmed(f).b <= c.b,
        f == Single::of_whole(1) ==> c.dimmed(f) == c,
        f == Single::of_whole(0) ==> c.dimmed(f) == (Color { r: 0, g: 0, b: 0 }),
{
    lemma_share_clamped(f);
    lemma_dimmed_component(c.r, f);
    lemma_dimmed_component(c.g, f);
    lemma_dimmed_component(c.b, f);
}

/// A number from 0 to 1 is not changed by bringing it into that range.
proof fn lemma_share_clamped(f: Single)
    requires
        f.is_share(),
    ensures
        f.clamp(Single::of_whole(0), Single::of_whole(1)) == f,
        Single::of_whole(0).magnitude() == 0,
        Single::of_whole(0).is_share(),
        Single::of_whole(1).is_share(),
        Single::of_whole(1).magnitude() > 0,
{
    lemma_whole_exact(0);
    lemma_whole_order(0, 1);
    lemma_whole_order(1, 1);
    lemma_worth(Single::of_whole(0), Single::of_whole(0));
    assert(0 * pow2(149) == 0) by (nonlinear_arith);
}

proof fn lemma_dimmed_component(a: u8, f: Single)
    requires
        f.is_share(),
    ensures
        Single::of_whole(a as nat).times(f).to_byte() <= a,
        f == Single::of_whole(1) ==> Single::of_whole(a as nat).times(f).to_byte() == a,
        f == Single::of_whole(0) ==> Single::of_whole(a as nat).times(f).to_byte() == 0,
{
    let x = Single::of_whole(a as nat);
    lemma_share_clamped(f);
    lemma_whole_exact(a as nat);
    lemma_times_share(f, x);
    let y = x.times(f);
    lemma_worth(y, x);
    lemma_pow2_pos(149);
    reveal(Single::whole_number);
    let p = pow2(149);
    assert(y.worth() <= a * p);
    vstd::arithmetic::div_mod::lemma_div_is_ordered(y.worth() as int, (a * p) as int, p as int);
    crate::rounding::lemma_whole_of_multiple(Whole::Floor, a as nat, p);
    if y.magnitude() == 0 {
        lemma_units_zero(23);
        crate::rounding::lemma_whole_of_multiple(Whole::Floor, 0, p);
        assert(0 * p == 0) by (nonlinear_arith);
    }
}

/// Small whole numbers subtract exactly, to a number with a sign where the second is larger.
pub proof fn lemma_whole_difference(a: nat, b: nat)
    requires
        a < 0x100_0000,
        b < 0x100_0000,
    ensures
        b >= a ==> Single::of_whole(b).minus(Single::of_whole(a)) == Single::of_whole((b - a) as nat),
        b < a ==> Single::of_whole(b).minus(Single::of_whole(a)) == Single::of_whole(
            (a - b) as nat,
        ).neg(),
{
    let p = pow2(149);
    let (x, y) = (Single::of_whole(a), Single::of_whole(b));
    lemma_whole_exact(a);
    lemma_whole_exact(b);
    lemma_pow2_pos(149);
    reveal(Single::sum);
    lemma_whole_order(if a < b { a } else { b }, if a < b { b } else { a });
    lemma_worth(x, y);
    if b >= a {
        let z = Single::of_whole((b - a) as nat);
        lemma_whole_exact((b - a) as nat);
        assert(b * p - a * p == (b - a) * p) by (nonlinear_arith);
        lemma_difference(y, x);
        lemma_rounded_exact(23, INF as nat, z.worth(), 1, z.magnitude());
        lemma_same(y.minus(x), z);
    } else {
        let z = Single::of_whole((a - b) as nat);
        lemma_whole_exact((a - b) as nat);
        assert(a * p - b * p == (a - b) * p) by (nonlinear_arith);
        assert((a - b) * p > 0) by (nonlinear_arith) requires a > b, p > 0;
        lemma_rounded_exact(23, INF as nat, z.worth(), 1, z.magnitude());
        lemma_same(y.minus(x), z.neg());
    }
}

/// The product with a number from 0 to 1 keeps the sign, and its size does not grow.
proof fn lemma_signed_share(d: Single, t: Single)
    requires
        d.is_plain(),
        t.is_share(),
    ensures
        d.neg().times(t).magnitude() == d.times(t).magnitude(),
        d.neg().times(t).is_negative(),
        d.times(t).is_plain(),
        d.times(t).magnitude() <= d.magnitude(),
        t == Single::of_whole(1) ==> d.times(t) == d,
        t.magnitude() == 0 ==> d.times(t).magnitude() == 0,
{
    lemma_times_share(t, d);
    reveal(Single::product);
    let n = d.neg();
    assert(n.magnitude() == d.magnitude() && n.is_negative());
    crate::order::lemma_product(d, t);
    crate::order::lemma_of(true, d.times(t).magnitude());
}

/// Adding a number with a sign is taking away the one without.
proof fn lemma_plus_negative(x: Single, d: Single)
    requires
        x.is_plain(),
        d.is_negative(),
        d.is_finite(),
    ensures
        x.plus(d) == x.minus(d.neg()),
{
    lemma_same(d.neg().neg(), d);
}

/// One component between two stays between them; at 0 it is the first, and at 1 the second.
proof fn lemma_component(a: u8, b: u8, t: Single)
    requires
        t.is_share(),
    ensures
        a <= b ==> a <= Color::component_between(a, b, t) <= b,
        b <= a ==> b <= Color::component_between(a, b, t) <= a,
        t == Single::of_whole(0) ==> Color::component_between(a, b, t) == a,
        t == Single::of_whole(1) ==> Color::component_between(a, b, t) == b,
{
    let (x, y) = (Single::of_whole(a as nat), Single::of_whole(b as nat));
    lemma_share_clamped(t);
    lemma_whole_exact(a as nat);
    lemma_whole_exact(b as nat);
    lemma_whole_difference(a as nat, b as nat);
    if a <= b {
        let d = Single::of_whole((b - a) as nat);
        lemma_whole_exact((b - a) as nat);
        lemma_times_share(t, d);
        lemma_whole_sum(a as nat, (b - a) as nat);
        let e = d.times(t);
        lemma_sum_order(x, x, e, d);
        crate::order::lemma_sum_grows(x, e);
        let v = x.plus(e);
        assert(x.plus(d) == y);
        if e.magnitude() == 0 {
            lemma_plus_zero(x, e);
        }
        lemma_nearest_whole(v, b as nat);
        lemma_nearest_at_least(v, a as nat);
        if t == Single::of_whole(0) {
            assert(v == x);
            lemma_nearest_whole(x, a as nat);
        }
    } else {
        let d = Single::of_whole((a - b) as nat);
        lemma_whole_exact((a - b) as nat);
        lemma_signed_share(d, t);
        let e = d.times(t);
        let n = d.neg().times(t);
        lemma_same(n.neg(), e);
        lemma_plus_negative(x, n);
        lemma_whole_order((a - b) as nat, a as nat);
        let v = x.minus(e);
        assert(x.plus(n) == v);
        crate::order::lemma_difference_reverse(e, d, x);
        lemma_difference(x, e);
        lemma_whole_difference((a - b) as nat, a as nat);
        assert(x.minus(d) == y);
        if e.magnitude() == 0 {
            lemma_plus_zero(x, n);
        }
        lemma_nearest_whole(v, a as nat);
        lemma_nearest_at_least(v, b as nat);
        if t == Single::of_whole(0) {
            assert(v == x);
        }
        if t == Single::of_whole(1) {
            assert(v == y);
            lemma_nearest_whole(y, b as nat);
        }
    }
}

/// The nearest whole number to a plain number that is at least `n` is at least `n`.
proof fn lemma_nearest_at_least(x: Single, n: nat)
    requires
        x.is_plain(),
        n < 0x100_0000,
        Single::of_whole(n).magnitude() <= x.magnitude(),
    ensures
        x.to_whole(Whole::Nearest) >= n,
{
    reveal(Single::whole_number);
    let p = pow2(149);
    lemma_pow2_pos(149);
    lemma_whole_exact(n);
    lemma_worth(Single::of_whole(n), x);
    crate::rounding::lemma_whole_of_multiple(Whole::Nearest, n, p);
    vstd::arithmetic::div_mod::lemma_div_is_ordered(
        (2 * (n * p) + p) as int,
        (2 * x.worth() + p) as int,
        (2 * p) as int,
    );
}

/// A blend of two colours lies between them in every component; at 0 it is the first, and at 1 the
/// second.
pub proof fn lemma_blend(c: Color, other: Color, t: Single)
    requires
        t.is_share(),
    ensures
        ({
            let m = c.between(other, t);
            &&& (c.r <= m.r <= other.r || other.r <= m.r <= c.r)
            &&& (c.g <= m.g <= other.g || other.g <= m.g <= c.g)
            &&& (c.b <= m.b <= other.b || other.b <= m.b <= c.b)
        }),
        t == Single::of_whole(0) ==> c.between(other, t) == c,
        t == Single::of_whole(1) ==> c.between(other, t) == other,
{
    lemma_share_clamped(t);
    lemma_component(c.r, other.r, t);
    lemma_component(c.g, other.g, t);
    lemma_component(c.b, other.b, t);
}

} // verus!
