//! Rainbow patterns that test a stream without audio.
use vstd::prelude::*;

use crate::core_types::{Color, LightFrame};
use crate::rounding::Whole;
use crate::single::Single;

verus! {

/// Milliseconds between two frames of a stream.
pub const LIGHT_TICK_MS: u64 = 20;

/// Where a hue lies within its sixth of the circle, up in one and down in the next: 0 to 1.
pub open spec fn ramp(h: Single) -> Single {
    let one = Single::of_whole(1);
    one.minus(h.over(Single::of_whole(60)).rem(Single::of_whole(2)).minus(one).abs())
}

/// The sixth of the circle that a hue in degrees lies in.
pub open spec fn sixth(h: Single) -> nat {
    let w = h.to_whole(Whole::Floor);
    ((if w > u32::MAX { u32::MAX as nat } else { w as nat }) / 60) % 6
}

/// The colour with a hue in degrees, a saturation and a value.
pub open spec fn hue_color(h: Single, s: Single, v: Single) -> Color {
    let zero = Single::of_whole(0);
    let c = v.times(s);
    let x = c.times(ramp(h));
    let m = v.minus(c);
    let (r, g, b) = if sixth(h) == 0 {
        (c, x, zero)
    } else if sixth(h) == 1 {
        (x, c, zero)
    } else if sixth(h) == 2 {
        (zero, c, x)
    } else if sixth(h) == 3 {
        (zero, x, c)
    } else if sixth(h) == 4 {
        (x, zero, c)
    } else {
        (c, zero, x)
    };
    let full = Single::of_whole(255);
    Color {
        r: r.plus(m).times(full).to_byte(),
        g: g.plus(m).times(full).to_byte(),
        b: b.plus(m).times(full).to_byte(),
    }
}

fn rise_and_fall(h: Single) -> (x: Single)
    ensures
        x == ramp(h),
{
    let one = Single::from_whole(1);
    one.minus(h.over(Single::from_whole(60)).rem(Single::from_whole(2)).minus(one).abs())
}

fn which_sixth(h: Single) -> (n: u64)
    ensures
        n == sixth(h),
        n < 6,
{
    let w: u64 = h.to_whole(Whole::Floor);
    let w: u64 = if w > u32::MAX as u64 { u32::MAX as u64 } else { w };
    w / 60 % 6
}

/// The colour with a hue in degrees, a saturation and a value.
pub fn hsv(h: Single, s: Single, v: Single) -> (color: Color)
    ensures
        color == hue_color(h, s, v),
{
    let zero = Single::from_whole(0);
    let c = v.times(s);
    let x = c.times(rise_and_fall(h));
    let m = v.minus(c);
    let n: u64 = which_sixth(h);
    let (r, g, b) = if n == 0 {
        (c, x, zero)
    } else if n == 1 {
        (x, c, zero)
    } else if n == 2 {
        (zero, c, x)
    } else if n == 3 {
        (zero, x, c)
    } else if n == 4 {
        (x, zero, c)
    } else {
        (c, zero, x)
    };
    let full = Single::from_whole(255);
    Color::new(
        r.plus(m).times(full).to_byte(),
        g.plus(m).times(full).to_byte(),
        b.plus(m).times(full).to_byte(),
    )
}

/// The colour with a hue in degrees, at full saturation and value.
pub open spec fn wheel_color(h: Single) -> Color {
    let x = ramp(h).times(Single::of_whole(255)).to_byte();
    if sixth(h) == 0 {
        Color { r: 255, g: x, b: 0 }
    } else if sixth(h) == 1 {
        Color { r: x, g: 255, b: 0 }
    } else if sixth(h) == 2 {
        Color { r: 0, g: 255, b: x }
    } else if sixth(h) == 3 {
        Color { r: 0, g: x, b: 255 }
    } else if sixth(h) == 4 {
        Color { r: x, g: 0, b: 255 }
    } else {
        Color { r: 255, g: 0, b: x }
    }
}

/// The colour with a hue in degrees, at full saturation and value.
pub fn wheel(h: Single) -> (color: Color)
    ensures
        color == wheel_color(h),
{
    let x: u8 = rise_and_fall(h).times(Single::from_whole(255)).to_byte();
    let n: u64 = which_sixth(h);
    if n == 0 {
        Color::new(255, x, 0)
    } else if n == 1 {
        Color::new(x, 255, 0)
    } else if n == 2 {
        Color::new(0, 255, x)
    } else if n == 3 {
        Color::new(0, x, 255)
    } else if n == 4 {
        Color::new(x, 0, 255)
    } else {
        Color::new(255, 0, x)
    }
}

/// The frames of a test pattern over some seconds.
pub fn pattern_steps(seconds: u64) -> (n: u64)
    requires
        seconds * 1000 <= u64::MAX,
    ensures
        n == seconds * 50,
{
    seconds * 1000 / LIGHT_TICK_MS
}

/// The hue of light `k` in frame `i`: a quarter turn per second, a sixth from light to light.
pub open spec fn pattern_hue(i: nat, k: nat) -> Single {
    let t = Single::of_whole(i).times(Single::of_whole(LIGHT_TICK_MS as nat)).over(
        Single::of_whole(1000),
    );
    t.times(Single::of_whole(90)).plus(Single::of_whole(k).times(Single::of_whole(60))).rem(
        Single::of_whole(360),
    )
}

/// Frame `i` of a test pattern: the lights show a rainbow that turns.
pub fn pattern_frame(channels: &Vec<u8>, i: u64) -> (f: LightFrame)
    ensures
        f@ == Seq::new(
            channels@.len(),
            |k: int|
                (
                    channels@[k],
                    hue_color(
                        pattern_hue(i as nat, k as nat),
                        Single::of_whole(1),
                        Single::of_whole(1),
                    ),
                ),
        ),
{
    let one = Single::from_whole(1);
    let t = Single::from_whole(i).times(Single::from_whole(LIGHT_TICK_MS)).over(
        Single::from_whole(1000),
    );
    let base = t.times(Single::from_whole(90));
    let mut out: Vec<(u8, Color)> = Vec::new();
    let mut k: usize = 0;
    while k < channels.len()
        invariant
            k <= channels@.len(),
            one == Single::of_whole(1),
            base == Single::of_whole(i as nat).times(Single::of_whole(LIGHT_TICK_MS as nat)).over(
                Single::of_whole(1000),
            ).times(Single::of_whole(90)),
            out@.len() == k,
            forall|j: int|
                0 <= j < k ==> #[trigger] out@[j] == (
                    channels@[j],
                    hue_color(pattern_hue(i as nat, j as nat), one, one),
                ),
        decreases channels@.len() - k,
    {
        let hue = base.plus(Single::from_whole(k as u64).times(Single::from_whole(60))).rem(
            Single::from_whole(360),
        );
        out.push((channels[k], hsv(hue, one, one)));
        k = k + 1;
    }
    let f = LightFrame { channels: out };
    assert(f@ =~= Seq::new(
        channels@.len(),
        |k: int|
            (
                channels@[k],
                hue_color(
                    pattern_hue(i as nat, k as nat),
                    Single::of_whole(1),
                    Single::of_whole(1),
                ),
            ),
    ));
    f
}

/// Frame `i` of a connection test: all lights in one hue that turns by two degrees per frame.
pub fn sweep_frame(channels: &Vec<u8>, i: u32) -> (f: LightFrame)
    ensures
        f@ == channels@.map_values(
            |id: u8|
                (
                    id,
                    wheel_color(
                        Single::of_whole(i as nat).times(Single::of_whole(2)).rem(
                            Single::of_whole(360),
                        ),
                    ),
                ),
        ),
{
    let hue = Single::from_whole(i as u64).times(Single::from_whole(2)).rem(
        Single::from_whole(360),
    );
    let color = wheel(hue);
    let mut out: Vec<(u8, Color)> = Vec::new();
    let mut k: usize = 0;
    while k < channels.len()
        invariant
            k <= channels@.len(),
            out@.len() == k,
            forall|j: int| 0 <= j < k ==> #[trigger] out@[j] == (channels@[j], color),
        decreases channels@.len() - k,
    {
        out.push((channels[k], color));
        k = k + 1;
    }
    let f = LightFrame { channels: out };
    assert(f@ =~= channels@.map_values(|id: u8| (id, wheel_color(hue))));
    f
}

} // verus!
