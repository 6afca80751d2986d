//! What the displayed levels say: shares of slowly decaying peaks.
use vstd::arithmetic::power2::{lemma2_to64, lemma_pow2_adds, lemma_pow2_pos, pow2};
use vstd::prelude::*;

use crate::accuracy::{lemma_mean_error, lemma_over_error, lemma_rounding_error, size, total};
use crate::analysis::{
    displayed, level, onset_flux, place_level, AnalyzerConfig, AnalyzerModel, BandModel, HALF,
};
use crate::bounds::{is_capped, lemma_power_order};
use crate::double::Double;
use crate::flash_laws::lemma_cancelled;
use crate::genre_laws::lemma_zero_product;
use crate::order::{
    lemma_fraction, lemma_of, lemma_plus_zero, lemma_product, lemma_quotient, lemma_root_of_share,
    lemma_same, lemma_share, lemma_sum, lemma_times_share, lemma_whole_exact, lemma_worth,
    lemma_zero_one,
};
use crate::rounding::{
    lemma_on_grid, lemma_parts, lemma_root_at_least, lemma_root_at_most, lemma_rounded_exact,
    lemma_rounded_monotone, lemma_spacing_part, lemma_units_increase, lemma_units_step,
    lemma_units_zero, root, rounded, spacing, units,
};
use crate::single::{Single, INF};

verus! {

/// The square of a root is what it was taken of, at most 2^-21 off, from 0 to 1.
pub proof fn lemma_root_error(x: Single)
    requires
        x.is_share(),
    ensures
        x.sqrt().is_share(),
        0x20_0000 * size(
            x.sqrt().worth() * x.sqrt().worth() - x.worth() * pow2(149),
        ) <= pow2(149) * pow2(149),
{
    let (u, p) = (pow2(149), 0x80_0000int);
    let one = Single::of_whole(1);
    let s = x.sqrt();
    let n = x.worth() * u;
    lemma2_to64();
    lemma_pow2_pos(149);
    lemma_power_order(46, 149);
    lemma_pow2_adds(23, 23);
    lemma_zero_one();
    lemma_whole_exact(1);
    lemma_worth(x, one);
    lemma_worth(s, one);
    lemma_root_of_share(x);
    lemma_units_zero(23);
    if x.magnitude() == 0 {
        reveal(Single::square_root);
        assert(x.worth() == 0 && s.worth() == 0);
        assert(0 * u == 0 && u * u >= 0) by (nonlinear_arith);
    } else {
        reveal(Single::square_root);
        lemma_worth(x, x);
        let k = root(n);
        lemma_root_at_least(n, 0);
        lemma_of(false, k);
        assert(s.magnitude() == k);
        let v = units(23, k);
        lemma_units_step(23, k);
        lemma_spacing_part(23, k);
        let g = pow2(spacing(23, k));
        let (lo, hi, h) = if k > 0 {
            let j = (k - 1) as nat;
            lemma_units_step(23, j);
            lemma_spacing_part(23, j);
            (units(23, j), v + g, pow2(spacing(23, j)))
        } else {
            (0nat, v + g, 0nat)
        };
        assert(lo * lo <= n) by {
            if k > 0 && n < lo * lo {
                lemma_root_at_most(n, (k - 1) as nat);
            } else if k == 0 {
                assert(0 * 0 == 0);
            }
        }
        lemma_whole_exact(2);
        lemma_worth(one, Single::of_whole(2));
        assert(k + 1 < 0x7f80_0000);
        assert(n <= hi * hi) by {
            if n > hi * hi {
                lemma_root_at_least(n, k + 1);
            }
        }
        lemma_square_gap(v as int, lo as int, hi as int, g as int, h as int, n as int, u as int);
    }
}

proof fn lemma_square_gap(v: int, lo: int, hi: int, g: int, h: int, n: int, u: int)
    requires
        0 <= v <= u,
        0x4000_0000_0000 <= u,
        hi == v + g,
        lo == v - h,
        0 <= lo,
        0 <= h,
        0 <= g,
        0x80_0000 * g <= v + 0x80_0000,
        0x80_0000 * h <= v + 0x80_0000,
        lo * lo <= n <= hi * hi,
    ensures
        0x20_0000 * size(v * v - n) <= u * u,
{
    let b = 0x80_0000 * g;
    assert(b <= 2 * u && 0x80_0000 * h <= 2 * u);
    assert(0x80_0000 * (hi * hi - v * v) <= 0x80_0000 * (g * (2 * v + g))) by (nonlinear_arith)
        requires hi == v + g;
    assert(0x80_0000 * (g * (2 * v + g)) <= (v + 0x80_0000) * (2 * v + g)) by (nonlinear_arith)
        requires 0x80_0000 * g <= v + 0x80_0000, v >= 0, g >= 0;
    assert(2 * v + g <= 3 * u) by {
        assert(g <= u);
    }
    assert((v + 0x80_0000) * (2 * v + g) <= 4 * (u * u)) by (nonlinear_arith)
        requires 0 <= v <= u, 0 <= 2 * v + g <= 3 * u, 0x4000_0000_0000 <= u;
    assert(0x80_0000 * (v * v - lo * lo) <= 0x80_0000 * (h * (2 * v))) by (nonlinear_arith)
        requires lo == v - h, h >= 0;
    assert(0x80_0000 * (h * (2 * v)) <= (v + 0x80_0000) * (2 * v)) by (nonlinear_arith)
        requires 0x80_0000 * h <= v + 0x80_0000, v >= 0;
    assert((v + 0x80_0000) * (2 * v) <= 4 * (u * u)) by (nonlinear_arith)
        requires 0 <= v <= u, 0x4000_0000_0000 <= u;
}

/// A slow decay: most of a number is left, and how much is at most 2^-18 of it off.
pub proof fn lemma_slow_decay(a: Single, p: nat, q: nat)
    requires
        a.is_plain(),
        0x100_0000 <= a.worth(),
        0 < p <= q < 0x100_0000,
    ensures
        a.times(Single::fraction(p, q)).is_plain(),
        a.times(Single::fraction(p, q)).worth() <= a.worth(),
        0x4_0000 * size(q * a.times(Single::fraction(p, q)).worth() - p * a.worth()) <= q
            * a.worth(),
{
    let c = Single::fraction(p, q);
    let one = Single::of_whole(1);
    let (u, e) = (pow2(149) as int, pow2(129) as int);
    lemma2_to64();
    lemma_pow2_pos(149);
    lemma_pow2_pos(129);
    lemma_pow2_adds(20, 129);
    lemma_zero_one();
    lemma_whole_exact(1);
    lemma_whole_exact(p);
    lemma_whole_exact(q);
    assert(p * pow2(149) <= 4 * (q * pow2(149)) && q * pow2(149) > 0) by (nonlinear_arith)
        requires 0 < p <= q, pow2(149) > 0;
    lemma_worth(Single::of_whole(q), Single::of_whole(q));
    lemma_over_error(Single::of_whole(p), Single::of_whole(q));
    lemma_fraction(p, p, q, 1);
    lemma_worth(c, one);
    let (aw, cw, pi, qi) = (a.worth() as int, c.worth() as int, p as int, q as int);
    lemma_times_share(c, a);
    lemma_product(a, c);
    let r = a.times(c);
    let rw = r.worth() as int;
    lemma_worth(r, a);
    lemma_rounding_error(23, INF as nat, a.worth() * c.worth(), pow2(149));
    let v = qi * cw - pi * u;
    assert(cw * (qi * u) - (pi * u) * u == v * u) by (nonlinear_arith)
        requires v == qi * cw - pi * u;
    assert(-(qi * e) <= v <= qi * e) by (nonlinear_arith)
        requires -(e * (qi * u)) <= v * u <= e * (qi * u), u > 0;
    let k = rw * u - aw * cw;
    let ea = e * aw;
    assert(2 * 0x80_0000 * size(k) <= (rw + 0x80_0000) * u);
    assert(-(2 * (aw * u)) <= 0x100_0000 * k <= 2 * (aw * u)) by (nonlinear_arith)
        requires
            -((rw + 0x80_0000) * u) <= 2 * 0x80_0000 * k <= (rw + 0x80_0000) * u,
            0 <= rw <= aw,
            0x100_0000 <= aw,
            u > 0,
    ;
    assert(aw * u == 0x10_0000 * ea) by (nonlinear_arith) requires u == 0x10_0000 * e, ea == e * aw;
    assert(-ea <= k <= ea);
    let z = qi * rw - pi * aw;
    assert(z * u == qi * k + aw * v) by (nonlinear_arith)
        requires z == qi * rw - pi * aw, k == rw * u - aw * cw, v == qi * cw - pi * u;
    let w = qi * ea;
    assert(-w <= qi * k <= w) by (nonlinear_arith) requires -ea <= k <= ea, w == qi * ea, qi > 0;
    assert(-w <= aw * v <= w) by (nonlinear_arith)
        requires -(qi * e) <= v <= qi * e, w == qi * ea, ea == e * aw, aw > 0;
    assert(-(2 * w) <= z * u <= 2 * w);
    assert(-(2 * (qi * aw)) <= 0x10_0000 * z <= 2 * (qi * aw)) by (nonlinear_arith)
        requires
            -(2 * w) <= z * u <= 2 * w,
            w == qi * ea,
            ea == e * aw,
            u == 0x10_0000 * e,
            e > 0,
    ;
    assert(0 <= qi * aw) by (nonlinear_arith) requires qi > 0, aw > 0;
}

/// The peaks of a band never lie below what is measured at present, and without anything as loud
/// they lose five ten-thousandths per hop.
pub proof fn lemma_band_peaks(
    b: BandModel,
    config: AnalyzerConfig,
    i: int,
    power: Single,
    flux: Single,
    total: Single,
    now: Double,
)
    requires
        power.is_plain(),
        flux.is_plain(),
        b.threshold(config, i).is_plain(),
        b.energy_max.is_plain(),
        b.flux_max.is_plain(),
        0x100_0000 <= b.energy_max.worth(),
        0x100_0000 <= b.flux_max.worth(),
    ensures
        ({
            let a = b.after(config, i, power, flux, total, now);
            let (e, f) = (a.energy_max, a.flux_max);
            let least = Single::fraction(1, 1000000);
            &&& power.le(e) && least.le(e) && flux.le(f) && b.threshold(config, i).le(f)
                && least.le(f)
            &&& e == power || e == least || 0x4_0000 * size(
                2000 * e.worth() - 1999 * b.energy_max.worth(),
            ) <= 2000 * b.energy_max.worth()
            &&& f == flux || f == b.threshold(config, i) || f == least || 0x4_0000 * size(
                2000 * f.worth() - 1999 * b.flux_max.worth(),
            ) <= 2000 * b.flux_max.worth()
        }),
{
    lemma_cancelled(1999, 2000, 5);
    lemma_fraction(1, 1, 1000000, 1);
    lemma_slow_decay(b.energy_max, 1999, 2000);
    lemma_slow_decay(b.flux_max, 1999, 2000);
}

/// The energy of a band is displayed as the root of its share of the peak.
pub proof fn lemma_band_energy(
    b: BandModel,
    config: AnalyzerConfig,
    i: int,
    power: Single,
    flux: Single,
    total: Single,
    now: Double,
)
    requires
        power.is_plain(),
        b.after(config, i, power, flux, total, now).energy_max.is_plain(),
        b.after(config, i, power, flux, total, now).energy_max.magnitude() > 0,
        power.le(b.after(config, i, power, flux, total, now).energy_max),
    ensures
        ({
            let peak = b.after(config, i, power, flux, total, now).energy_max;
            let share = power.over(peak);
            let e = b.reading(config, i, power, flux, total, now).energy;
            &&& share.is_share() && e.is_share()
            &&& size(share.worth() * peak.worth() - power.worth() * pow2(149)) <= pow2(129)
                * peak.worth()
            &&& 0x20_0000 * size(e.worth() * e.worth() - share.worth() * pow2(149)) <= pow2(149)
                * pow2(149)
            &&& power == peak ==> e.worth() * e.worth() == pow2(149) * pow2(149)
        }),
{
    let peak = b.after(config, i, power, flux, total, now).energy_max;
    let share = power.over(peak);
    let one = Single::of_whole(1);
    lemma_zero_one();
    lemma_whole_exact(1);
    lemma_share(power, peak);
    lemma_worth(power, peak);
    lemma_worth(peak, peak);
    lemma_over_error(power, peak);
    assert(share.clamp(Single::of_whole(0), one) == share);
    lemma_root_error(share);
    if power == peak {
        reveal(Single::square_root);
        let u = pow2(149);
        lemma_pow2_pos(149);
        lemma_root_at_most((1 * u) * u, one.magnitude());
        lemma_root_at_least((1 * u) * u, one.magnitude());
        lemma_of(false, one.magnitude());
    }
}

/// Flux, mean and threshold are displayed as shares of the peak of the flux.
pub proof fn lemma_band_shares(
    b: BandModel,
    config: AnalyzerConfig,
    i: int,
    power: Single,
    flux: Single,
    total: Single,
    now: Double,
)
    requires
        flux.is_plain(),
        b.threshold(config, i).is_plain(),
        b.after(config, i, power, flux, total, now).flux_max.is_plain(),
        b.after(config, i, power, flux, total, now).flux_max.magnitude() > 0,
        flux.le(b.after(config, i, power, flux, total, now).flux_max),
        b.threshold(config, i).le(b.after(config, i, power, flux, total, now).flux_max),
    ensures
        ({
            let r = b.reading(config, i, power, flux, total, now);
            let (peak, bar) = (r.flux_max, b.threshold(config, i));
            &&& r.flux.is_share() && r.threshold.is_share()
            &&& size(r.flux.worth() * peak.worth() - flux.worth() * pow2(149)) <= pow2(129)
                * peak.worth()
            &&& size(r.threshold.worth() * peak.worth() - bar.worth() * pow2(149)) <= pow2(129)
                * peak.worth()
        }),
{
    let peak = b.after(config, i, power, flux, total, now).flux_max;
    let bar = b.threshold(config, i);
    let one = Single::of_whole(1);
    lemma_zero_one();
    lemma_share(flux, peak);
    lemma_share(bar, peak);
    lemma_worth(flux, peak);
    lemma_worth(bar, peak);
    lemma_worth(peak, peak);
    lemma_over_error(flux, peak);
    lemma_over_error(bar, peak);
    assert(flux.over(peak).clamp(Single::of_whole(0), one) == flux.over(peak));
    assert(bar.over(peak).clamp(Single::of_whole(0), one) == bar.over(peak));
}

/// A place of the displayed spectrum shows the mean magnitude of its bins, close to the exact one.
pub proof fn lemma_place(mags: Seq<Single>, bins: (nat, nat), t: nat)
    requires
        bins.0 < bins.1 <= HALF <= mags.len(),
        149 <= t <= 252,
        forall|k: int| bins.0 <= k < bins.1 ==> is_capped(#[trigger] mags[k], t),
    ensures
        ({
            let n = (bins.1 - bins.0) as nat;
            let part = Seq::new(n, |k: int| mags[bins.0 + k]);
            let m = place_level(mags, bins);
            &&& is_capped(m, t)
            &&& pow2(24) * size(m.worth() * n - total(part)) <= n * (n + 3) * pow2(t)
        }),
{
    let n = (bins.1 - bins.0) as nat;
    let part = Seq::new(n, |k: int| mags[bins.0 + k]);
    assert(mags.subrange(bins.0 as int, bins.1 as int) =~= part);
    assert forall|k: int| 0 <= k < part.len() implies is_capped(#[trigger] part[k], t) by {
        assert(part[k] == mags[bins.0 + k]);
    }
    lemma_mean_error(part, t);
}

/// The loudest place of a spectrum shows the full level: a place no quieter than what is left of
/// the peak is shown with 1 and becomes the peak, and a quieter one leaves it a ten-thousandth
/// lower.
pub proof fn lemma_loud_place(mags: Seq<Single>, ranges: Seq<(nat, nat)>, peak: Single)
    requires
        ranges.len() > 0,
        displayed(mags, ranges.drop_last(), peak).1.is_plain(),
        0x100_0000 <= displayed(mags, ranges.drop_last(), peak).1.worth(),
        place_level(mags, ranges.last()).is_plain(),
    ensures
        ({
            let before = displayed(mags, ranges.drop_last(), peak).1;
            let (shown, after) = displayed(mags, ranges, peak);
            let v = place_level(mags, ranges.last());
            &&& shown.len() == displayed(mags, ranges.drop_last(), peak).0.len() + 1
            &&& before.le(v) ==> shown.last() == Single::of_whole(1) && after == v
            &&& after == v || 0x4_0000 * size(10000 * after.worth() - 9999 * before.worth())
                <= 10000 * before.worth()
        }),
{
    let before = displayed(mags, ranges.drop_last(), peak).1;
    let v = place_level(mags, ranges.last());
    let one = Single::of_whole(1);
    lemma_zero_one();
    lemma_slow_decay(before, 9999, 10000);
    lemma_worth(before.times(Single::fraction(9999, 10000)), before);
    lemma_units_zero(23);
    if before.le(v) {
        let q = before.times(Single::fraction(9999, 10000)).max(v);
        if q != v {
            lemma_same(q, v);
        }
        assert(v.magnitude() > 0);
        lemma_share(v, v);
    }
}

/// The onset envelope follows the two lower bands: a lone flux of the lowest counts in full, and
/// one of the next by half.
pub proof fn lemma_onset_bands(m: AnalyzerModel, mags: Seq<Single>)
    requires
        onset_flux(mags, m.prev, m.bands[0].bins).is_plain(),
        onset_flux(mags, m.prev, m.bands[1].bins).is_plain(),
    ensures
        ({
            let (a, b) = (
                onset_flux(mags, m.prev, m.bands[0].bins),
                onset_flux(mags, m.prev, m.bands[1].bins),
            );
            &&& b.magnitude() == 0 ==> m.onset(mags) == a
            &&& a.magnitude() == 0 ==> 2 * m.onset(mags).worth() <= b.worth() + 1 && b.worth()
                <= 2 * m.onset(mags).worth() + 1
        }),
{
    let (a, b) = (
        onset_flux(mags, m.prev, m.bands[0].bins),
        onset_flux(mags, m.prev, m.bands[1].bins),
    );
    let (zero, half) = (Single::of_whole(0), Single::fraction(1, 2));
    let u = pow2(149);
    lemma2_to64();
    lemma_pow2_pos(149);
    lemma_pow2_adds(148, 1);
    lemma_zero_one();
    lemma_units_zero(23);
    lemma_fraction(1, 1, 2, 1);
    lemma_whole_exact(1);
    lemma_whole_exact(2);
    lemma_worth(Single::of_whole(2), Single::of_whole(2));
    lemma_quotient(Single::of_whole(1), Single::of_whole(2));
    let k = lemma_on_grid(23, 1, 148);
    assert((1 * u) * u == 1 * pow2(148) * (2 * u)) by (nonlinear_arith) requires u == pow2(148) * 2;
    lemma_rounded_exact(23, INF as nat, (1 * u) * u, 2 * u, k);
    assert(half.worth() == pow2(148));
    let z = zero.plus(a);
    lemma_plus_zero(a, zero);
    lemma_sum(a, zero);
    lemma_sum(zero, a);
    lemma_same(z, a);
    let h = b.times(half);
    lemma_product(b, half);
    lemma_times_share(half, b);
    if b.magnitude() == 0 {
        lemma_zero_product(half, b);
        lemma_plus_zero(a, h);
    }
    if a.magnitude() == 0 {
        lemma_sum(a, h);
        lemma_plus_zero(h, a);
        lemma_sum(h, a);
        lemma_same(a.plus(h), h.plus(a));
        lemma_half(b);
    }
}

/// A half is exact, or half a unit off.
proof fn lemma_half(b: Single)
    requires
        b.is_plain(),
        Single::fraction(1, 2).is_share(),
        Single::fraction(1, 2).worth() == pow2(148),
    ensures
        2 * b.times(Single::fraction(1, 2)).worth() <= b.worth() + 1,
        b.worth() <= 2 * b.times(Single::fraction(1, 2)).worth() + 1,
{
    let half = Single::fraction(1, 2);
    let (u, g) = (pow2(149), pow2(148));
    let (bw, m) = (b.worth(), b.magnitude());
    lemma2_to64();
    lemma_pow2_pos(148);
    lemma_pow2_adds(148, 1);
    lemma_product(b, half);
    let n = bw * g;
    let t = spacing(23, m);
    lemma_parts(23, m);
    if t == 0 {
        // Up to twice the least normal number the halves lie on the grid of the units.
        let c = bw / 2;
        assert(pow2(0) == 1);
        assert(units(23, m) == m) by {
            assert((m - 0 * pow2(23)) * 1 == m) by (nonlinear_arith);
        }
        assert(c < 0x80_0000);
        let k = lemma_on_grid(23, c, 0);
        let j = lemma_on_grid(23, c + 1, 0);
        assert(c * 1 == c && (c + 1) * 1 == c + 1);
        lemma_rounded_exact(23, INF as nat, c * 1, 1, k);
        lemma_rounded_exact(23, INF as nat, (c + 1) * 1, 1, j);
        assert((c * 1) * u <= n * 1) by (nonlinear_arith)
            requires n == bw * g, u == 2 * g, c == bw / 2, g > 0;
        assert(n * 1 <= ((c + 1) * 1) * u) by (nonlinear_arith)
            requires n == bw * g, u == 2 * g, c == bw / 2, g > 0;
        lemma_rounded_monotone(23, INF as nat, c * 1, 1, n, u);
        lemma_rounded_monotone(23, INF as nat, n, u, (c + 1) * 1, 1);
        let r = rounded(23, INF as nat, n, u);
        if k < r {
            lemma_units_increase(23, k, r);
        }
        if r < j {
            lemma_units_increase(23, r, j);
        }
        assert(c <= units(23, r) <= c + 1);
        if bw == 2 * c {
            assert(n == units(23, k) * u) by (nonlinear_arith)
                requires n == bw * g, u == 2 * g, bw == 2 * c, units(23, k) == c;
            lemma_rounded_exact(23, INF as nat, n, u, k);
        }
    } else {
        let c = (m - t * pow2(23)) as nat;
        let s = (t - 1) as nat;
        lemma_pow2_adds(s, 1);
        let k = lemma_on_grid(23, c, s);
        assert(2 * (c * pow2(s)) == bw) by (nonlinear_arith)
            requires bw == c * pow2(t), pow2(t) == pow2(s) * 2;
        assert(n == c * pow2(s) * u) by (nonlinear_arith)
            requires n == bw * g, u == 2 * g, 2 * (c * pow2(s)) == bw;
        assert(s + 2 <= 255) by {
            if t >= 255 {
                assert(255 * 0x80_0000 <= t * 0x80_0000) by (nonlinear_arith) requires t >= 255;
            }
        }
        assert((s + 2) * pow2(23) <= 255 * 0x80_0000) by (nonlinear_arith)
            requires s + 2 <= 255, pow2(23) == 0x80_0000;
        lemma_rounded_exact(23, INF as nat, n, u, k);
    }
}

} // verus!
