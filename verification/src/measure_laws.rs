//! What the measurements of a hop say of the sound.
use vstd::arithmetic::power2::{lemma2_to64, lemma_pow2_adds, lemma_pow2_pos, pow2};
use vstd::prelude::*;

use crate::accuracy::{lemma_over_error, size};
use crate::analysis::{
    band_power, bin_of, bin_width, centroid, level, mass, moment, onset_flux, rise, AnalyzerModel,
    BandModel, HALF,
};
use crate::flash_laws::{lemma_cancelled, lemma_quarter_worth, lemma_signed_mix};
use crate::genre_laws::lemma_zero_product;
use crate::order::{
    lemma_fraction, lemma_of, lemma_plus_zero, lemma_product, lemma_quotient, lemma_quotient_order,
    lemma_rounds_beyond, lemma_rounds_within, lemma_same, lemma_share, lemma_sum, lemma_whole_exact,
    lemma_whole_order, lemma_whole_product, lemma_whole_quotient, lemma_worth, lemma_zero_one,
};
use crate::rounding::{
    lemma_on_grid, lemma_root_at_least, lemma_root_at_most, lemma_rounded_exact,
    lemma_rounded_monotone, lemma_units_zero, root, rounded, units, whole, Whole,
};
use crate::single::{Single, INF};
use crate::sums::{squares, sum_of};

verus! {

/// The width of a bin is the sample rate by 2048, exactly.
proof fn lemma_bin_width(rate: nat)
    requires
        0 < rate < 0x100_0000,
    ensures
        bin_width(Single::of_whole(rate)).is_plain(),
        bin_width(Single::of_whole(rate)).worth() == rate * pow2(138),
        bin_width(Single::of_whole(rate)).magnitude() > 0,
{
    let (a, b) = (Single::of_whole(rate), Single::of_whole(2048));
    let (u, g) = (pow2(149), pow2(138));
    lemma2_to64();
    lemma_pow2_pos(138);
    lemma_pow2_adds(138, 11);
    lemma_whole_exact(rate);
    lemma_whole_exact(2048);
    assert(2048 * u > 0) by (nonlinear_arith) requires u > 0;
    lemma_worth(b, b);
    lemma_quotient(a, b);
    let k = lemma_on_grid(23, rate, 138);
    assert((rate * u) * u == rate * g * (2048 * u)) by (nonlinear_arith) requires u == g * 2048;
    lemma_rounded_exact(23, INF as nat, (rate * u) * u, 2048 * u, k);
    assert(rate * g > 0) by (nonlinear_arith) requires rate > 0, g > 0;
    lemma_worth(a.over(b), a.over(b));
}

/// A frequency belongs to the bin that it is nearest to: bin `k` stands for `k` times the sample
/// rate by 2048, and takes what lies at most a quarter of a bin beside that.
pub proof fn lemma_bin_at(hz: Single, rate: nat, k: nat)
    requires
        0 < rate < 0x100_0000,
        hz.is_plain(),
        1 <= k <= 1024,
        (4 * k - 1) * rate * pow2(149) <= 8192 * hz.worth() <= (4 * k + 1) * rate * pow2(149),
    ensures
        bin_of(hz, bin_width(Single::of_whole(rate))) == k,
{
    let w = bin_width(Single::of_whole(rate));
    let (u, g, h) = (pow2(149), pow2(138), pow2(147));
    let (hw, d) = (hz.worth(), rate * g);
    lemma_bin_width(rate);
    lemma2_to64();
    lemma_pow2_pos(138);
    lemma_pow2_adds(138, 11);
    lemma_pow2_adds(147, 2);
    lemma_quotient(hz, w);
    let (lo, hi) = ((4 * k - 1) as nat, 4 * k + 1);
    assert(hw * u <= hi * h * d) by (nonlinear_arith)
        requires 8192 * hw <= hi * rate * u, d == rate * g, u == 2048 * g, u == 4 * h, g > 0;
    assert(lo * h * d <= hw * u) by (nonlinear_arith)
        requires lo * rate * u <= 8192 * hw, d == rate * g, u == 2048 * g, u == 4 * h, g > 0;
    lemma_rounds_within(hw * u, d, hi, 147);
    lemma_rounds_beyond(hw * u, d, lo, 147);
    let q = hz.over(w).worth();
    assert(lo * h <= q <= hi * h);
    assert(whole(Whole::Nearest, q, u) == k) by {
        assert(k * (2 * u) <= 2 * q + u < (k + 1) * (2 * u)) by (nonlinear_arith)
            requires lo * h <= q <= hi * h, u == 4 * h, lo == 4 * k - 1, hi == 4 * k + 1, h > 0;
        assert((2 * q + u) / (2 * u) == k) by (nonlinear_arith)
            requires k * (2 * u) <= 2 * q + u < (k + 1) * (2 * u), u > 0;
    }
    reveal(Single::whole_number);
}

/// A sum of one number and zeros is that number.
proof fn lemma_lone_sum(s: Seq<Single>, k: int)
    requires
        forall|i: int| 0 <= i < s.len() && i != k ==> (#[trigger] s[i]).magnitude() == 0,
        0 <= k < s.len() ==> s[k].is_plain(),
    ensures
        0 <= k < s.len() ==> sum_of(s) == s[k],
        !(0 <= k < s.len()) ==> sum_of(s) == Single::of_whole(0),
    decreases s.len(),
{
    lemma_zero_one();
    if s.len() > 0 {
        let r = s.drop_last();
        let n = s.len() - 1;
        assert forall|i: int| 0 <= i < r.len() && i != k implies (#[trigger] r[i]).magnitude()
            == 0 by {
            assert(r[i] == s[i]);
        }
        lemma_lone_sum(r, k);
        if k == n {
            lemma_zero_first(s[n]);
        } else {
            assert(s[n].magnitude() == 0);
            lemma_plus_zero(sum_of(r), s[n]);
        }
    }
}

proof fn lemma_zero_first(x: Single)
    requires
        x.is_plain(),
    ensures
        Single::of_whole(0).plus(x) == x,
{
    let z = Single::of_whole(0);
    lemma_zero_one();
    lemma_plus_zero(x, z);
    lemma_sum(x, z);
    lemma_sum(z, x);
    assert(x.worth() + z.worth() == z.worth() + x.worth());
    lemma_same(z.plus(x), x.plus(z));
}

/// The energy of a band is that of the bins in it: a lone magnitude gives its square, and silence
/// in the band gives nothing, whatever sounds beside it.
pub proof fn lemma_lone_power(mags: Seq<Single>, bins: (nat, nat), k: int)
    requires
        bins.0 <= bins.1 <= HALF <= mags.len(),
        forall|i: int| bins.0 <= i < bins.1 && i != k ==> (#[trigger] mags[i]).magnitude() == 0,
        bins.0 <= k < bins.1 ==> mags[k].is_plain() && mags[k].times(mags[k]).is_finite(),
    ensures
        bins.0 <= k < bins.1 ==> band_power(mags, bins) == mags[k].times(mags[k]),
        !(bins.0 <= k < bins.1) ==> band_power(mags, bins) == Single::of_whole(0),
{
    let part = mags.subrange(bins.0 as int, bins.1 as int);
    let s = squares(part);
    assert forall|i: int| 0 <= i < s.len() && i != k - bins.0 implies (#[trigger] s[i]).magnitude()
        == 0 by {
        assert(part[i] == mags[i + bins.0]);
        lemma_zero_product(part[i], part[i]);
    }
    if bins.0 <= k < bins.1 {
        assert(part[k - bins.0] == mags[k]);
        lemma_product(mags[k], mags[k]);
    }
    lemma_lone_sum(s, k - bins.0);
}

/// The increase of a band counts what rises and nothing that falls.
proof fn lemma_lone_rise(mags: Seq<Single>, prev: Seq<Single>, lo: nat, end: nat, k: int)
    requires
        forall|i: int|
            lo <= i < end && i != k ==> !Single::of_whole(0).lt(
                (#[trigger] mags[i]).minus(prev[i]),
            ),
        lo <= k < end ==> mags[k].minus(prev[k]).is_plain() && Single::of_whole(0).lt(
            mags[k].minus(prev[k]),
        ),
    ensures
        lo <= k < end ==> rise(mags, prev, lo, end) == mags[k].minus(prev[k]),
        !(lo <= k < end) ==> rise(mags, prev, lo, end) == Single::of_whole(0),
    decreases end,
{
    if end > lo {
        lemma_lone_rise(mags, prev, lo, (end - 1) as nat, k);
        if k == end - 1 {
            lemma_zero_first(mags[k].minus(prev[k]));
        } else {
            assert(!Single::of_whole(0).lt(mags[end - 1].minus(prev[end - 1])));
        }
    }
}

/// The root of a square is exact.
pub proof fn lemma_root_of_square(x: Single, y: Single)
    requires
        x.is_plain(),
        y.is_plain(),
        y.magnitude() > 0,
        y.worth() * y.worth() == x.worth() * pow2(149),
    ensures
        x.sqrt() == y,
{
    reveal(Single::square_root);
    let n = x.worth() * pow2(149);
    lemma_pow2_pos(149);
    lemma_worth(y, y);
    lemma_worth(x, x);
    assert(x.worth() > 0) by (nonlinear_arith)
        requires y.worth() * y.worth() == x.worth() * pow2(149), y.worth() > 0;
    lemma_root_at_most(n, y.magnitude());
    lemma_root_at_least(n, y.magnitude());
    lemma_of(false, root(n));
    lemma_same(x.sqrt(), y);
}

/// The flux of a band weighs what rises by the root of the width: a lone rise in a band of `q * q`
/// bins counts by its `q`th part, and in a band of one bin in full. Where nothing rises, it is 0.
pub proof fn lemma_lone_onset(
    mags: Seq<Single>,
    prev: Seq<Single>,
    bins: (nat, nat),
    k: int,
    q: nat,
)
    requires
        bins.1 <= HALF,
        bins.1 == bins.0 + q * q,
        0 < q <= 32,
        forall|i: int|
            bins.0 <= i < bins.1 && i != k ==> !Single::of_whole(0).lt(
                (#[trigger] mags[i]).minus(prev[i]),
            ),
        bins.0 <= k < bins.1 ==> mags[k].minus(prev[k]).is_plain() && Single::of_whole(0).lt(
            mags[k].minus(prev[k]),
        ),
    ensures
        bins.0 <= k < bins.1 ==> onset_flux(mags, prev, bins) == mags[k].minus(prev[k]).over(
            Single::of_whole(q),
        ),
        bins.0 <= k < bins.1 && q == 1 ==> onset_flux(mags, prev, bins).worth() == mags[k].minus(
            prev[k],
        ).worth(),
        !(bins.0 <= k < bins.1) ==> onset_flux(mags, prev, bins).magnitude() == 0,
{
    let u = pow2(149);
    let n = q * q;
    let (x, y) = (Single::of_whole(n), Single::of_whole(q));
    lemma_pow2_pos(149);
    assert(1 <= n <= 1024) by (nonlinear_arith) requires n == q * q, 0 < q <= 32;
    lemma_whole_exact(n);
    lemma_whole_exact(q);
    assert(q * u > 0) by (nonlinear_arith) requires q > 0, u > 0;
    lemma_worth(y, y);
    assert((q * u) * (q * u) == (n * u) * u) by (nonlinear_arith) requires n == q * q;
    lemma_root_of_square(x, y);
    lemma_lone_rise(mags, prev, bins.0, bins.1, k);
    if bins.0 <= k < bins.1 {
        let d = mags[k].minus(prev[k]);
        if q == 1 {
            lemma_quotient(d, y);
            let dw = d.worth();
            assert(dw * u == dw * (1 * u));
            lemma_rounded_exact(23, INF as nat, dw * u, 1 * u, d.magnitude());
        }
    } else {
        lemma_zero_one();
        lemma_units_zero(23);
        lemma_quotient(Single::of_whole(0), y);
        assert(0 * u == 0 && 0 * (q * u) == 0) by (nonlinear_arith);
        lemma_rounded_exact(23, INF as nat, 0, q * u, 0);
    }
}

/// A tone of magnitude 1 at a single bin has its centroid at the frequency of the bin, where that
/// is a number of single precision; silence has it at 0.
pub proof fn lemma_centroid_of_tone(mags: Seq<Single>, rate: nat, k: int, hz: Single)
    requires
        0 < rate < 0x100_0000,
        forall|i: int| 1 <= i < HALF && i != k ==> #[trigger] mags[i] == Single::of_whole(0),
        1 <= k < HALF ==> mags[k] == Single::of_whole(1) && hz.is_plain() && hz.worth() * 2048 == k
            * rate * pow2(149),
    ensures
        1 <= k < HALF ==> centroid(mags, bin_width(Single::of_whole(rate))) == hz,
        !(1 <= k < HALF) ==> centroid(mags, bin_width(Single::of_whole(rate)))
            == Single::of_whole(0),
{
    let w = bin_width(Single::of_whole(rate));
    lemma_bin_width(rate);
    lemma_zero_one();
    let x = if 1 <= k < HALF {
        hz
    } else {
        Single::of_whole(0)
    };
    if 1 <= k < HALF {
        lemma_tone(rate, k as nat, hz);
    }
    lemma_moment_of_tone(mags, w, HALF as nat, k, x);
    let least = Single::fraction(1, 1000000000);
    lemma_least();
    if 1 <= k < HALF {
        let one = Single::of_whole(1);
        let u = pow2(149);
        lemma_pow2_pos(149);
        lemma_whole_exact(1);
        lemma_quotient(hz, one);
        let hw = hz.worth();
        assert(hw * u == hw * (1 * u));
        lemma_rounded_exact(23, INF as nat, hw * u, 1 * u, hz.magnitude());
        lemma_same(hz.over(one), hz);
    }
}

proof fn lemma_least()
    ensures
        Single::fraction(1, 1000000000).lt(Single::of_whole(1)),
        !Single::fraction(1, 1000000000).lt(Single::of_whole(0)),
        !Single::fraction(1, 1000000000).is_not_a_number(),
{
    let (one, b) = (Single::of_whole(1), Single::of_whole(1000000000));
    let u = pow2(149);
    lemma2_to64();
    lemma_pow2_pos(149);
    lemma_pow2_adds(148, 1);
    lemma_whole_exact(1);
    lemma_whole_exact(2);
    lemma_zero_one();
    lemma_whole_order(2, 1000000000);
    lemma_worth(Single::of_whole(2), b);
    lemma_quotient(one, b);
    let bw = b.worth();
    assert(2 * u <= bw) by {
        if bw < 2 * u {
            assert(b.magnitude() >= Single::of_whole(2).magnitude());
        }
    }
    assert((1 * u) * u <= 1 * pow2(148) * bw) by (nonlinear_arith)
        requires 2 * u <= bw, u == 2 * pow2(148), u > 0;
    lemma_rounds_within((1 * u) * u, bw, 1, 148);
    lemma_worth(one.over(b), one);
}

proof fn lemma_tone(rate: nat, k: nat, hz: Single)
    requires
        0 < rate < 0x100_0000,
        1 <= k < 1024,
        hz.is_plain(),
        hz.worth() * 2048 == k * rate * pow2(149),
    ensures
        Single::of_whole(1).times(Single::of_whole(k)).times(bin_width(Single::of_whole(rate)))
            == hz,
{
    let w = bin_width(Single::of_whole(rate));
    let (u, g) = (pow2(149), pow2(138));
    let hw = hz.worth();
    lemma_bin_width(rate);
    lemma_whole_product(1, k);
    lemma2_to64();
    lemma_pow2_pos(149);
    lemma_pow2_adds(138, 11);
    lemma_whole_exact(k);
    lemma_product(Single::of_whole(k), w);
    assert((k * u) * (rate * g) == hw * u) by (nonlinear_arith)
        requires hw * 2048 == k * rate * u, u == g * 2048, g > 0;
    lemma_rounded_exact(23, INF as nat, hw * u, u, hz.magnitude());
    lemma_same(Single::of_whole(k).times(w), hz);
}

proof fn lemma_moment_of_tone(mags: Seq<Single>, w: Single, n: nat, k: int, x: Single)
    requires
        n <= HALF,
        w.is_plain(),
        x.is_plain(),
        forall|i: int| 1 <= i < n && i != k ==> #[trigger] mags[i] == Single::of_whole(0),
        1 <= k < n ==> mags[k] == Single::of_whole(1) && mags[k].times(
            Single::of_whole(k as nat),
        ).times(w) == x,
    ensures
        moment(mags, w, n) == if 1 <= k < n {
            x
        } else {
            Single::of_whole(0)
        },
        mass(mags, n) == if 1 <= k < n {
            Single::of_whole(1)
        } else {
            Single::of_whole(0)
        },
    decreases n,
{
    lemma_zero_one();
    if n > 1 {
        let i = (n - 1) as nat;
        lemma_moment_of_tone(mags, w, i, k, x);
        if k == i {
            lemma_zero_first(x);
            lemma_zero_first(Single::of_whole(1));
        } else {
            let z = mags[i as int];
            assert(z == Single::of_whole(0));
            lemma_whole_exact(i);
            lemma_zero_product(Single::of_whole(i), z);
            lemma_product(z, Single::of_whole(i));
            lemma_product(Single::of_whole(i), z);
            assert(z.worth() * Single::of_whole(i).worth() == Single::of_whole(i).worth()
                * z.worth()) by (nonlinear_arith);
            let y = z.times(Single::of_whole(i));
            assert(y.magnitude() == 0);
            lemma_product(y, w);
            lemma_product(w, y);
            assert(y.worth() * w.worth() == w.worth() * y.worth()) by (nonlinear_arith);
            lemma_zero_product(w, y);
            lemma_plus_zero(moment(mags, w, i), y.times(w));
            lemma_plus_zero(mass(mags, i), z);
        }
    }
}

/// The loudness follows the level of the sound: of the distance to a louder level it goes three
/// tenths per hop, and to a quieter one a two-hundredth, at most 2^-17 off.
pub proof fn lemma_loudness(m: AnalyzerModel)
    requires
        m.rms_env.is_share(),
        m.relative_level().is_share(),
    ensures
        ({
            let (e, r, n) = (m.rms_env.worth(), m.relative_level().worth(), m.envelope().exact());
            &&& m.envelope().is_finite()
            &&& e < r ==> size(10 * n - (7 * e + 3 * r)) <= 10 * pow2(132)
            &&& e >= r ==> size(200 * n - (199 * e + r)) <= 200 * pow2(132)
        }),
{
    let (a, b) = (m.rms_env, m.relative_level());
    lemma_worth(a, b);
    if a.lt(b) {
        lemma_part_way(a, b, 3, 10);
    } else {
        lemma_cancelled_part();
        lemma_part_way(a, b, 1, 200);
    }
}

/// Five thousandths are a two-hundredth.
proof fn lemma_cancelled_part()
    ensures
        Single::fraction(5, 1000) == Single::fraction(1, 200),
{
    lemma_cancelled(1, 200, 5);
}

proof fn lemma_part_way(a: Single, b: Single, p: nat, q: nat)
    requires
        a.is_share(),
        b.is_share(),
        0 < p <= q < 0x1000,
    ensures
        ({
            let r = a.plus(b.minus(a).times(Single::fraction(p, q)));
            &&& r.is_finite()
            &&& size(q * r.exact() - ((q - p) * a.worth() + p * b.worth())) <= q * pow2(132)
        }),
{
    let c = Single::fraction(p, q);
    let (u, e) = (pow2(149), pow2(129));
    let one = Single::of_whole(1);
    lemma2_to64();
    lemma_pow2_pos(149);
    lemma_pow2_pos(129);
    lemma_pow2_adds(3, 129);
    lemma_zero_one();
    lemma_whole_exact(1);
    lemma_worth(a, one);
    lemma_worth(b, one);
    lemma_fraction(p, p, q, 1);
    lemma_signed_mix(a, b, c);
    lemma_whole_exact(p);
    lemma_whole_exact(q);
    assert(p * u <= q * u && q * u > 0) by (nonlinear_arith) requires 0 < p <= q, u > 0;
    lemma_worth(Single::of_whole(q), Single::of_whole(q));
    lemma_over_error(Single::of_whole(p), Single::of_whole(q));
    let (aw, bw, cw) = (a.worth() as int, b.worth() as int, c.worth() as int);
    let (pi, qi, ui, ei) = (p as int, q as int, u as int, e as int);
    let r = a.plus(b.minus(a).times(c)).exact();
    let v = qi * cw - pi * ui;
    assert(cw * (qi * ui) - (pi * ui) * ui == v * ui) by (nonlinear_arith)
        requires v == qi * cw - pi * ui;
    assert(-(qi * ei) <= v <= qi * ei) by (nonlinear_arith)
        requires -(ei * (qi * ui)) <= v * ui <= ei * (qi * ui), ui > 0;
    let x = (bw - aw) * cw;
    let y = (bw - aw) * ui;
    assert(-(qi * ei * ui) <= qi * x - pi * y <= qi * ei * ui) by (nonlinear_arith)
        requires
            x == (bw - aw) * cw,
            y == (bw - aw) * ui,
            v == qi * cw - pi * ui,
            -(qi * ei) <= v <= qi * ei,
            -ui <= bw - aw <= ui,
            qi > 0,
            ei > 0,
    ;
    let z = qi * r - ((qi - pi) * aw + pi * bw);
    let s = r * ui - (aw * ui + x);
    assert(-(3 * ei * ui) <= s <= 3 * ei * ui);
    let (ru, au, bu) = (r * ui, aw * ui, bw * ui);
    let (q1, q2, q3) = (qi * r, (qi - pi) * aw, pi * bw);
    assert(z * ui == q1 * ui - q2 * ui - q3 * ui) by (nonlinear_arith) requires z == q1 - (q2 + q3);
    assert(q1 * ui == qi * ru) by (nonlinear_arith) requires q1 == qi * r, ru == r * ui;
    assert(q2 * ui == (qi - pi) * au) by (nonlinear_arith)
        requires q2 == (qi - pi) * aw, au == aw * ui;
    assert(q3 * ui == pi * bu) by (nonlinear_arith) requires q3 == pi * bw, bu == bw * ui;
    assert((qi - pi) * au == qi * au - pi * au) by (nonlinear_arith);
    assert(qi * s == qi * ru - qi * au - qi * x) by (nonlinear_arith) requires s == ru - (au + x);
    assert(y == bu - au) by (nonlinear_arith)
        requires y == (bw - aw) * ui, au == aw * ui, bu == bw * ui;
    assert(pi * y == pi * bu - pi * au) by (nonlinear_arith) requires y == bu - au;
    assert(z * ui == qi * s + (qi * x - pi * y));
    assert(-(8 * (qi * ei * ui)) <= z * ui <= 8 * (qi * ei * ui)) by (nonlinear_arith)
        requires
            z * ui == qi * s + (qi * x - pi * y),
            -(3 * ei * ui) <= s <= 3 * ei * ui,
            -(qi * ei * ui) <= qi * x - pi * y <= qi * ei * ui,
            qi > 0,
            ei * ui >= 0,
    ;
    assert(-(qi * (8 * ei)) <= z <= qi * (8 * ei)) by (nonlinear_arith)
        requires -(8 * (qi * ei * ui)) <= z * ui <= 8 * (qi * ei * ui), ui > 0;
}

/// A hop that is no quieter than the peak shows the full level.
pub proof fn lemma_loudest(m: AnalyzerModel)
    requires
        m.level_peak().is_plain(),
        m.level_peak().magnitude() > 0,
        m.level_peak() == level(m.input.skip(1536)),
    ensures
        m.relative_level() == Single::of_whole(1),
{
    lemma_zero_one();
    lemma_share(m.level_peak(), m.level_peak());
}

/// How strong a beat is: by how many deviations its flux stands above the mean. From nine on it is
/// 3/2, at six it is 1, at three it is 1/2, and up to a quarter it is a twentieth.
pub proof fn lemma_strength(b: BandModel, flux: Single)
    requires
        flux.minus(b.mean()).over(b.deviation()).is_finite(),
    ensures
        ({
            let z = flux.minus(b.mean()).over(b.deviation());
            let s = b.strength(flux);
            &&& z == Single::of_whole(6) ==> s == Single::of_whole(1)
            &&& z == Single::of_whole(3) ==> s == Single::fraction(1, 2)
            &&& Single::of_whole(9).le(z) ==> s == Single::fraction(3, 2)
            &&& z.le(Single::fraction(1, 4)) ==> s == Single::fraction(1, 20)
        }),
{
    let z = flux.minus(b.mean()).over(b.deviation());
    let (six, one) = (Single::of_whole(6), Single::of_whole(1));
    let (lo, hi) = (Single::fraction(5, 100), Single::fraction(15, 10));
    let y = z.over(six);
    lemma_zero_one();
    lemma_whole_quotient(1, 6);
    lemma_cancelled(1, 20, 5);
    lemma_cancelled(3, 2, 5);
    lemma_cancelled(3, 2, 3);
    lemma_cancelled(1, 2, 3);
    lemma_fraction(5, 5, 100, 1);
    lemma_fraction(2, 3, 2, 2);
    lemma_fraction(1, 2, 2, 1);
    lemma_whole_quotient(1, 2);
    lemma_whole_order(1, 6);
    lemma_whole_order(1, 9);
    lemma_twentieth();
    if Single::of_whole(9).le(z) {
        lemma_quotient_order(Single::of_whole(9), z, six);
        lemma_quotient(z, six);
        lemma_same_or_above(y, hi);
    }
    if z.le(Single::fraction(1, 4)) {
        lemma_fraction(1, 1, 4, 1);
        if z.is_negative() {
            lemma_negative_part(z, six);
        } else {
            lemma_quotient_order(z, Single::fraction(1, 4), six);
            lemma_quotient(z, six);
        }
    }
}

proof fn lemma_same_or_above(y: Single, hi: Single)
    requires
        !y.is_negative(),
        hi.is_plain(),
        hi.magnitude() <= y.magnitude() <= INF,
    ensures
        hi.less(y) || y == hi,
{
    if y.magnitude() == hi.magnitude() {
        lemma_same(y, hi);
    }
}

proof fn lemma_negative_part(z: Single, six: Single)
    requires
        z.is_finite(),
        z.is_negative(),
        six.is_plain(),
        six.magnitude() > 0,
    ensures
        z.over(six).is_negative(),
        !z.over(six).is_not_a_number(),
{
    reveal(Single::quotient);
    lemma_worth(six, six);
    lemma_rounded_monotone(
        23,
        INF as nat,
        units(23, z.magnitude()) * pow2(149),
        units(23, six.magnitude()),
        units(23, z.magnitude()) * pow2(149),
        units(23, six.magnitude()),
    );
    lemma_of(
        true,
        rounded(23, INF as nat, units(23, z.magnitude()) * pow2(149), units(23, six.magnitude())),
    );
}

/// A sixth of a quarter is below a twentieth, and that below 1/2.
proof fn lemma_twentieth()
    ensures
        Single::fraction(1, 4).over(Single::of_whole(6)).magnitude() < Single::fraction(
            5,
            100,
        ).magnitude(),
        Single::fraction(5, 100).magnitude() < Single::fraction(1, 2).magnitude(),
{
    let (u, h) = (pow2(149), pow2(139));
    let (a, b) = (Single::of_whole(5), Single::of_whole(100));
    let (q, six) = (Single::fraction(1, 4), Single::of_whole(6));
    let (c, two) = (Single::of_whole(1), Single::of_whole(2));
    lemma2_to64();
    lemma_pow2_pos(149);
    lemma_pow2_pos(139);
    lemma_pow2_adds(139, 10);
    lemma_zero_one();
    lemma_whole_exact(1);
    lemma_whole_exact(2);
    lemma_whole_exact(5);
    lemma_whole_exact(6);
    lemma_whole_exact(100);
    lemma_fraction(1, 1, 4, 1);
    assert(6 * u > 0 && 100 * u > 0 && 2 * u > 0);
    lemma_worth(six, b);
    lemma_worth(two, two);
    // 44/1024 < 1/20 < 52/1024
    lemma_quarter_worth();
    lemma_quotient(q, six);
    let qw = q.worth();
    assert(qw * u <= 44 * h * (6 * u)) by (nonlinear_arith)
        requires 4 * qw == u, u == 1024 * h, h > 0;
    lemma_rounds_within(qw * u, 6 * u, 44, 139);
    lemma_quotient(a, b);
    assert(51 * h * (100 * u) <= (5 * u) * u) by (nonlinear_arith) requires u == 1024 * h, h > 0;
    assert((5 * u) * u <= 52 * h * (100 * u)) by (nonlinear_arith) requires u == 1024 * h, h > 0;
    lemma_rounds_beyond((5 * u) * u, 100 * u, 51, 139);
    lemma_rounds_within((5 * u) * u, 100 * u, 52, 139);
    lemma_quotient(c, two);
    assert(512 * h * (2 * u) <= (1 * u) * u) by (nonlinear_arith) requires u == 1024 * h, h > 0;
    lemma_rounds_beyond((1 * u) * u, 2 * u, 512, 139);
    lemma_worth(q.over(six), a.over(b));
    lemma_worth(a.over(b), c.over(two));
}

} // verus!
