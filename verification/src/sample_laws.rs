//! What samples are worth, and what is left of them in a mix.
use vstd::arithmetic::power2::{lemma2_to64, lemma_pow2_adds, lemma_pow2_pos, pow2};
use vstd::prelude::*;

use crate::accuracy::{lemma_plus_near, lemma_rounding_error, size};
use crate::audio_capture::{mixed, signed_whole};
use crate::bounds::lemma_power_order;
use crate::order::{
    lemma_of, lemma_rounds_within, lemma_same, lemma_whole_exact, lemma_worth, lemma_zero_one,
};
use crate::rounding::{lemma_on_grid, lemma_rounded_exact, lemma_units_zero, rounded, units};
use crate::single::{Single, INF};
use crate::sums::sum_of;

verus! {

/// A whole number with a sign is exact up to 24 bits.
proof fn lemma_signed_exact(n: int)
    requires
        -0x100_0000 < n < 0x100_0000,
    ensures
        signed_whole(n).is_finite(),
        signed_whole(n).exact() == n * pow2(149),
        signed_whole(n).worth() == size(n) * pow2(149),
{
    let m = size(n);
    let x = Single::of_whole(m);
    lemma_whole_exact(m);
    lemma_of(true, x.magnitude());
    assert(-(m * pow2(149)) == (-m) * pow2(149)) by (nonlinear_arith);
}

/// The quotient of a signed number by a positive one, rounded.
proof fn lemma_signed_quotient(a: Single, b: Single)
    requires
        a.is_finite(),
        b.is_plain(),
        b.magnitude() > 0,
        rounded(23, INF as nat, a.worth() * pow2(149), b.worth()) < INF,
    ensures
        ({
            let k = rounded(23, INF as nat, a.worth() * pow2(149), b.worth());
            &&& a.over(b).is_finite()
            &&& a.over(b).worth() == units(23, k)
            &&& a.exact() >= 0 || units(23, k) == 0 || a.over(b).exact() == -(units(23, k) as int)
            &&& a.exact() < 0 || a.exact() == 0 || a.over(b).exact() == units(23, k)
        }),
{
    reveal(Single::quotient);
    let k = rounded(23, INF as nat, a.worth() * pow2(149), b.worth());
    lemma_of(false, k);
    lemma_of(true, k);
}

/// A sample of 16 bits is its number by 32768, exactly.
pub proof fn lemma_short_sample(n: int)
    requires
        -32768 <= n <= 32768,
    ensures
        signed_whole(n).over(Single::of_whole(32768)).is_finite(),
        signed_whole(n).over(Single::of_whole(32768)).exact() * 32768 == n * pow2(149),
{
    let (a, b) = (signed_whole(n), Single::of_whole(32768));
    let (u, g) = (pow2(149), pow2(134));
    let m = size(n);
    lemma2_to64();
    lemma_pow2_pos(149);
    lemma_pow2_pos(134);
    lemma_pow2_adds(134, 15);
    lemma_signed_exact(n);
    lemma_whole_exact(32768);
    lemma_worth(b, b);
    let k = lemma_on_grid(23, m, 134);
    assert((m * u) * u == m * g * (32768 * u)) by (nonlinear_arith) requires u == g * 32768;
    lemma_rounded_exact(23, INF as nat, (m * u) * u, 32768 * u, k);
    lemma_signed_quotient(a, b);
    let r = a.over(b);
    let e = r.exact();
    assert(n * u >= 0 <==> n >= 0) by (nonlinear_arith) requires u > 0;
    assert(n * u == 0 <==> n == 0) by (nonlinear_arith) requires u > 0;
    if n < 0 {
        assert(m * g > 0) by (nonlinear_arith) requires m > 0, g > 0;
        assert(e == -(m * g));
        assert(e * 32768 == n * u) by (nonlinear_arith)
            requires e == -(m * g), n == -(m as int), u == g * 32768;
    } else if n > 0 {
        assert(e * 32768 == n * u) by (nonlinear_arith)
            requires e == m * g, n == m, u == g * 32768;
    } else {
        assert(0 * g == 0 && 0 * u == 0) by (nonlinear_arith);
        assert(r.worth() == 0);
        assert(e == 0);
    }
}

/// A sample of 32 bits is its number by 2^31, at most 2^-22 off.
pub proof fn lemma_long_sample(n: int)
    requires
        -0x8000_0000 <= n <= 0x8000_0000,
    ensures
        signed_whole(n).over(Single::of_whole(0x8000_0000)).is_finite(),
        size(
            signed_whole(n).over(Single::of_whole(0x8000_0000)).exact() * 0x8000_0000 - n * pow2(
                149,
            ),
        ) <= 512 * pow2(149),
{
    reveal(Single::of_whole);
    let (a, b) = (signed_whole(n), Single::of_whole(0x8000_0000));
    let u = pow2(149);
    let d = 0x8000_0000 * u;
    let m = size(n);
    let x = Single::of_whole(m);
    lemma2_to64();
    lemma_pow2_pos(149);
    lemma_pow2_adds(31, 149);
    lemma_power_order(23, 149);
    let j = lemma_on_grid(23, 1, 180);
    assert(1 * pow2(180) * 1 == d && 1 * pow2(180) == d) by (nonlinear_arith)
        requires pow2(180) == 0x8000_0000 * u, d == 0x8000_0000 * u;
    lemma_rounded_exact(23, INF as nat, d, 1, j);
    lemma_of(false, j);
    assert(b.worth() == d);
    lemma_worth(b, b);
    // The number itself.
    let mu = m * u;
    assert(mu <= 1 * pow2(180) * 1) by (nonlinear_arith)
        requires mu == m * u, m <= 0x8000_0000, pow2(180) == 0x8000_0000 * u;
    lemma_rounds_within(mu, 1, 1, 180);
    let k = rounded(23, INF as nat, mu, 1);
    lemma_of(false, k);
    lemma_of(true, k);
    lemma_rounding_error(23, INF as nat, mu, 1);
    let w = units(23, k);
    assert(a.worth() == w && a.is_finite());
    assert(size(w - mu) <= 256 * u) by (nonlinear_arith)
        requires
            2 * 0x80_0000 * size(w * 1 - mu) <= (w + 0x80_0000) * 1,
            w <= 0x8000_0000 * u,
            0x80_0000 <= u,
    ;
    // Its quotient.
    assert(w * u <= 1 * u * d) by (nonlinear_arith) requires w <= d, u > 0;
    lemma_rounds_within(w * u, d, 1, 149);
    lemma_rounding_error(23, INF as nat, w * u, d);
    lemma_signed_quotient(a, b);
    let q = units(23, rounded(23, INF as nat, w * u, d));
    let v = q * 0x8000_0000 - w;
    assert(q * d - w * u == v * u) by (nonlinear_arith)
        requires v == q * 0x8000_0000 - w, d == 0x8000_0000 * u;
    assert(size(v * u) == size(v) * u) by (nonlinear_arith) requires u > 0;
    let sv = size(v) as int;
    assert(sv <= 256 * u) by (nonlinear_arith)
        requires
            2 * 0x80_0000 * (sv * u) <= (q + 0x80_0000) * d,
            q <= 1 * u,
            0x80_0000 <= u,
            d == 0x8000_0000 * u,
            u > 0,
    ;
    let r = a.over(b);
    let e = r.exact();
    assert(n * u == if n < 0 { -(mu as int) } else { mu as int }) by (nonlinear_arith)
        requires mu == m * u, m == size(n);
    if n < 0 {
        assert(e == -(q as int)) by {
            if w == 0 {
                lemma_units_zero(23);
                assert(0 * u == 0) by (nonlinear_arith);
                lemma_rounded_exact(23, INF as nat, 0, d, 0);
            }
        }
    } else {
        assert(e == q) by {
            if w == 0 {
                lemma_units_zero(23);
                assert(0 * u == 0) by (nonlinear_arith);
                lemma_rounded_exact(23, INF as nat, 0, d, 0);
            }
        }
    }
}

/// An unsigned sample of 16 bits lies around 32768.
pub proof fn lemma_unsigned_sample(s: u16)
    ensures
        Single::of_whole(s as nat).minus(Single::of_whole(32768)).over(
            Single::of_whole(32768),
        ).is_finite(),
        Single::of_whole(s as nat).minus(Single::of_whole(32768)).over(
            Single::of_whole(32768),
        ).exact() * 32768 == (s - 32768) * pow2(149),
{
    let n = s - 32768;
    let (a, b) = (Single::of_whole(s as nat), Single::of_whole(32768));
    let u = pow2(149);
    lemma_whole_exact(s as nat);
    lemma_whole_exact(32768);
    lemma_signed_exact(n);
    lemma_pow2_pos(149);
    lemma2_to64();
    lemma_of(!b.is_negative(), b.magnitude());
    let m = size(n);
    let k = lemma_on_grid(23, m, 149);
    assert(a.minus(b) == signed_whole(n)) by {
        reveal(Single::sum);
        let x = a.exact() + b.neg().exact();
        assert(b.neg().exact() == -(32768 * u));
        assert(x == n * u) by (nonlinear_arith)
            requires x == s * u - 32768 * u, n == s - 32768;
        lemma_of(false, k);
        lemma_of(true, k);
        if n == 0 {
            assert(0 * u == 0) by (nonlinear_arith);
            lemma_zero_one();
            lemma_of(false, 0);
        } else {
            assert(m * u * 1 == m * u);
            lemma_rounded_exact(23, INF as nat, m * u, 1, k);
            lemma_worth(Single::of_whole(m), Single::of(false, k));
            assert(n * u < 0 <==> n < 0) by (nonlinear_arith) requires u > 0;
            assert(n * u != 0) by (nonlinear_arith) requires u > 0, n != 0;
            assert(size(n * u) == m * u) by (nonlinear_arith) requires m == size(n), u > 0;
            lemma_same(Single::of(false, k), Single::of_whole(m));
        }
    }
    lemma_short_sample(n);
}

/// The exact sum of numbers.
pub open spec fn exact_total(s: Seq<Single>) -> int
    decreases s.len(),
{
    if s.len() == 0 {
        0
    } else {
        exact_total(s.drop_last()) + s.last().exact()
    }
}

proof fn lemma_signed_sum(s: Seq<Single>)
    requires
        forall|i: int|
            0 <= i < s.len() ==> (#[trigger] s[i]).is_finite() && s[i].worth() <= pow2(149),
        s.len() < 0x10_0000,
    ensures
        sum_of(s).is_finite(),
        sum_of(s).worth() <= s.len() * pow2(149),
        0x100_0000 * size(sum_of(s).exact() - exact_total(s)) <= s.len() * (s.len() + 1) * pow2(
            149,
        ),
    decreases s.len(),
{
    let u = pow2(149);
    let n = s.len();
    lemma_pow2_pos(149);
    if n == 0 {
        lemma_whole_exact(0);
        assert(0 * u == 0) by (nonlinear_arith);
        assert(n * (n + 1) * u >= 0) by (nonlinear_arith);
    } else {
        let r = s.drop_last();
        assert forall|i: int| 0 <= i < r.len() implies (#[trigger] r[i]).is_finite()
            && r[i].worth() <= u by {
            assert(r[i] == s[i]);
        }
        lemma_signed_sum(r);
        assert(s[n - 1].is_finite() && s[n - 1].worth() <= u);
        let (a, b) = (sum_of(r), s.last());
        assert(a.worth() + b.worth() <= n * u) by (nonlinear_arith)
            requires a.worth() <= (n - 1) * u, b.worth() <= u;
        lemma_plus_near(a, b, n);
        let x = size(a.exact() - exact_total(r)) as int;
        let y = size(sum_of(s).exact() - exact_total(s)) as int;
        let z = size(sum_of(s).exact() - (a.exact() + b.exact())) as int;
        assert(y <= x + z);
        assert(0x100_0000 * y <= n * (n + 1) * u) by (nonlinear_arith)
            requires
                y <= x + z,
                0x100_0000 * x <= (n - 1) * n * u,
                0x100_0000 * z <= (n + 1) * u,
                n >= 1,
                u > 0,
        ;
    }
}

/// A mix is the mean of the channels: for samples from -1 to 1, each sample of the mix times the
/// number of channels is the sum of the samples of its frame, close to the exact one. Samples of an
/// incomplete frame are left out.
pub proof fn lemma_mix(data: Seq<Single>, channels: nat, i: int)
    requires
        0 < channels < 0x10_0000,
        0 <= i < data.len() / channels,
        forall|k: int|
            0 <= k < data.len() ==> (#[trigger] data[k]).is_finite() && data[k].worth() <= pow2(
                149,
            ),
    ensures
        mixed(data, channels).len() == data.len() / channels,
        ({
            let m = mixed(data, channels)[i];
            let frame = Seq::new(channels, |c: int| data[i * channels + c]);
            &&& m.is_finite()
            &&& 0x100_0000 * size(m.exact() * channels - exact_total(frame)) <= channels * (channels
                + 3) * pow2(149)
        }),
{
    let n = channels;
    let frame = Seq::new(n, |c: int| data[i * n + c]);
    let (u, w) = (pow2(149), n * pow2(149));
    let at = i * n;
    assert(0 <= at && at + n <= data.len()) by (nonlinear_arith)
        requires at == i * n, 0 <= i < data.len() / n, n > 0;
    assert((i + 1) * n == at + n) by (nonlinear_arith) requires at == i * n;
    assert(data.subrange(i * n, (i + 1) * n) =~= frame);
    assert forall|c: int| 0 <= c < n implies (#[trigger] frame[c]).is_finite() && frame[c].worth()
        <= u by {
        assert(frame[c] == data[at + c]);
    }
    lemma_signed_sum(frame);
    let (a, b) = (sum_of(frame), Single::of_whole(n));
    lemma2_to64();
    lemma_pow2_pos(149);
    lemma_power_order(23, 149);
    lemma_whole_exact(n);
    assert(w > 0) by (nonlinear_arith) requires w == n * u, n > 0, u > 0;
    lemma_worth(b, b);
    let aw = a.worth();
    assert(aw * u <= 1 * u * w) by (nonlinear_arith) requires aw <= n * u, w == n * u;
    lemma_rounds_within(aw * u, w, 1, 149);
    lemma_rounding_error(23, INF as nat, aw * u, w);
    lemma_signed_quotient(a, b);
    let q = units(23, rounded(23, INF as nat, aw * u, w));
    let v = q * n - aw;
    assert(q * w - aw * u == v * u) by (nonlinear_arith) requires v == q * n - aw, w == n * u;
    assert(size(v * u) == size(v) * u) by (nonlinear_arith) requires u > 0;
    let sv = size(v) as int;
    assert(0x100_0000 * sv <= 2 * w) by (nonlinear_arith)
        requires
            2 * 0x80_0000 * (sv * u) <= (q + 0x80_0000) * w,
            q <= 1 * u,
            0x80_0000 <= u,
            u > 0,
    ;
    let m = a.over(b);
    let (e, x) = (m.exact(), a.exact());
    assert(x == aw || x == -(aw as int));
    assert(size(e * n - x) == sv) by {
        if aw == 0 {
            lemma_units_zero(23);
            assert(0 * u == 0) by (nonlinear_arith);
            lemma_rounded_exact(23, INF as nat, 0, w, 0);
            assert(e == 0);
            assert(0 * n == 0) by (nonlinear_arith);
        } else if x < 0 {
            assert(e == -(q as int));
            assert((-(q as int)) * n == -(q * n)) by (nonlinear_arith);
        }
    }
    let (y, z) = (size(x - exact_total(frame)) as int, size(e * n - exact_total(frame)) as int);
    assert(z <= sv + y);
    assert(0x100_0000 * z <= n * (n + 3) * u) by (nonlinear_arith)
        requires
            z <= sv + y,
            0x100_0000 * sv <= 2 * w,
            0x100_0000 * y <= n * (n + 1) * u,
            w == n * u,
    ;
}

} // verus!
