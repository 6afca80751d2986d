//! The grid of magnitudes of a binary floating-point format, and rounding to it.
//!
//! A format with `f` fraction bits numbers its magnitudes 0, 1, 2, ... in increasing order; the
//! number is the bit pattern without its sign bit. `units` gives the value of each as a multiple
//! of the smallest positive one, so that every finite value is an integer and exact sums,
//! products and quotients are integers or fractions of integers. `inf` is the first magnitude
//! that is not finite; for the purpose of rounding it stands at the place the grid would have
//! next, which is how overflow to infinity is decided.
use vstd::arithmetic::div_mod::{lemma_fundamental_div_mod, lemma_fundamental_div_mod_converse};
use vstd::arithmetic::mul::lemma_mul_strictly_positive;
use vstd::arithmetic::power2::{
    lemma2_to64, lemma2_to64_rest, lemma_pow2_adds, lemma_pow2_pos, lemma_pow2_strictly_increases,
    lemma_pow2_unfold, pow2,
};
use vstd::bits::{lemma_u128_shr_is_div, lemma_u64_shl_is_mul, lemma_u64_shr_is_div};
use vstd::prelude::*;

verus! {

/// The exponent of the spacing of the grid at magnitude `k`: the next magnitude is `2^spacing`
/// units larger.
pub open spec fn spacing(f: nat, k: nat) -> nat {
    if k < pow2(f) {
        0
    } else {
        (k / pow2(f) - 1) as nat
    }
}

/// The value of magnitude `k`, in units of the smallest positive magnitude.
pub open spec fn units(f: nat, k: nat) -> nat {
    ((k - spacing(f, k) * pow2(f)) * pow2(spacing(f, k))) as nat
}

/// `k` is the magnitude nearest to `n / d` units; of two equally near ones, the even one.
pub open spec fn is_nearest(f: nat, inf: nat, n: nat, d: nat, k: nat) -> bool {
    &&& k <= inf
    &&& k > 0 ==> {
        let mid = (units(f, (k - 1) as nat) + units(f, k)) * d;
        if k % 2 == 0 { mid <= 2 * n } else { mid < 2 * n }
    }
    &&& k < inf ==> {
        let mid = (units(f, k) + units(f, k + 1)) * d;
        if k % 2 == 0 { 2 * n <= mid } else { 2 * n < mid }
    }
}

/// The magnitude that `n / d` units round to.
pub open spec fn rounded(f: nat, inf: nat, n: nat, d: nat) -> nat {
    choose|k: nat| is_nearest(f, inf, n, d, k)
}

/// A magnitude `t * 2^f + c`, with `c` a significand of the binade that `t` selects, is worth
/// `c * 2^t` units.
pub proof fn lemma_units_of_parts(f: nat, t: nat, c: nat)
    requires
        t > 0 ==> pow2(f) <= c,
        c <= 2 * pow2(f),
    ensures
        units(f, t * pow2(f) + c) == c * pow2(t),
        c < 2 * pow2(f) ==> spacing(f, t * pow2(f) + c) == t,
{
    let p = pow2(f);
    lemma_pow2_pos(f);
    let k = t * p + c;
    if c < p {
        assert(t == 0);
        assert(t * p == 0) by (nonlinear_arith) requires t == 0;
        lemma2_to64();
        assert(c * pow2(0) == c);
    } else if c < 2 * p {
        assert(k == (t + 1) * p + (c - p)) by (nonlinear_arith) requires k == t * p + c;
        lemma_fundamental_div_mod_converse(k as int, p as int, (t + 1) as int, c - p);
        assert(k >= p) by (nonlinear_arith) requires k == t * p + c, c >= p;
        assert(spacing(f, k) == t);
    } else {
        assert(k == (t + 2) * p + 0) by (nonlinear_arith) requires k == t * p + c, c == 2 * p;
        lemma_fundamental_div_mod_converse(k as int, p as int, (t + 2) as int, 0);
        assert(k >= p) by (nonlinear_arith) requires k == t * p + c, c >= p;
        assert(spacing(f, k) == t + 1);
        assert(k - (t + 1) * p == p) by (nonlinear_arith) requires k == t * p + c, c == 2 * p;
        lemma_pow2_unfold(t + 1);
        assert(p * pow2(t + 1) == c * pow2(t)) by (nonlinear_arith)
            requires c == 2 * p, pow2(t + 1) == 2 * pow2(t);
    }
}

/// The parts of a magnitude: `k == spacing * 2^f + c` with `c` in its binade.
pub proof fn lemma_parts(f: nat, k: nat)
    ensures
        spacing(f, k) * pow2(f) <= k < spacing(f, k) * pow2(f) + 2 * pow2(f),
        spacing(f, k) > 0 ==> k >= spacing(f, k) * pow2(f) + pow2(f),
{
    let p = pow2(f);
    lemma_pow2_pos(f);
    if k < p {
        assert(spacing(f, k) * p == 0) by (nonlinear_arith) requires spacing(f, k) == 0;
    } else {
        let q = k / p;
        lemma_fundamental_div_mod(k as int, p as int);
        assert(0 <= k % p < p);
        if q == 0 {
            assert(p * q == 0) by (nonlinear_arith) requires q == 0;
        }
        assert(p * q == (q - 1) * p + p) by (nonlinear_arith);
    }
}

/// The grid grows by one spacing per step.
pub proof fn lemma_units_step(f: nat, k: nat)
    ensures
        units(f, k + 1) == units(f, k) + pow2(spacing(f, k)),
        units(f, k) < units(f, k + 1),
{
    let t = spacing(f, k);
    let c = (k - t * pow2(f)) as nat;
    lemma_parts(f, k);
    lemma_units_of_parts(f, t, c);
    lemma_units_of_parts(f, t, c + 1);
    lemma_pow2_pos(t);
    assert(t * pow2(f) + (c + 1) == k + 1);
    assert((c + 1) * pow2(t) == c * pow2(t) + pow2(t)) by (nonlinear_arith);
}

/// The grid is strictly increasing.
pub proof fn lemma_units_increase(f: nat, j: nat, k: nat)
    requires
        j < k,
    ensures
        units(f, j) < units(f, k),
    decreases k - j,
{
    lemma_units_step(f, (k - 1) as nat);
    if j < k - 1 {
        lemma_units_increase(f, j, (k - 1) as nat);
    }
}

/// The grid starts at zero.
pub proof fn lemma_units_zero(f: nat)
    ensures
        units(f, 0) == 0,
{
    lemma_units_of_parts(f, 0, 0);
    assert(0 * pow2(f) + 0 == 0) by (nonlinear_arith);
    assert(0 * pow2(0) == 0) by (nonlinear_arith);
}

/// Rounding is monotone.
pub proof fn lemma_nearest_monotone(
    f: nat,
    inf: nat,
    n1: nat,
    d1: nat,
    k1: nat,
    n2: nat,
    d2: nat,
    k2: nat,
)
    requires
        d1 > 0,
        d2 > 0,
        n1 * d2 <= n2 * d1,
        is_nearest(f, inf, n1, d1, k1),
        is_nearest(f, inf, n2, d2, k2),
    ensures
        k1 <= k2,
{
    if k1 > k2 {
        let lo = units(f, (k1 - 1) as nat) + units(f, k1);
        let hi = units(f, k2) + units(f, k2 + 1);
        assert(lo * d1 <= 2 * n1);
        assert(2 * n2 <= hi * d2);
        assert(lo * d1 * d2 <= 2 * n1 * d2) by (nonlinear_arith) requires lo * d1 <= 2 * n1, d2 > 0;
        assert(2 * n2 * d1 <= hi * d2 * d1) by (nonlinear_arith) requires 2 * n2 <= hi * d2, d1 > 0;
        assert(2 * n1 * d2 <= 2 * n2 * d1) by (nonlinear_arith) requires n1 * d2 <= n2 * d1;
        assert(lo <= hi) by (nonlinear_arith)
            requires lo * d1 * d2 <= hi * d2 * d1, d1 > 0, d2 > 0;
        if k1 > k2 + 1 {
            lemma_units_increase(f, k2, (k1 - 1) as nat);
            lemma_units_increase(f, k2 + 1, k1);
        }
        assert(k1 == k2 + 1);
        assert(lo == hi);
        if k1 % 2 == 0 {
            assert(2 * n2 < hi * d2);
            assert(2 * n2 * d1 < hi * d2 * d1) by (nonlinear_arith) requires 2 * n2 < hi * d2, d1 > 0;
        } else {
            assert(lo * d1 < 2 * n1);
            assert(lo * d1 * d2 < 2 * n1 * d2) by (nonlinear_arith) requires lo * d1 < 2 * n1, d2 > 0;
        }
        assert(lo * d1 * d2 == hi * d2 * d1) by (nonlinear_arith) requires lo == hi;
    }
}

/// There is at most one nearest magnitude, so `rounded` is it.
pub proof fn lemma_rounded_is(f: nat, inf: nat, n: nat, d: nat, k: nat)
    requires
        d > 0,
        is_nearest(f, inf, n, d, k),
    ensures
        rounded(f, inf, n, d) == k,
{
    let r = rounded(f, inf, n, d);
    lemma_nearest_monotone(f, inf, n, d, k, n, d, r);
    lemma_nearest_monotone(f, inf, n, d, r, n, d, k);
}

/// A positive magnitude is worth at least the spacing above it.
pub proof fn lemma_spacing_below(f: nat, k: nat)
    requires
        k > 0,
    ensures
        pow2(spacing(f, k)) <= units(f, k),
{
    lemma_parts(f, k);
    lemma_pow2_pos(f);
    lemma_pow2_pos(spacing(f, k));
    let c = k - spacing(f, k) * pow2(f);
    if spacing(f, k) == 0 {
        assert(spacing(f, k) * pow2(f) == 0) by (nonlinear_arith) requires spacing(f, k) == 0;
    }
    assert(c >= 1);
    assert(c * pow2(spacing(f, k)) >= pow2(spacing(f, k))) by (nonlinear_arith)
        requires c >= 1, pow2(spacing(f, k)) > 0;
}

/// Every value has a nearest magnitude.
proof fn lemma_nearest_from(f: nat, inf: nat, n: nat, d: nat, k: nat)
    requires
        k <= inf,
        k > 0 ==> {
            let mid = (units(f, (k - 1) as nat) + units(f, k)) * d;
            if k % 2 == 0 { mid <= 2 * n } else { mid < 2 * n }
        },
    ensures
        exists|r: nat| is_nearest(f, inf, n, d, r),
    decreases inf - k,
{
    if is_nearest(f, inf, n, d, k) {
    } else {
        lemma_nearest_from(f, inf, n, d, k + 1);
    }
}

/// What `rounded` gives is nearest.
pub proof fn lemma_rounded_nearest(f: nat, inf: nat, n: nat, d: nat)
    ensures
        is_nearest(f, inf, n, d, rounded(f, inf, n, d)),
        rounded(f, inf, n, d) <= inf,
{
    lemma_nearest_from(f, inf, n, d, 0);
}

/// Rounding keeps the order of values.
pub proof fn lemma_rounded_monotone(f: nat, inf: nat, n1: nat, d1: nat, n2: nat, d2: nat)
    requires
        d1 > 0,
        d2 > 0,
        n1 * d2 <= n2 * d1,
    ensures
        rounded(f, inf, n1, d1) <= rounded(f, inf, n2, d2) <= inf,
{
    let k1 = rounded(f, inf, n1, d1);
    let k2 = rounded(f, inf, n2, d2);
    lemma_rounded_nearest(f, inf, n1, d1);
    lemma_rounded_nearest(f, inf, n2, d2);
    lemma_nearest_monotone(f, inf, n1, d1, k1, n2, d2, k2);
}

/// A value on the grid rounds to itself.
pub proof fn lemma_rounded_exact(f: nat, inf: nat, n: nat, d: nat, k: nat)
    requires
        d > 0,
        k <= inf,
        n == units(f, k) * d,
    ensures
        rounded(f, inf, n, d) == k,
{
    lemma_units_step(f, k);
    if k > 0 {
        lemma_units_step(f, (k - 1) as nat);
        assert((units(f, (k - 1) as nat) + units(f, k)) * d < 2 * n) by (nonlinear_arith)
            requires units(f, (k - 1) as nat) < units(f, k), n == units(f, k) * d, d > 0;
    }
    assert(2 * n < (units(f, k) + units(f, k + 1)) * d) by (nonlinear_arith)
        requires units(f, k) < units(f, k + 1), n == units(f, k) * d, d > 0;
    lemma_rounded_is(f, inf, n, d, k);
}

/// The value `n / d` lies at `m * 2^e`, or, with `tail`, above that and below `(m + 1) * 2^e`.
pub open spec fn denotes(m: nat, e: int, tail: bool, n: nat, d: nat) -> bool {
    let up = pow2(if e >= 0 { e as nat } else { 0 });
    let down = pow2(if e < 0 { (-e) as nat } else { 0 });
    if tail {
        m * (up * d) < n * down < (m + 1) * (up * d)
    } else {
        n * down == m * (up * d)
    }
}

/// `c` is `n / d` rounded to a whole number of `2^t` units, ties to even.
spec fn rounds_to(c: nat, t: nat, n: nat, d: nat) -> bool {
    let lo = (2 * c - 1) * (pow2(t) * d);
    let hi = (2 * c + 1) * (pow2(t) * d);
    if c % 2 == 0 {
        lo <= 2 * n <= hi
    } else {
        lo < 2 * n < hi
    }
}

proof fn lemma_midpoints(m: nat, q: nat, rem: nat, half: nat, up: nat, tail: bool, x: nat, y: nat)
    requires
        x > 0,
        half > 0,
        m == q * (2 * half) + rem,
        rem < 2 * half,
        tail ==> m * x < y < (m + 1) * x,
        !tail ==> y == m * x,
        up == if rem > half || (rem == half && (tail || q % 2 == 1)) { 1nat } else { 0nat },
    ensures
        ({
            let c = q + up;
            let lo = (2 * c - 1) * ((2 * half) * x);
            let hi = (2 * c + 1) * ((2 * half) * x);
            if c % 2 == 0 { lo <= 2 * y <= hi } else { lo < 2 * y < hi }
        }),
{
    let c = q + up;
    let lo = (2 * c - 1) * (2 * half);
    let hi = (2 * c + 1) * (2 * half);
    assert(lo * x == (2 * c - 1) * ((2 * half) * x)) by (nonlinear_arith)
        requires lo == (2 * c - 1) * (2 * half);
    assert(hi * x == (2 * c + 1) * ((2 * half) * x)) by (nonlinear_arith)
        requires hi == (2 * c + 1) * (2 * half);
    let m1 = if tail { m + 1 } else { m };
    // 2 m and 2 m1 against lo and hi, as integers
    assert(lo == 2 * (q * (2 * half)) + (if up == 1 { (2 * half) as int } else { -(2 * half) })) by (nonlinear_arith)
        requires lo == (2 * c - 1) * (2 * half), c == q + up, up == 0 || up == 1;
    assert(hi == lo + 2 * (2 * half)) by (nonlinear_arith)
        requires lo == (2 * c - 1) * (2 * half), hi == (2 * c + 1) * (2 * half);
    assert(lo <= 2 * m);
    assert(2 * m1 <= hi);
    assert(lo * x <= 2 * (m * x)) by (nonlinear_arith) requires lo <= 2 * m, x > 0;
    assert(2 * (m1 * x) <= hi * x) by (nonlinear_arith) requires 2 * m1 <= hi, x > 0;
    if !tail && c % 2 == 1 {
        assert(lo < 2 * m);
        assert(2 * m < hi);
        assert(lo * x < 2 * (m * x)) by (nonlinear_arith) requires lo < 2 * m, x > 0;
        assert(2 * (m * x) < hi * x) by (nonlinear_arith) requires 2 * m < hi, x > 0;
    }
}

/// Brings `c` units of `2^t` to its place on the grid.
proof fn lemma_pack(f: nat, inf: nat, n: nat, d: nat, t: nat, c: nat)
    requires
        f >= 1,
        d > 0,
        c <= 2 * pow2(f),
        t > 0 ==> c >= pow2(f),
        rounds_to(c, t, n, d),
        t > 0 && c == pow2(f) ==> 2 * c * (pow2(t) * d) <= 2 * n,
    ensures
        is_nearest(
            f,
            inf,
            n,
            d,
            if t * pow2(f) + c <= inf { t * pow2(f) + c } else { inf },
        ),
{
    let p = pow2(f);
    let k = t * p + c;
    let big = pow2(t);
    lemma_pow2_pos(f);
    lemma_pow2_pos(t);
    assert(k % 2 == c % 2) by {
        lemma_pow2_unfold(f);
        let h = t * pow2((f - 1) as nat);
        assert(t * p == 2 * h) by (nonlinear_arith)
            requires p == 2 * pow2((f - 1) as nat), h == t * pow2((f - 1) as nat);
    }
    lemma_units_of_parts(f, t, c);
    // the midpoint below
    if k > 0 {
        let mid = (units(f, (k - 1) as nat) + units(f, k)) * d;
        lemma_units_step(f, (k - 1) as nat);
        if c == 0 {
            assert(t * p == 0) by (nonlinear_arith) requires t == 0;
        }
        if t > 0 && c == p {
            assert(mid < (2 * units(f, k)) * d) by (nonlinear_arith)
                requires
                    mid == (units(f, (k - 1) as nat) + units(f, k)) * d,
                    units(f, (k - 1) as nat) < units(f, k),
                    d > 0;
            assert((2 * units(f, k)) * d == 2 * c * (big * d)) by (nonlinear_arith)
                requires units(f, k) == c * big;
        } else {
            assert(t * p + (c - 1) == k - 1);
            lemma_units_of_parts(f, t, (c - 1) as nat);
            assert(mid == (2 * c - 1) * (big * d)) by (nonlinear_arith)
                requires mid == ((c - 1) * big + c * big) * d;
        }
    }
    // the midpoint above
    let mid = (units(f, k) + units(f, k + 1)) * d;
    assert(mid >= (2 * c + 1) * (big * d)) by {
        lemma_units_step(f, k);
        if c == 2 * p {
            assert((t + 1) * p + p == k) by (nonlinear_arith) requires k == t * p + c, c == 2 * p;
            lemma_units_of_parts(f, t + 1, p);
            lemma_pow2_unfold(t + 1);
        }
        assert(pow2(spacing(f, k)) >= big);
        let w = pow2(spacing(f, k));
        assert(mid >= (2 * c + 1) * (big * d)) by (nonlinear_arith)
            requires mid == (c * big + (c * big + w)) * d, w >= big, d > 0;
    }
    if k > inf {
        if inf > 0 {
            let low = (units(f, (inf - 1) as nat) + units(f, inf)) * d;
            let here = (units(f, (k - 1) as nat) + units(f, k)) * d;
            lemma_units_increase(f, (inf - 1) as nat, inf);
            lemma_units_increase(f, inf, k);
            if inf < k - 1 {
                lemma_units_increase(f, inf, (k - 1) as nat);
            }
            assert(low < here) by (nonlinear_arith)
                requires
                    low == (units(f, (inf - 1) as nat) + units(f, inf)) * d,
                    here == (units(f, (k - 1) as nat) + units(f, k)) * d,
                    units(f, (inf - 1) as nat) < units(f, inf),
                    units(f, inf) <= units(f, (k - 1) as nat),
                    units(f, inf) < units(f, k),
                    d > 0;
        }
    }
}

proof fn lemma_shl(x: u128, s: u128)
    requires
        s < 128,
        x * pow2(s as nat) <= u128::MAX,
    ensures
        (x << s) == x * pow2(s as nat),
    decreases s,
{
    if s == 0 {
        assert(x << 0u128 == x) by (bit_vector);
        lemma2_to64();
    } else {
        let r = (s - 1) as u128;
        lemma_pow2_unfold(s as nat);
        lemma_pow2_pos(r as nat);
        assert(x * pow2(s as nat) == 2 * (x * pow2(r as nat))) by (nonlinear_arith)
            requires pow2(s as nat) == 2 * pow2(r as nat);
        lemma_shl(x, r);
        let y = x << r;
        assert(x << s == y << 1u128) by (bit_vector)
            requires 1 <= s < 128, r == s - 1, y == x << r;
        assert(y <= 0x7fff_ffff_ffff_ffff_ffff_ffff_ffff_ffffu128 ==> y << 1u128 == 2 * y) by (bit_vector);
    }
}

/// The number of binary digits of `m`.
fn bit_len(m: u128) -> (l: u32)
    requires
        m > 0,
    ensures
        1 <= l <= 128,
        pow2((l - 1) as nat) <= m < pow2(l as nat),
{
    let mut x: u128 = m;
    let mut l: u32 = 0;
    let mut s: u32 = 64;
    proof {
        lemma2_to64();
        lemma_pow2_adds(64, 64);
        assert(pow2(128) == 0x1_0000_0000_0000_0000 * 0x1_0000_0000_0000_0000);
    }
    while s > 0
        invariant
            s == 64 || s == 32 || s == 16 || s == 8 || s == 4 || s == 2 || s == 1 || s == 0,
            l <= 128 - (if s == 0 { 1 } else { 2 * s as int }),
            x >= 1,
            x < pow2(if s == 0 { 1 } else { 2 * s as nat }),
            x * pow2(l as nat) <= m < (x + 1) * pow2(l as nat),
        decreases s,
    {
        proof {
            lemma_u128_shr_is_div(x, s as u128);
            lemma_pow2_pos(s as nat);
            lemma_pow2_adds(s as nat, s as nat);
            lemma_pow2_adds(l as nat, s as nat);
            lemma_fundamental_div_mod(x as int, pow2(s as nat) as int);
        }
        let y: u128 = x >> (s as u128);
        let ghost ps = pow2(s as nat);
        let ghost pl = pow2(l as nat);
        if y > 0 {
            proof {
                let r = x as nat % ps;
                assert(y * (pl * ps) <= m) by (nonlinear_arith)
                    requires x == ps * y + r, x * pl <= m, r >= 0;
                assert(m < (y + 1) * (pl * ps)) by (nonlinear_arith)
                    requires x == ps * y + r, m < (x + 1) * pl, r < ps;
                assert(y < ps) by (nonlinear_arith)
                    requires x == ps * y + r, x < ps * ps, r >= 0, ps > 0;
            }
            x = y;
            l = l + s;
        } else {
            proof {
                assert(ps * y == 0) by (nonlinear_arith) requires y == 0;
                assert(x < ps);
            }
        }
        s = s / 2;
        proof {
            lemma2_to64();
        }
    }
    proof {
        lemma2_to64();
        assert(x == 1);
        assert(x * pow2(l as nat) == pow2(l as nat)) by (nonlinear_arith) requires x == 1;
        assert((x + 1) * pow2(l as nat) == 2 * pow2(l as nat)) by (nonlinear_arith) requires x == 1;
        lemma_pow2_unfold((l + 1) as nat);
    }
    l + 1
}

/// Rounds `n / d` units to the grid, where `m * 2^e` (with `tail`: the interval above it) locates
/// `n / d`.
#[verifier::spinoff_prover]
#[verifier::rlimit(60)]
pub(crate) fn round_scaled(
    f: u32,
    inf: u64,
    m: u128,
    e: i32,
    tail: bool,
    Ghost(n): Ghost<nat>,
    Ghost(d): Ghost<nat>,
) -> (k: u64)
    requires
        1 <= f <= 52,
        inf <= 0x7fff_ffff_ffff_ffff,
        m < pow2(120),
        -5000 < e < 5000,
        d > 0,
        denotes(m as nat, e as int, tail, n, d),
        tail ==> m >= pow2((f + 1) as nat),
    ensures
        k == rounded(f as nat, inf as nat, n, d),
        is_nearest(f as nat, inf as nat, n, d, k as nat),
{
    let ghost p = pow2(f as nat);
    let ghost up = pow2(if e >= 0 { e as nat } else { 0 });
    let ghost down = pow2(if e < 0 { (-e) as nat } else { 0 });
    let ghost x = up * d;
    let ghost y = n * down;
    proof {
        lemma_pow2_pos(f as nat);
        lemma_pow2_pos(if e >= 0 { e as nat } else { 0 });
        lemma_pow2_pos(if e < 0 { (-e) as nat } else { 0 });
        lemma_mul_strictly_positive(up as int, d as int);
        lemma_pow2_unfold((f + 1) as nat);
    }
    if m == 0 {
        proof {
            lemma_pow2_pos((f + 1) as nat);
            assert(n * down == 0) by (nonlinear_arith) requires n * down == m * (up * d), m == 0;
            assert(n == 0) by (nonlinear_arith) requires n * down == 0, down > 0;
            lemma_units_step(f as nat, 0);
            let mid = (units(f as nat, 0) + units(f as nat, 1)) * d;
            assert(mid >= 0) by (nonlinear_arith)
                requires mid == (units(f as nat, 0) + units(f as nat, 1)) * d;
            lemma_rounded_is(f as nat, inf as nat, n, d, 0);
        }
        return 0;
    }
    let l: u32 = bit_len(m);
    proof {
        if l > 120 {
            if l - 1 > 120 {
                lemma_pow2_strictly_increases(120, (l - 1) as nat);
            }
        }
        if tail && l < f + 2 {
            if l < f + 1 {
                lemma_pow2_strictly_increases(l as nat, (f + 1) as nat);
            }
        }
    }
    assert(l <= 120);
    let t0: i32 = l as i32 + e - f as i32 - 1;
    let t: i32 = if t0 > 0 { t0 } else { 0 };
    let drop: i32 = t - e;
    let ghost big = pow2(t as nat);
    proof {
        lemma_pow2_pos(t as nat);
    }
    let c: u64;
    if drop <= 0 {
        let s: u128 = (-drop) as u128;
        proof {
            // m * 2^s < 2^(l + s) <= 2^(f + 1)
            let ps = pow2(s as nat);
            lemma_pow2_pos(s as nat);
            lemma_pow2_adds(l as nat, s as nat);
            assert(m * ps < pow2(l as nat) * ps) by (nonlinear_arith)
                requires m < pow2(l as nat), ps > 0;
            if l + s < f + 1 {
                lemma_pow2_strictly_increases((l + s) as nat, (f + 1) as nat);
            }
            lemma_significand_bound(f as nat);
            lemma_shl(m, s);
            if t > 0 {
                lemma_pow2_adds((l - 1) as nat, s as nat);
                assert(m * ps >= pow2((l - 1) as nat) * ps) by (nonlinear_arith)
                    requires m >= pow2((l - 1) as nat);
            }
            // 2^s * 2^t == 2^e
            lemma_pow2_adds(s as nat, t as nat);
            lemma2_to64();
            assert(down == 1);
            let cc = m * ps;
            assert(n == cc * (big * d)) by (nonlinear_arith)
                requires
                    n * down == m * (up * d),
                    down == 1,
                    up == ps * big,
                    cc == m * ps;
            let w = big * d;
            assert(w > 0) by (nonlinear_arith) requires w == big * d, big > 0, d > 0;
            assert((2 * cc - 1) * w == 2 * (cc * w) - w) by (nonlinear_arith);
            assert((2 * cc + 1) * w == 2 * (cc * w) + w) by (nonlinear_arith);
            assert(2 * cc * w == 2 * (cc * w)) by (nonlinear_arith);
        }
        c = (m << s) as u64;
    } else {
        proof {
            // 2^drop * up == 2^t * down
            lemma_pow2_adds(drop as nat, if e >= 0 { e as nat } else { 0 });
            lemma_pow2_adds(t as nat, if e < 0 { (-e) as nat } else { 0 });
            lemma_pow2_unfold(drop as nat);
            lemma_pow2_pos((drop - 1) as nat);
            assert(pow2(drop as nat) * up == big * down);
        }
        let ghost dd = pow2(drop as nat);
        if drop > l as i32 {
            c = 0;
            proof {
                lemma_pow2_strictly_increases(l as nat, drop as nat);
                if l < drop - 1 {
                    lemma_pow2_strictly_increases(l as nat, (drop - 1) as nat);
                }
                // m + 1 <= half
                let half = pow2((drop - 1) as nat);
                assert(m + 1 <= half);
                assert((m + 1) * x == m * x + x) by (nonlinear_arith);
                assert(2 * y <= dd * x) by (nonlinear_arith)
                    requires
                        y <= (m + 1) * x,
                        m + 1 <= half,
                        dd == 2 * half,
                        x > 0;
                assert((m + 1) * x >= m * x) by (nonlinear_arith) requires x > 0;
                assert(dd * x == big * d * down) by (nonlinear_arith)
                    requires dd * up == big * down, x == up * d;
                assert(2 * n <= big * d) by (nonlinear_arith)
                    requires 2 * (n * down) <= big * d * down, down > 0;
                assert((2 * 0 - 1) * (big * d) <= 0) by (nonlinear_arith) requires big > 0, d > 0;
                assert((2 * 0 + 1) * (big * d) == big * d) by (nonlinear_arith);
                assert(rounds_to(0, t as nat, n, d));
            }
        } else {
            let s: u128 = drop as u128;
            let ghost half = pow2((drop - 1) as nat);
            proof {
                lemma_u128_shr_is_div(m, s);
                lemma_fundamental_div_mod(m as int, dd as int);
                lemma_pow2_strictly_increases((drop - 1) as nat, 120);
                lemma_significand_bound(f as nat);
                assert(1u128 * pow2((s - 1) as nat) == half);
                lemma_shl(1u128, (s - 1) as u128);
            }
            let q: u128 = m >> s;
            let h: u128 = 1u128 << ((s - 1) as u128);
            proof {
                assert(q * dd <= m) by (nonlinear_arith)
                    requires m == dd * q + (m as int % dd as int), (m as int % dd as int) >= 0;
                lemma_shl(q, s);
            }
            let rem: u128 = m - (q << s);
            let up1: bool = rem > h || (rem == h && (tail || q % 2 == 1));
            proof {
                assert(m == q * (2 * half) + rem) by (nonlinear_arith)
                    requires rem == m - q * dd, dd == 2 * half;
                assert(rem < 2 * half) by (nonlinear_arith)
                    requires
                        m == dd * q + (m as int % dd as int),
                        (m as int % dd as int) < dd,
                        rem == m - q * dd,
                        dd == 2 * half;
                lemma_midpoints(m as nat, q as nat, rem as nat, half, if up1 { 1 } else { 0 }, tail, x, y);
                // q < 2^(f + 1)
                assert(l - drop <= f + 1);
                lemma_pow2_adds((l - drop) as nat, drop as nat);
                let pq = pow2((l - drop) as nat);
                assert(q < pq) by (nonlinear_arith)
                    requires q * dd <= m, m < pq * dd, dd > 0;
                if l - drop < f + 1 {
                    lemma_pow2_strictly_increases((l - drop) as nat, (f + 1) as nat);
                }
                lemma_significand_bound(f as nat);
                assert(q < pow2((f + 1) as nat));
            }
            c = (q as u64) + (if up1 { 1u64 } else { 0u64 });
            proof {
                let cc = c as int;
                assert(dd * x == big * d * down) by (nonlinear_arith)
                    requires dd * up == big * down, x == up * d;
                let w = big * d;
                assert((2 * cc - 1) * (dd * x) == ((2 * cc - 1) * w) * down) by (nonlinear_arith)
                    requires dd * x == w * down;
                assert((2 * cc + 1) * (dd * x) == ((2 * cc + 1) * w) * down) by (nonlinear_arith)
                    requires dd * x == w * down;
                lemma_cancel((2 * cc - 1) * w, (2 * n) as int, down);
                lemma_cancel((2 * n) as int, (2 * cc + 1) * w, down);
                assert(2 * n * down == 2 * y) by (nonlinear_arith) requires y == n * down;
                assert(rounds_to(c as nat, t as nat, n, d));
                if t > 0 {
                    lemma_pow2_adds(f as nat, drop as nat);
                    assert(q >= p) by (nonlinear_arith)
                        requires
                            m >= p * dd,
                            m == q * dd + rem,
                            rem < dd,
                            dd > 0;
                    if c == p {
                        assert(!up1);
                        assert(c * (dd * x) <= y) by (nonlinear_arith)
                            requires
                                c == q,
                                q * dd <= m,
                                m * x <= y,
                                x > 0;
                        assert((c * w) * down == c * (dd * x)) by (nonlinear_arith)
                            requires dd * x == w * down;
                        lemma_cancel(c * w, n as int, down);
                        assert(2 * c * w == 2 * (c * w)) by (nonlinear_arith);
                    }
                }
            }
        }
    }
    proof {
        lemma_pack(f as nat, inf as nat, n, d, t as nat, c as nat);
        let k = t as nat * p + c as nat;
        let r = if k <= inf { k } else { inf as nat };
        lemma_rounded_is(f as nat, inf as nat, n, d, r);
    }
    let top: u64 = inf >> (f as u64);
    proof {
        lemma_u64_shr_is_div(inf, f as u64);
        lemma_fundamental_div_mod(inf as int, p as int);
    }
    if t as u64 > top {
        proof {
            assert(t * p > inf) by (nonlinear_arith)
                requires
                    t >= top + 1,
                    inf == p * top + (inf as int % p as int),
                    (inf as int % p as int) < p;
        }
        inf
    } else {
        proof {
            assert(t * p <= inf) by (nonlinear_arith)
                requires t <= top, inf == p * top + (inf as int % p as int), (inf as int % p as int) >= 0, t >= 0;
            lemma_u64_shl_is_mul(t as u64, f as u64);
            lemma_significand_bound(f as nat);
        }
        let k: u64 = ((t as u64) << (f as u64)) + c;
        if k <= inf {
            k
        } else {
            inf
        }
    }
}

proof fn lemma_significand_bound(f: nat)
    requires
        f <= 52,
    ensures
        pow2(f + 1) <= 0x20_0000_0000_0000,
        pow2(120) <= u128::MAX,
{
    lemma2_to64();
    lemma2_to64_rest();
    if f < 52 {
        lemma_pow2_strictly_increases(f + 1, 53);
    }
    lemma_pow2_adds(60, 60);
    assert(pow2(60) * pow2(60) <= u128::MAX) by (nonlinear_arith)
        requires pow2(60) == 0x1000_0000_0000_0000;
}

proof fn lemma_cancel(a: int, b: int, w: nat)
    requires
        w > 0,
    ensures
        a * w <= b * w <==> a <= b,
        a * w < b * w <==> a < b,
{
    assert(a <= b ==> a * w <= b * w) by (nonlinear_arith) requires w > 0;
    assert(a < b ==> a * w < b * w) by (nonlinear_arith) requires w > 0;
    assert(b < a ==> b * w < a * w) by (nonlinear_arith) requires w > 0;
    assert(b <= a ==> b * w <= a * w) by (nonlinear_arith) requires w > 0;
}

/// The two formats: fraction bits, first magnitude that is not finite, and the number of
/// fraction digits of one unit (one unit is `2^-bias`).
pub open spec fn is_format(f: u32, inf: u64, bias: u32) -> bool {
    ||| f == 23 && inf == 0x7f80_0000 && bias == 149
    ||| f == 52 && inf == 0x7ff0_0000_0000_0000 && bias == 1074
}

/// Splits a finite magnitude into significand and exponent: it is worth `c * 2^t` units.
pub(crate) fn split(f: u32, inf: u64, bias: u32, k: u64) -> (r: (u64, u32))
    requires
        is_format(f, inf, bias),
        k < inf,
    ensures
        units(f as nat, k as nat) == r.0 * pow2(r.1 as nat),
        r.1 == spacing(f as nat, k as nat),
        k == r.1 * pow2(f as nat) + r.0,
        r.0 < pow2((f + 1) as nat) <= 0x20_0000_0000_0000,
        r.1 > 0 ==> r.0 >= pow2(f as nat),
        r.1 < 2046,
{
    let ghost p = pow2(f as nat);
    let q: u64 = k >> (f as u64);
    proof {
        lemma_u64_shr_is_div(k, f as u64);
        lemma_parts(f as nat, k as nat);
        lemma_pow2_unfold((f + 1) as nat);
        lemma_significand_bound(f as nat);
        lemma2_to64();
        lemma2_to64_rest();
        lemma_fundamental_div_mod(k as int, p as int);
        let r = k as int % p as int;
        assert(k == p * q + r);
        if f == 23 {
            assert(q < 2047) by (nonlinear_arith)
                requires k == p * q + r, r >= 0, p == 0x80_0000, k < 0x7f80_0000;
        } else {
            assert(q < 2047) by (nonlinear_arith)
                requires k == p * q + r, r >= 0, p == 0x10_0000_0000_0000, k < 0x7ff0_0000_0000_0000;
        }
        assert(q == 0 ==> k < p) by (nonlinear_arith) requires k == p * q + r, r < p;
        assert(q > 0 ==> k >= p) by (nonlinear_arith) requires k == p * q + r, r >= 0;
        if q == 0 {
            assert(k * pow2(0) == k) by (nonlinear_arith) requires pow2(0) == 1;
            assert(0 * p == 0) by (nonlinear_arith);
        } else {
            lemma_u64_shl_is_mul((q - 1) as u64, f as u64);
        }
    }
    if q == 0 {
        (k, 0)
    } else {
        let t: u64 = q - 1;
        (k - (t << (f as u64)), t as u32)
    }
}

/// An integer number of units: `m * 2^e`.
proof fn lemma_denotes_whole(m: nat, e: nat)
    ensures
        denotes(m, e as int, false, m * pow2(e), 1),
{
    lemma2_to64();
    assert((m * pow2(e)) * pow2(0) == m * (pow2(e) * 1)) by (nonlinear_arith)
        requires pow2(0) == 1;
}

/// A shifted significand stays well inside 120 bits.
proof fn lemma_shifted(c: nat, s: nat)
    requires
        c < 0x20_0000_0000_0000,
        s <= 64,
    ensures
        c * pow2(s) < pow2(117),
        pow2(117) < pow2(118) < pow2(120) <= u128::MAX,
        pow2(118) == 2 * pow2(117),
{
    lemma2_to64_rest();
    lemma2_to64();
    lemma_pow2_adds(53, s);
    lemma_pow2_pos(s);
    assert(c * pow2(s) < pow2(53) * pow2(s)) by (nonlinear_arith)
        requires c < pow2(53), pow2(s) > 0;
    if s < 64 {
        lemma_pow2_strictly_increases(53 + s, 117);
    }
    lemma_pow2_strictly_increases(117, 118);
    lemma_pow2_strictly_increases(118, 120);
    lemma_pow2_unfold(118);
    lemma_significand_bound(52);
}

/// The exact sum of two finite magnitudes, rounded.
pub(crate) fn add_magnitudes(f: u32, inf: u64, bias: u32, a: u64, b: u64) -> (k: u64)
    requires
        is_format(f, inf, bias),
        b <= a < inf,
    ensures
        k == rounded(f as nat, inf as nat, units(f as nat, a as nat) + units(f as nat, b as nat), 1),
        k <= inf,
{
    let (ca, ta) = split(f, inf, bias, a);
    let (cb, tb) = split(f, inf, bias, b);
    let ghost n = units(f as nat, a as nat) + units(f as nat, b as nat);
    proof {
        lemma_spacing_monotone(f as nat, b as nat, a as nat);
    }
    let gap: u32 = ta - tb;
    if gap <= 64 {
        proof {
            lemma_shifted(ca as nat, gap as nat);
            lemma_shifted(cb as nat, 0);
            lemma2_to64();
            lemma_shl(ca as u128, gap as u128);
            lemma_pow2_adds(gap as nat, tb as nat);
        }
        let m: u128 = ((ca as u128) << (gap as u128)) + cb as u128;
        proof {
            assert(m * pow2(tb as nat) == n) by (nonlinear_arith)
                requires
                    m == ca * pow2(gap as nat) + cb,
                    n == ca * pow2(ta as nat) + cb * pow2(tb as nat),
                    pow2(ta as nat) == pow2(gap as nat) * pow2(tb as nat);
            lemma_denotes_whole(m as nat, tb as nat);
        }
        round_scaled(f, inf, m, tb as i32, false, Ghost(n), Ghost(1))
    } else {
        proof {
            lemma_shifted(ca as nat, 2);
            lemma_far_apart(f as nat, ca as nat, ta as nat, cb as nat, tb as nat);
            lemma2_to64();
        }
        let m: u128 = (ca as u128) * 4;
        round_scaled(f, inf, m, ta as i32 - 2, cb > 0, Ghost(n), Ghost(1))
    }
}

/// The exact difference of two finite magnitudes, rounded.
pub(crate) fn sub_magnitudes(f: u32, inf: u64, bias: u32, a: u64, b: u64) -> (k: u64)
    requires
        is_format(f, inf, bias),
        b <= a < inf,
    ensures
        units(f as nat, b as nat) <= units(f as nat, a as nat),
        k == rounded(
            f as nat,
            inf as nat,
            (units(f as nat, a as nat) - units(f as nat, b as nat)) as nat,
            1,
        ),
        k <= inf,
{
    let (ca, ta) = split(f, inf, bias, a);
    let (cb, tb) = split(f, inf, bias, b);
    proof {
        lemma_spacing_monotone(f as nat, b as nat, a as nat);
        if b < a {
            lemma_units_increase(f as nat, b as nat, a as nat);
        }
    }
    let ghost n = (units(f as nat, a as nat) - units(f as nat, b as nat)) as nat;
    let gap: u32 = ta - tb;
    if gap <= 64 {
        proof {
            lemma_shifted(ca as nat, gap as nat);
            lemma2_to64();
            lemma_shl(ca as u128, gap as u128);
            lemma_pow2_adds(gap as nat, tb as nat);
            lemma_pow2_pos(tb as nat);
            let x = ca * pow2(gap as nat);
            assert(x * pow2(tb as nat) == ca * pow2(ta as nat)) by (nonlinear_arith)
                requires
                    x == ca * pow2(gap as nat),
                    pow2(ta as nat) == pow2(gap as nat) * pow2(tb as nat);
            assert(x >= cb) by (nonlinear_arith)
                requires x * pow2(tb as nat) >= cb * pow2(tb as nat), pow2(tb as nat) > 0;
        }
        let m: u128 = ((ca as u128) << (gap as u128)) - cb as u128;
        proof {
            assert(m * pow2(tb as nat) == n) by (nonlinear_arith)
                requires
                    m == ca * pow2(gap as nat) - cb,
                    n == ca * pow2(ta as nat) - cb * pow2(tb as nat),
                    pow2(ta as nat) == pow2(gap as nat) * pow2(tb as nat);
            lemma_denotes_whole(m as nat, tb as nat);
        }
        round_scaled(f, inf, m, tb as i32, false, Ghost(n), Ghost(1))
    } else {
        proof {
            lemma_shifted(ca as nat, 2);
            lemma_far_apart(f as nat, ca as nat, ta as nat, cb as nat, tb as nat);
            lemma2_to64();
        }
        if cb == 0 {
            assert(cb * pow2(tb as nat) == 0) by (nonlinear_arith) requires cb == 0;
            round_scaled(f, inf, (ca as u128) * 4, ta as i32 - 2, false, Ghost(n), Ghost(1))
        } else {
            let m: u128 = (ca as u128) * 4 - 1;
            round_scaled(f, inf, m, ta as i32 - 2, true, Ghost(n), Ghost(1))
        }
    }
}

proof fn lemma_spacing_monotone(f: nat, j: nat, k: nat)
    requires
        j <= k,
    ensures
        spacing(f, j) <= spacing(f, k),
{
    lemma_pow2_pos(f);
    vstd::arithmetic::div_mod::lemma_div_is_ordered(j as int, k as int, pow2(f) as int);
    if j >= pow2(f) {
        vstd::arithmetic::div_mod::lemma_div_non_zero(j as int, pow2(f) as int);
    }
}

/// A magnitude more than 64 binades below another is less than a quarter of its last place.
proof fn lemma_far_apart(f: nat, ca: nat, ta: nat, cb: nat, tb: nat)
    requires
        f <= 52,
        ta - tb > 64,
        pow2(f) <= ca,
        cb < 0x20_0000_0000_0000,
    ensures
        ({
            let hi = ca * pow2(ta);
            let lo = cb * pow2(tb);
            &&& denotes(4 * ca, ta - 2, cb > 0, hi + lo, 1)
            &&& cb > 0 ==> denotes((4 * ca - 1) as nat, ta - 2, true, (hi - lo) as nat, 1)
            &&& lo <= hi
            &&& 4 * ca - 1 >= pow2(f + 1)
        }),
{
    let hi = ca * pow2(ta);
    let lo = cb * pow2(tb);
    let w = pow2((ta - 2) as nat);
    lemma2_to64();
    lemma2_to64_rest();
    lemma_pow2_adds(2, (ta - 2) as nat);
    lemma_pow2_adds(53, tb);
    lemma_pow2_strictly_increases(53 + tb, (ta - 2) as nat);
    lemma_pow2_pos(tb);
    lemma_pow2_pos(f);
    lemma_pow2_unfold(f + 1);
    assert(lo < w) by (nonlinear_arith)
        requires
            lo == cb * pow2(tb),
            cb < pow2(53),
            pow2(53) * pow2(tb) < w,
            pow2(tb) > 0;
    assert(hi == (4 * ca) * w) by (nonlinear_arith) requires hi == ca * pow2(ta), pow2(ta) == 4 * w;
    assert((4 * ca + 1) * w == (4 * ca) * w + w) by (nonlinear_arith);
    assert((4 * ca - 1) * w == (4 * ca) * w - w) by (nonlinear_arith);
    assert((4 * ca) * w >= w) by (nonlinear_arith) requires ca >= 1, w > 0;
    assert((hi + lo) * pow2(0) == hi + lo) by (nonlinear_arith) requires pow2(0) == 1;
    assert((hi - lo) * pow2(0) == hi - lo) by (nonlinear_arith) requires pow2(0) == 1;
    assert(w * 1 == w);
    if cb > 0 {
        assert(lo > 0) by (nonlinear_arith) requires lo == cb * pow2(tb), cb > 0, pow2(tb) > 0;
    } else {
        assert(lo == 0) by (nonlinear_arith) requires lo == cb * pow2(tb), cb == 0;
    }
}

/// The exact product of two finite magnitudes, rounded.
pub(crate) fn mul_magnitudes(f: u32, inf: u64, bias: u32, a: u64, b: u64) -> (k: u64)
    requires
        is_format(f, inf, bias),
        a < inf,
        b < inf,
    ensures
        k == rounded(
            f as nat,
            inf as nat,
            units(f as nat, a as nat) * units(f as nat, b as nat),
            pow2(bias as nat),
        ),
        k <= inf,
{
    let (ca, ta) = split(f, inf, bias, a);
    let (cb, tb) = split(f, inf, bias, b);
    let ghost n = units(f as nat, a as nat) * units(f as nat, b as nat);
    let ghost d = pow2(bias as nat);
    proof {
        lemma_pow2_pos(bias as nat);
        lemma_product_bound(ca as nat, cb as nat);
    }
    let m: u128 = (ca as u128) * (cb as u128);
    let e: i32 = ta as i32 + tb as i32 - bias as i32;
    proof {
        let up = pow2(if e >= 0 { e as nat } else { 0 });
        let down = pow2(if e < 0 { (-e) as nat } else { 0 });
        lemma_pow2_adds(ta as nat, tb as nat);
        lemma_pow2_adds((ta + tb) as nat, if e < 0 { (-e) as nat } else { 0 });
        lemma_pow2_adds(if e >= 0 { e as nat } else { 0 }, bias as nat);
        let pa = pow2(ta as nat);
        let pb = pow2(tb as nat);
        assert(n * down == m * (up * d)) by (nonlinear_arith)
            requires
                n == (ca * pa) * (cb * pb),
                m == ca * cb,
                (pa * pb) * down == up * d;
    }
    round_scaled(f, inf, m, e, false, Ghost(n), Ghost(d))
}

/// Remainders scale with both sides.
proof fn lemma_scaled_remainder(x: nat, y: nat, w: nat)
    requires
        y > 0,
        w > 0,
    ensures
        y * w > 0,
        (x * w) % (y * w) == (x % y) * w,
{
    let q = x / y;
    let r = x % y;
    lemma_fundamental_div_mod(x as int, y as int);
    assert(x == y * q + r);
    assert(0 <= r < y);
    assert(x * w == q * (y * w) + r * w) by (nonlinear_arith) requires x == y * q + r;
    assert(0 <= r * w < y * w) by (nonlinear_arith) requires 0 <= r < y, w > 0;
    lemma_fundamental_div_mod_converse((x * w) as int, (y * w) as int, q as int, (r * w) as int);
}

/// The exact remainder of two finite magnitudes, the second not zero.
pub(crate) fn rem_magnitudes(f: u32, inf: u64, bias: u32, a: u64, b: u64) -> (k: u64)
    requires
        is_format(f, inf, bias),
        a < inf,
        0 < b < inf,
    ensures
        k == rounded(
            f as nat,
            inf as nat,
            units(f as nat, a as nat) % units(f as nat, b as nat),
            1,
        ),
        k <= inf,
{
    let ghost ua = units(f as nat, a as nat);
    let ghost ub = units(f as nat, b as nat);
    let ghost n = ua % ub;
    proof {
        lemma_units_zero(f as nat);
        lemma_units_increase(f as nat, 0, b as nat);
    }
    if a < b {
        proof {
            lemma_units_increase(f as nat, a as nat, b as nat);
            vstd::arithmetic::div_mod::lemma_small_mod(ua, ub);
            lemma_rounded_exact(f as nat, inf as nat, ua, 1, a as nat);
        }
        return a;
    }
    let (ca, ta) = split(f, inf, bias, a);
    let (cb, tb) = split(f, inf, bias, b);
    proof {
        lemma_spacing_monotone(f as nat, b as nat, a as nat);
        assert(cb > 0) by (nonlinear_arith) requires ub == cb * pow2(tb as nat), ub > 0;
        lemma2_to64();
    }
    let mut m: u64 = ca % cb;
    let mut i: u32 = 0;
    assert(ca * pow2(0) == ca) by (nonlinear_arith) requires pow2(0) == 1;
    while i < ta - tb
        invariant
            i <= ta - tb,
            0 < cb < 0x20_0000_0000_0000,
            tb <= ta < 2046,
            m < cb,
            m == (ca * pow2(i as nat)) as nat % cb as nat,
        decreases ta - tb - i,
    {
        proof {
            let x = (ca * pow2(i as nat)) as nat;
            lemma_pow2_unfold((i + 1) as nat);
            assert(ca * pow2((i + 1) as nat) == 2 * x) by (nonlinear_arith)
                requires x == ca * pow2(i as nat), pow2((i + 1) as nat) == 2 * pow2(i as nat);
            vstd::arithmetic::div_mod::lemma_mul_mod_noop_right(2, x as int, cb as int);
        }
        m = (2 * m) % cb;
        i = i + 1;
    }
    proof {
        let d = (ta - tb) as nat;
        let x = (ca * pow2(d)) as nat;
        lemma_pow2_adds(d, tb as nat);
        lemma_pow2_pos(tb as nat);
        assert(ua == x * pow2(tb as nat)) by (nonlinear_arith)
            requires
                ua == ca * pow2(ta as nat),
                x == ca * pow2(d),
                pow2(ta as nat) == pow2(d) * pow2(tb as nat);
        lemma_scaled_remainder(x, cb as nat, pow2(tb as nat));
        assert(n == m * pow2(tb as nat));
        assert(n * pow2(0) == m * (pow2(tb as nat) * 1)) by (nonlinear_arith)
            requires n == m * pow2(tb as nat), pow2(0) == 1;
        lemma_product_bound(m as nat, 1);
        assert(m * 1 == m);
    }
    round_scaled(f, inf, m as u128, tb as i32, false, Ghost(n), Ghost(1))
}

proof fn lemma_product_bound(a: nat, b: nat)
    requires
        a < 0x20_0000_0000_0000,
        b < 0x20_0000_0000_0000,
    ensures
        a * b < pow2(120) <= u128::MAX,
{
    lemma_significand_bound(52);
    lemma2_to64_rest();
    lemma_pow2_adds(53, 53);
    lemma_pow2_strictly_increases(106, 120);
    assert(a * b <= pow2(53) * pow2(53)) by (nonlinear_arith) requires a < pow2(53), b < pow2(53);
}

/// The exact quotient of two finite magnitudes, rounded.
pub(crate) fn div_magnitudes(f: u32, inf: u64, bias: u32, a: u64, b: u64) -> (k: u64)
    requires
        is_format(f, inf, bias),
        a < inf,
        0 < b < inf,
    ensures
        units(f as nat, b as nat) > 0,
        k == rounded(
            f as nat,
            inf as nat,
            units(f as nat, a as nat) * pow2(bias as nat),
            units(f as nat, b as nat),
        ),
        k <= inf,
{
    let (ca, ta) = split(f, inf, bias, a);
    let (cb, tb) = split(f, inf, bias, b);
    let ghost pbias = pow2(bias as nat);
    let ghost n = units(f as nat, a as nat) * pbias;
    let ghost d = units(f as nat, b as nat);
    proof {
        lemma_units_increase(f as nat, 0, b as nat);
        lemma_pow2_pos(tb as nat);
        assert(cb > 0) by (nonlinear_arith) requires d == cb * pow2(tb as nat), d > 0;
    }
    if ca == 0 {
        proof {
            assert(n == 0) by (nonlinear_arith)
                requires n == (ca * pow2(ta as nat)) * pbias, ca == 0;
            lemma2_to64();
            assert(0 * (pow2(0) * d) == 0) by (nonlinear_arith);
            lemma_pow2_pos(120);
        }
        return round_scaled(f, inf, 0, 0, false, Ghost(n), Ghost(d));
    }
    let l: u32 = bit_len(ca as u128);
    proof {
        if l > f + 1 {
            if l - 1 > f + 1 {
                lemma_pow2_strictly_increases((f + 1) as nat, (l - 1) as nat);
            }
        }
    }
    let z: u32 = f + 1 - l;
    let s: u32 = z + 60;
    let ghost ps = pow2(s as nat);
    let ghost num = ca * ps;
    proof {
        // 2^(f + 60) <= num < 2^(f + 61)
        lemma_pow2_pos(s as nat);
        lemma_pow2_adds((l - 1) as nat, s as nat);
        lemma_pow2_adds(l as nat, s as nat);
        assert(num < pow2(l as nat) * ps) by (nonlinear_arith)
            requires num == ca * ps, ca < pow2(l as nat), ps > 0;
        assert(num >= pow2((l - 1) as nat) * ps) by (nonlinear_arith)
            requires num == ca * ps, ca >= pow2((l - 1) as nat);
        lemma_pow2_strictly_increases((f + 61) as nat, 120);
        lemma_significand_bound(f as nat);
        lemma_shl(ca as u128, s as u128);
    }
    let nn: u128 = (ca as u128) << (s as u128);
    let m: u128 = nn / (cb as u128);
    let rem: u128 = nn % (cb as u128);
    let e: i32 = ta as i32 - tb as i32 - s as i32 + bias as i32;
    proof {
        lemma_fundamental_div_mod(nn as int, cb as int);
        assert(m <= nn) by (nonlinear_arith) requires nn == cb * m + rem, cb >= 1, rem >= 0, m >= 0;
        let up = pow2(if e >= 0 { e as nat } else { 0 });
        let down = pow2(if e < 0 { (-e) as nat } else { 0 });
        lemma_pow2_pos(if e >= 0 { e as nat } else { 0 });
        let pa = pow2(ta as nat);
        let pb = pow2(tb as nat);
        // 2^ta * 2^bias * down == 2^s * 2^tb * up
        lemma_pow2_adds(ta as nat, bias as nat);
        lemma_pow2_adds((ta + bias) as nat, if e < 0 { (-e) as nat } else { 0 });
        lemma_pow2_adds(s as nat, tb as nat);
        lemma_pow2_adds((s + tb) as nat, if e >= 0 { e as nat } else { 0 });
        let w = up * pb;
        assert(w > 0) by (nonlinear_arith) requires w == up * pb, up > 0, pb > 0;
        assert(n * down == (cb * m + rem) * w) by (nonlinear_arith)
            requires
                n == (ca * pa) * pbias,
                (pa * pbias) * down == (ps * pb) * up,
                cb * m + rem == ca * ps,
                w == up * pb;
        assert(m * (up * d) == (cb * m) * w) by (nonlinear_arith) requires d == cb * pb, w == up * pb;
        assert((m + 1) * (up * d) == (cb * m + cb) * w) by (nonlinear_arith)
            requires d == cb * pb, w == up * pb;
        assert((cb * m + rem) * w < (cb * m + cb) * w) by (nonlinear_arith) requires rem < cb, w > 0;
        assert(rem > 0 ==> (cb * m) * w < (cb * m + rem) * w) by (nonlinear_arith) requires w > 0;
        assert(denotes(m as nat, e as int, rem > 0, n, d));
        // m has more digits than a significand
        lemma_pow2_adds(59, (f + 1) as nat);
        let p59 = pow2(59);
        lemma_pow2_pos(59);
        assert(m >= p59) by (nonlinear_arith)
            requires
                cb * m + rem >= p59 * pow2((f + 1) as nat),
                rem < cb,
                cb < pow2((f + 1) as nat),
                p59 > 0;
        if f + 1 < 59 {
            lemma_pow2_strictly_increases((f + 1) as nat, 59);
        }
    }
    round_scaled(f, inf, m, e, rem > 0, Ghost(n), Ghost(d))
}

/// A whole number, rounded.
pub(crate) fn from_whole(f: u32, inf: u64, bias: u32, m: u64) -> (k: u64)
    requires
        is_format(f, inf, bias),
    ensures
        k == rounded(f as nat, inf as nat, m as nat * pow2(bias as nat), 1),
        k <= inf,
{
    proof {
        lemma_denotes_whole(m as nat, bias as nat);
        lemma2_to64();
        lemma_pow2_strictly_increases(64, 120);
    }
    round_scaled(f, inf, m as u128, bias as i32, false, Ghost(m as nat * pow2(bias as nat)), Ghost(1))
}

/// The value of a finite magnitude in the format with 52 fraction bits, rounded to the one with
/// 23.
pub(crate) fn narrowed(a: u64) -> (k: u64)
    requires
        a < 0x7ff0_0000_0000_0000,
    ensures
        k == rounded(23, 0x7f80_0000, units(52, a as nat), pow2(925)),
        k <= 0x7f80_0000,
{
    let (c, t) = split(52, 0x7ff0_0000_0000_0000, 1074, a);
    let e: i32 = t as i32 - 925;
    let ghost n = units(52, a as nat);
    proof {
        lemma_pow2_pos(925);
        lemma_shifted(c as nat, 0);
        lemma2_to64();
        let up = pow2(if e >= 0 { e as nat } else { 0 });
        let down = pow2(if e < 0 { (-e) as nat } else { 0 });
        lemma_pow2_adds(t as nat, if e < 0 { (-e) as nat } else { 0 });
        lemma_pow2_adds(if e >= 0 { e as nat } else { 0 }, 925);
        assert(n * down == c * (up * pow2(925))) by (nonlinear_arith)
            requires n == c * pow2(t as nat), pow2(t as nat) * down == up * pow2(925);
    }
    round_scaled(23, 0x7f80_0000, c as u128, e, false, Ghost(n), Ghost(pow2(925)))
}

/// The value of a finite magnitude in the format with 23 fraction bits, in the one with 52.
pub(crate) fn widened(a: u64) -> (k: u64)
    requires
        a < 0x7f80_0000,
    ensures
        k == rounded(52, 0x7ff0_0000_0000_0000, units(23, a as nat) * pow2(925), 1),
        k <= 0x7ff0_0000_0000_0000,
{
    let (c, t) = split(23, 0x7f80_0000, 149, a);
    proof {
        lemma_shifted(c as nat, 0);
        lemma2_to64();
        lemma_pow2_adds(t as nat, 925);
        lemma_denotes_whole(c as nat, (t + 925) as nat);
        assert(c * pow2((t + 925) as nat) == (c * pow2(t as nat)) * pow2(925)) by (nonlinear_arith)
            requires pow2((t + 925) as nat) == pow2(t as nat) * pow2(925);
    }
    round_scaled(
        52,
        0x7ff0_0000_0000_0000,
        c as u128,
        t as i32 + 925,
        false,
        Ghost(units(23, a as nat) * pow2(925)),
        Ghost(1),
    )
}

pub open spec fn saturated(n: nat) -> u64 {
    if n <= u64::MAX {
        n as u64
    } else {
        u64::MAX
    }
}

/// How a value is brought to a whole number.
#[derive(Clone, Copy, PartialEq, Eq, Structural)]
pub enum Whole {
    /// Down.
    Floor,
    /// To the nearest, halves up.
    Nearest,
    /// Up.
    Ceil,
}

/// `n / w` brought to a whole number.
pub open spec fn whole(how: Whole, n: nat, w: nat) -> nat {
    match how {
        Whole::Floor => n / w,
        Whole::Nearest => (2 * n + w) / (2 * w),
        Whole::Ceil => ((n + w - 1) / w as int) as nat,
    }
}

/// A finite magnitude brought to a whole number; numbers beyond 64 bits become the largest of 64
/// bits.
pub(crate) fn to_whole(f: u32, inf: u64, bias: u32, a: u64, how: Whole) -> (r: u64)
    requires
        is_format(f, inf, bias),
        a < inf,
    ensures
        r == saturated(whole(how, units(f as nat, a as nat), pow2(bias as nat))),
{
    let (c, t) = split(f, inf, bias, a);
    let ghost n = units(f as nat, a as nat);
    let ghost w = pow2(bias as nat);
    proof {
        lemma_pow2_pos(bias as nat);
    }
    if t >= bias {
        let s: u32 = t - bias;
        let ghost ps = pow2(s as nat);
        proof {
            lemma_pow2_adds(s as nat, bias as nat);
            lemma_pow2_pos(s as nat);
            assert(n == (c * ps) * w) by (nonlinear_arith)
                requires n == c * pow2(t as nat), pow2(t as nat) == ps * w;
            lemma_whole_of_multiple(how, (c * ps) as nat, w);
        }
        if c == 0 {
            assert(c * ps == 0) by (nonlinear_arith) requires c == 0;
            0
        } else if s >= 64 {
            proof {
                lemma2_to64();
                if s > 64 {
                    lemma_pow2_strictly_increases(64, s as nat);
                }
                assert(c * ps >= ps) by (nonlinear_arith) requires c >= 1;
            }
            u64::MAX
        } else {
            proof {
                lemma_shifted(c as nat, s as nat);
                lemma_shl(c as u128, s as u128);
            }
            let v: u128 = (c as u128) << (s as u128);
            if v > u64::MAX as u128 {
                u64::MAX
            } else {
                v as u64
            }
        }
    } else {
        let s: u32 = bias - t;
        let ghost ps = pow2(s as nat);
        let ghost pt = pow2(t as nat);
        let ghost half = pow2((s - 1) as nat);
        proof {
            lemma_pow2_adds(t as nat, s as nat);
            lemma_pow2_pos(t as nat);
            lemma_pow2_unfold(s as nat);
            lemma_pow2_pos((s - 1) as nat);
            assert(n == c * pt && w == ps * pt) by (nonlinear_arith)
                requires n == c * pt, w == pt * ps;
        }
        if s >= 64 {
            // below one half
            proof {
                lemma2_to64();
                lemma2_to64_rest();
                if s > 64 {
                    lemma_pow2_strictly_increases(64, s as nat);
                }
                assert(2 * n < w) by (nonlinear_arith)
                    requires n == c * pt, w == ps * pt, 2 * c < ps, pt > 0;
                lemma_fundamental_div_mod_converse(n as int, w as int, 0, n as int);
                lemma_fundamental_div_mod_converse((2 * n + w) as int, (2 * w) as int, 0, (2 * n + w) as int);
                if n > 0 {
                    lemma_fundamental_div_mod_converse(n + w - 1, w as int, 1, n - 1);
                } else {
                    lemma_fundamental_div_mod_converse(n + w - 1, w as int, 0, w - 1);
                }
                assert(c == 0 <==> n == 0) by (nonlinear_arith) requires n == c * pt, pt > 0;
            }
            match how {
                Whole::Floor => 0,
                Whole::Nearest => 0,
                Whole::Ceil => if c == 0 {
                    0
                } else {
                    1
                },
            }
        } else {
            proof {
                lemma2_to64();
                lemma_pow2_strictly_increases(s as nat, 64);
                assert(1u128 * ps == ps);
                lemma_shl(1u128, s as u128);
            }
            let one: u128 = 1u128 << (s as u128);
            let top: u128 = match how {
                Whole::Floor => c as u128,
                Whole::Nearest => c as u128 + one / 2,
                Whole::Ceil => c as u128 + (one - 1),
            };
            proof {
                lemma_u128_shr_is_div(top, s as u128);
                let q = top as nat / ps;
                let r = top as nat % ps;
                lemma_fundamental_div_mod(top as int, ps as int);
                assert(top == ps * q + r);
                match how {
                    Whole::Floor => {
                        assert(n == q * w + r * pt) by (nonlinear_arith)
                            requires n == c * pt, w == ps * pt, c == ps * q + r;
                        assert(0 <= r * pt < w) by (nonlinear_arith)
                            requires w == ps * pt, 0 <= r < ps, pt > 0;
                        lemma_fundamental_div_mod_converse(n as int, w as int, q as int, (r * pt) as int);
                    },
                    Whole::Nearest => {
                        let r2 = 2 * (r * pt);
                        assert(2 * n + w == q * (2 * w) + r2) by (nonlinear_arith)
                            requires
                                n == c * pt,
                                w == ps * pt,
                                ps == 2 * half,
                                c + half == ps * q + r,
                                r2 == 2 * (r * pt);
                        assert(0 <= r * pt < w) by (nonlinear_arith)
                            requires w == ps * pt, 0 <= r < ps, pt > 0;
                        lemma_fundamental_div_mod_converse((2 * n + w) as int, (2 * w) as int, q as int, r2 as int);
                    },
                    Whole::Ceil => {
                        let r3 = r * pt + pt - 1;
                        assert(n + w - 1 == q * w + r3) by (nonlinear_arith)
                            requires
                                n == c * pt,
                                w == ps * pt,
                                c + ps - 1 == ps * q + r,
                                r3 == r * pt + pt - 1;
                        assert(0 <= r3 < w) by (nonlinear_arith)
                            requires w == ps * pt, 0 <= r < ps, pt > 0, r3 == r * pt + pt - 1;
                        lemma_fundamental_div_mod_converse(n + w - 1, w as int, q as int, r3);
                    },
                }
                assert(q <= top) by (nonlinear_arith)
                    requires top == ps * q + r, ps >= 1, r >= 0;
                assert(top < 0x1_0000_0000_0000_0000 + 0x20_0000_0000_0000);
                assert(q <= u64::MAX) by (nonlinear_arith)
                    requires
                        top == ps * q + r,
                        r >= 0,
                        ps >= 2,
                        top < 0x1_0000_0000_0000_0000 + 0x20_0000_0000_0000;
            }
            (top >> (s as u128)) as u64
        }
    }
}

/// What is at most `k` rounds to at most `k`.
pub proof fn lemma_whole_at_most(n: nat, w: nat, k: nat)
    requires
        w > 0,
        n <= k * w,
    ensures
        whole(Whole::Nearest, n, w) <= k,
{
    lemma_whole_of_multiple(Whole::Nearest, k, w);
    vstd::arithmetic::div_mod::lemma_div_is_ordered(
        (2 * n + w) as int,
        (2 * (k * w) + w) as int,
        (2 * w) as int,
    );
}

pub proof fn lemma_whole_of_multiple(how: Whole, q: nat, w: nat)
    requires
        w > 0,
    ensures
        whole(how, q * w, w) == q,
{
    let n = q * w;
    assert(n == w * q) by (nonlinear_arith) requires n == q * w;
    lemma_fundamental_div_mod_converse(n as int, w as int, q as int, 0);
    assert(2 * n + w == q * (2 * w) + w) by (nonlinear_arith) requires n == q * w;
    lemma_fundamental_div_mod_converse((2 * n + w) as int, (2 * w) as int, q as int, w as int);
    lemma_fundamental_div_mod_converse(n + w - 1, w as int, q as int, w - 1);
}

/// `k` is the magnitude (23 fraction bits) nearest to the square root of `n`, in units; of two
/// equally near ones, the even one.
pub open spec fn is_nearest_root(n: nat, k: nat) -> bool {
    &&& k <= 0x7f80_0000
    &&& k > 0 ==> {
        let mid = units(23, (k - 1) as nat) + units(23, k);
        if k % 2 == 0 { mid * mid <= 4 * n } else { mid * mid < 4 * n }
    }
    &&& k < 0x7f80_0000 ==> {
        let mid = units(23, k) + units(23, k + 1);
        if k % 2 == 0 { 4 * n <= mid * mid } else { 4 * n < mid * mid }
    }
}

/// The magnitude that the square root of `n`, in units, rounds to.
pub open spec fn root(n: nat) -> nat {
    choose|k: nat| is_nearest_root(n, k)
}

proof fn lemma_root_unique(n: nat, j: nat, k: nat)
    requires
        is_nearest_root(n, j),
        is_nearest_root(n, k),
    ensures
        j == k,
{
    let (a, b) = if j < k { (j, k) } else { (k, j) };
    if a < b {
        let hi = units(23, a) + units(23, a + 1);
        let lo = units(23, (b - 1) as nat) + units(23, b);
        if a + 1 < b {
            lemma_units_increase(23, a, (b - 1) as nat);
            lemma_units_increase(23, a + 1, b);
            assert(hi * hi < lo * lo) by (nonlinear_arith) requires hi < lo;
        }
    }
}

proof fn lemma_root_from(n: nat, k: nat)
    requires
        k <= 0x7f80_0000,
        k > 0 ==> {
            let mid = units(23, (k - 1) as nat) + units(23, k);
            if k % 2 == 0 { mid * mid <= 4 * n } else { mid * mid < 4 * n }
        },
    ensures
        exists|r: nat| is_nearest_root(n, r),
    decreases 0x7f80_0000 - k,
{
    if is_nearest_root(n, k) {
    } else {
        lemma_root_from(n, k + 1);
    }
}

/// The root of what is at most the square of a magnitude is at most that magnitude.
pub proof fn lemma_root_at_most(n: nat, k: nat)
    requires
        n <= units(23, k) * units(23, k),
        k < 0x7f80_0000,
    ensures
        root(n) <= k,
{
    lemma_root_from(n, 0);
    let r = root(n);
    assert(is_nearest_root(n, r));
    if r > k {
        let u = units(23, k);
        let mid = units(23, (r - 1) as nat) + units(23, r);
        lemma_units_increase(23, k, r);
        if r - 1 > k {
            lemma_units_increase(23, k, (r - 1) as nat);
        }
        assert(mid > 2 * u);
        assert(mid * mid > 4 * (u * u)) by (nonlinear_arith) requires mid > 2 * u;
    }
}

/// The root of what is at least the square of a magnitude is at least that magnitude.
pub proof fn lemma_root_at_least(n: nat, k: nat)
    requires
        n >= units(23, k) * units(23, k),
        k < 0x7f80_0000,
    ensures
        k <= root(n) <= 0x7f80_0000,
{
    lemma_root_from(n, 0);
    let r = root(n);
    assert(is_nearest_root(n, r));
    if r < k {
        let u = units(23, k);
        let mid = units(23, r) + units(23, r + 1);
        lemma_units_increase(23, r, k);
        if r + 1 < k {
            lemma_units_increase(23, r + 1, k);
        }
        assert(mid < 2 * u);
        assert(mid * mid < 4 * (u * u)) by (nonlinear_arith) requires mid < 2 * u;
    }
}

/// The integer square root.
fn whole_root(c: u64) -> (m: u64)
    requires
        c < 0x1000_0000_0000_0000,
    ensures
        m * m <= c < (m + 1) * (m + 1),
        m <= 0x4000_0000,
{
    let mut m: u64 = 0;
    let mut step: u64 = 0x4000_0000;
    let ghost mut i: int = 30;
    proof {
        lemma2_to64();
    }
    while step > 0
        invariant
            c < 0x1000_0000_0000_0000,
            m + 2 * step <= 0x8000_0000,
            m * m <= c,
            -1 <= i <= 30,
            step == (if i >= 0 { pow2(i as nat) } else { 0 }),
            step > 0 ==> c < (m + 2 * step) * (m + 2 * step),
            step == 0 ==> c < (m + 1) * (m + 1),
        decreases step,
    {
        let x: u64 = m + step;
        proof {
            assert(x * x <= 0x8000_0000 * 0x8000_0000) by (nonlinear_arith) requires x <= 0x8000_0000;
            lemma2_to64();
            if i > 0 {
                lemma_pow2_unfold(i as nat);
                lemma_pow2_pos((i - 1) as nat);
            }
            i = i - 1;
        }
        if x * x <= c {
            m = x;
        }
        step = step / 2;
    }
    proof {
        assert(m <= 0x4000_0000) by (nonlinear_arith)
            requires m * m <= c, c < 0x1000_0000_0000_0000;
    }
    m
}

/// The grid around a value of at least `2^(29 + e)` units is a multiple of `2^(e + 1)`.
proof fn lemma_coarse(j: nat, e: nat)
    requires
        units(23, j + 1) + units(23, j + 2) >= pow2(30 + e),
    ensures
        spacing(23, j) >= e + 1,
{
    if spacing(23, j) < e + 1 {
        let t = spacing(23, j);
        lemma_parts(23, j);
        let c = (j - t * pow2(23)) as nat;
        lemma_units_of_parts(23, t, c);
        lemma_units_step(23, j);
        lemma_units_step(23, j + 1);
        lemma2_to64();
        lemma_fundamental_div_mod(j as int, pow2(23) as int);
        lemma_fundamental_div_mod((j + 1) as int, pow2(23) as int);
        assert(spacing(23, j + 1) <= t + 1);
        if t < e {
            lemma_pow2_strictly_increases(t, e);
        }
        if spacing(23, j + 1) < e + 1 {
            lemma_pow2_strictly_increases(spacing(23, j + 1), e + 1);
        }
        lemma_pow2_unfold(e + 1);
        lemma_pow2_adds(30, e);
        let pe = pow2(e);
        lemma_pow2_pos(e);
        assert(c * pow2(t) <= 0x100_0000 * pe) by (nonlinear_arith)
            requires c < 0x100_0000, pow2(t) <= pe;
        assert(pow2(30 + e) == 0x4000_0000 * pe);
        assert(false);
    }
}

/// Both midpoints around such a value are multiples of `2^(e + 1)`.
proof fn lemma_mid_multiple(j: nat, e: nat) -> (r: nat)
    requires
        spacing(23, j) >= e + 1,
    ensures
        units(23, j) + units(23, j + 1) == r * pow2(e + 1),
{
    let t = spacing(23, j);
    let c = (j - t * pow2(23)) as nat;
    lemma_parts(23, j);
    lemma_units_step(23, j);
    let u = (t - (e + 1)) as nat;
    lemma_pow2_adds(u, e + 1);
    let r = (2 * c + 1) * pow2(u);
    assert(c * pow2(t) + (c * pow2(t) + pow2(t)) == r * pow2(e + 1)) by (nonlinear_arith)
        requires pow2(t) == pow2(u) * pow2(e + 1), r == (2 * c + 1) * pow2(u);
    r
}

/// The square root of a finite magnitude (23 fraction bits), rounded.
pub(crate) fn sqrt_magnitude(a: u64) -> (k: u64)
    requires
        a < 0x7f80_0000,
    ensures
        k == root(units(23, a as nat) * pow2(149)),
        k <= 0x7f80_0000,
{
    let (c, t) = split(23, 0x7f80_0000, 149, a);
    let ghost nn = units(23, a as nat) * pow2(149);
    proof {
        lemma2_to64();
    }
    if c == 0 {
        proof {
            assert(nn == 0) by (nonlinear_arith)
                requires nn == (c * pow2(t as nat)) * pow2(149), c == 0;
            let mid = units(23, 0) + units(23, 1);
            assert(mid * mid >= 0) by (nonlinear_arith);
            assert(is_nearest_root(nn, 0));
            lemma_root_unique(nn, 0, root(nn));
        }
        return 0;
    }
    let l: u32 = bit_len(c as u128);
    proof {
        if l > 24 {
            if l - 1 > 24 {
                lemma_pow2_strictly_increases(24, (l - 1) as nat);
            }
        }
    }
    let s0: u32 = 60 - l;
    let s: u32 = if (t + 149 - s0) % 2 == 0 {
        s0
    } else {
        s0 - 1
    };
    let ghost ps = pow2(s as nat);
    proof {
        // 2^58 <= c * 2^s < 2^60
        lemma2_to64_rest();
        lemma_pow2_adds(l as nat, s as nat);
        lemma_pow2_adds((l - 1) as nat, s as nat);
        lemma_pow2_pos(s as nat);
        assert(c * ps < pow2(l as nat) * ps) by (nonlinear_arith)
            requires c < pow2(l as nat), ps > 0;
        assert(c * ps >= pow2((l - 1) as nat) * ps) by (nonlinear_arith)
            requires c >= pow2((l - 1) as nat);
        assert(l + s == 60 || l + s == 59);
        lemma_u64_shl_is_mul(c, s as u64);
    }
    let cc: u64 = c << (s as u64);
    let m: u64 = whole_root(cc);
    proof {
        assert(m >= 0x2000_0000) by (nonlinear_arith)
            requires cc >= 0x0400_0000_0000_0000, cc < (m + 1) * (m + 1);
        assert(m * m <= 0x4000_0000 * 0x4000_0000) by (nonlinear_arith) requires m <= 0x4000_0000;
    }
    let tail: bool = m * m != cc;
    assert(t <= 253);
    let e: u32 = (t + 149 - s) / 2;
    let ghost pe = pow2(e as nat);
    let ghost n = if tail { (2 * m + 1) * pe } else { m * pe } as nat;
    let ghost d: nat = if tail { 2 } else { 1 };
    proof {
        lemma_pow2_pos(e as nat);
        lemma_pow2_adds(e as nat, e as nat);
        lemma_pow2_adds(t as nat, 149);
        lemma_pow2_adds(s as nat, (2 * e) as nat);
        assert(nn == cc * (pe * pe)) by (nonlinear_arith)
            requires
                nn == (c * pow2(t as nat)) * pow2(149),
                pow2(t as nat) * pow2(149) == ps * (pe * pe),
                cc == c * ps;
        assert(m * (pe * 2) < (2 * m + 1) * pe) by (nonlinear_arith) requires pe > 0;
        assert((2 * m + 1) * pe < (m + 1) * (pe * 2)) by (nonlinear_arith) requires pe > 0;
        assert(n * 1 == n);
        assert(pe * 1 == pe);
        lemma_pow2_strictly_increases(64, 120);
    }
    let k: u64 = round_scaled(23, 0x7f80_0000, m as u128, e as i32, tail, Ghost(n), Ghost(d));
    proof {
        lemma_root_of_proxy(nn, cc as nat, m as nat, e as nat, tail, n, d, k as nat);
        lemma_root_unique(nn, k as nat, root(nn));
    }
    k
}

proof fn lemma_root_of_proxy(nn: nat, cc: nat, m: nat, e: nat, tail: bool, n: nat, d: nat, k: nat)
    requires
        nn == cc * (pow2(e) * pow2(e)),
        m * m <= cc < (m + 1) * (m + 1),
        tail == (m * m != cc),
        m >= 0x2000_0000,
        m <= 0x4000_0000,
        e <= 190,
        tail ==> n == (2 * m + 1) * pow2(e) && d == 2,
        !tail ==> n == m * pow2(e) && d == 1,
        is_nearest(23, 0x7f80_0000, n, d, k),
    ensures
        is_nearest_root(nn, k),
{
    let pe = pow2(e);
    lemma_pow2_pos(e);
    lemma_pow2_unfold(e + 1);
    let p1 = pow2(e + 1);
    lemma2_to64();
    lemma_pow2_adds(30, e);
    // the grid is coarse there
    assert(2 * n >= pow2(30 + e) * d) by (nonlinear_arith)
        requires
            pow2(30 + e) == 0x4000_0000 * pe,
            m >= 0x2000_0000,
            n == (2 * m + 1) * pe && d == 2 || n == m * pe && d == 1;
    let above = units(23, k) + units(23, k + 1);
    if k < 0x7f80_0000 {
        assert(above >= pow2(30 + e)) by (nonlinear_arith)
            requires 2 * n <= above * d, 2 * n >= pow2(30 + e) * d, d > 0;
    } else {
        lemma_units_of_parts(23, 253, 0x100_0000);
        assert(253 * pow2(23) + 0x100_0000 == 0x7f80_0000);
        lemma_units_step(23, k);
        lemma_pow2_adds(24, 253);
        lemma_pow2_strictly_increases(30 + e, 277);
    }
    if k == 0 {
        lemma_units_of_parts(23, 0, 0);
        assert(0 * pow2(23) + 0 == 0);
        lemma_units_step(23, 0);
        lemma_pow2_strictly_increases(0, 30 + e);
        assert(above == 1);
        assert(false);
    }
    let j = (k - 1) as nat;
    lemma_coarse(j, e);
    lemma_spacing_monotone(23, j, k);
    let r = lemma_mid_multiple(j, e);
    let lo = units(23, j) + units(23, k);
    assert(lo == r * p1);
    let sq = pe * pe;
    assert(sq > 0) by (nonlinear_arith) requires sq == pe * pe, pe > 0;
    assert(r <= m) by (nonlinear_arith)
        requires
            lo * d <= 2 * n,
            lo == r * p1,
            p1 == 2 * pe,
            pe > 0,
            n == (2 * m + 1) * pe && d == 2 || n == m * pe && d == 1;
    assert(lo * lo == 4 * (r * r) * sq) by (nonlinear_arith)
        requires lo == r * p1, p1 == 2 * pe, sq == pe * pe;
    assert(r * r <= m * m) by (nonlinear_arith) requires r <= m;
    assert(4 * (r * r) * sq <= 4 * (cc * sq)) by (nonlinear_arith)
        requires r * r <= m * m, m * m <= cc, sq > 0;
    if tail {
        assert(4 * (r * r) * sq < 4 * (cc * sq)) by (nonlinear_arith)
            requires r * r <= m * m, m * m < cc, sq > 0;
    } else if k % 2 == 1 {
        assert(r < m) by (nonlinear_arith)
            requires lo * 1 < 2 * (m * pe), lo == r * p1, p1 == 2 * pe, pe > 0;
        assert(r * r < m * m) by (nonlinear_arith) requires r < m;
        assert(4 * (r * r) * sq < 4 * (cc * sq)) by (nonlinear_arith)
            requires r * r < m * m, m * m == cc, sq > 0;
    }
    if k < 0x7f80_0000 {
        let q = lemma_mid_multiple(k, e);
        assert(above * above == 4 * (q * q) * sq) by (nonlinear_arith)
            requires above == q * p1, p1 == 2 * pe, sq == pe * pe;
        if tail {
            assert(q >= m + 1) by (nonlinear_arith)
                requires 2 * ((2 * m + 1) * pe) <= above * 2, above == q * p1, p1 == 2 * pe, pe > 0;
            assert(q * q >= (m + 1) * (m + 1)) by (nonlinear_arith) requires q >= m + 1;
            assert(4 * (q * q) * sq > 4 * (cc * sq)) by (nonlinear_arith)
                requires q * q > cc, sq > 0;
        } else {
            assert(q >= m) by (nonlinear_arith)
                requires 2 * (m * pe) <= above * 1, above == q * p1, p1 == 2 * pe, pe > 0;
            assert(q * q >= m * m) by (nonlinear_arith) requires q >= m;
            assert(4 * (q * q) * sq >= 4 * (cc * sq)) by (nonlinear_arith)
                requires q * q >= cc, sq > 0;
            if k % 2 == 1 {
                assert(q > m) by (nonlinear_arith)
                    requires 2 * (m * pe) < above * 1, above == q * p1, p1 == 2 * pe, pe > 0;
                assert(q * q > m * m) by (nonlinear_arith) requires q > m;
                assert(4 * (q * q) * sq > 4 * (cc * sq)) by (nonlinear_arith)
                    requires q * q > cc, sq > 0;
            }
        }
    }
}

/// A magnitude of the grid is worth at least `2^f` times the spacing above it, but for the finest
/// spacing.
pub proof fn lemma_spacing_part(f: nat, k: nat)
    ensures
        pow2(f) * pow2(spacing(f, k)) <= units(f, k) + pow2(f),
{
    let (p, t) = (pow2(f), spacing(f, k));
    lemma_parts(f, k);
    lemma_pow2_pos(f);
    if t == 0 {
        lemma2_to64();
    } else {
        let c = (k - t * p) as nat;
        lemma_pow2_pos(t);
        assert(p * pow2(t) <= c * pow2(t)) by (nonlinear_arith) requires p <= c;
    }
}

/// A rounded value is at most the value, a part of it by the bits of the format, and half a unit.
pub proof fn lemma_rounded_above(f: nat, inf: nat, n: nat, d: nat)
    ensures
        2 * pow2(f) * (units(f, rounded(f, inf, n, d)) * d) <= (2 * pow2(f) + 1) * n + pow2(f) * d,
{
    let p = pow2(f);
    let k = rounded(f, inf, n, d);
    lemma_rounded_nearest(f, inf, n, d);
    lemma_units_zero(f);
    if k > 0 {
        let j = (k - 1) as nat;
        let (u, g) = (units(f, j), pow2(spacing(f, j)));
        lemma_units_step(f, j);
        lemma_spacing_part(f, j);
        assert(units(f, k) == u + g);
        assert((u + (u + g)) * d <= 2 * n);
        assert(2 * p * ((u + g) * d) <= (2 * p + 1) * n + p * d) by (nonlinear_arith)
            requires (u + (u + g)) * d <= 2 * n, p * g <= u + p, p >= 0, d >= 0, u >= 0, g >= 0;
    } else {
        assert(2 * p * (0 * d) == 0) by (nonlinear_arith);
        assert((2 * p + 1) * n + p * d >= 0) by (nonlinear_arith)
            requires p >= 0, n >= 0, d >= 0;
    }
}

/// A whole number of units is at most its rounded value and a part of that by the bits of the
/// format, where it is finite.
pub proof fn lemma_rounded_below(f: nat, inf: nat, n: nat)
    requires
        rounded(f, inf, n, 1) < inf,
    ensures
        2 * pow2(f) * n <= (2 * pow2(f) + 1) * units(f, rounded(f, inf, n, 1)),
{
    let p = pow2(f);
    let k = rounded(f, inf, n, 1);
    let (u, t) = (units(f, k), spacing(f, k));
    lemma_rounded_nearest(f, inf, n, 1);
    lemma_units_step(f, k);
    lemma_spacing_part(f, k);
    lemma_pow2_pos(f);
    assert(2 * n <= u + (u + pow2(t)));
    if t == 0 {
        lemma2_to64();
        assert(n <= u);
        assert(2 * p * n <= (2 * p + 1) * u) by (nonlinear_arith) requires n <= u, p >= 0;
    } else {
        lemma_parts(f, k);
        let c = (k - t * p) as nat;
        lemma_pow2_pos(t);
        assert(p * pow2(t) <= c * pow2(t)) by (nonlinear_arith) requires p <= c;
        assert(2 * p * n <= (2 * p + 1) * u) by (nonlinear_arith)
            requires 2 * n <= u + (u + pow2(t)), p * pow2(t) <= u, p >= 0;
    }
}

/// A significand of the format times a power of two is on the grid.
pub proof fn lemma_on_grid(f: nat, c: nat, t: nat) -> (k: nat)
    requires
        c < 2 * pow2(f),
    ensures
        units(f, k) == c * pow2(t),
        k < (t + 2) * pow2(f),
    decreases t,
{
    lemma_pow2_pos(f);
    if t == 0 || c >= pow2(f) {
        lemma_units_of_parts(f, t, c);
        assert(t * pow2(f) + c < (t + 2) * pow2(f)) by (nonlinear_arith)
            requires c < 2 * pow2(f);
        t * pow2(f) + c
    } else {
        let k = lemma_on_grid(f, 2 * c, (t - 1) as nat);
        lemma_pow2_unfold(t);
        assert((2 * c) * pow2((t - 1) as nat) == c * (2 * pow2((t - 1) as nat)))
            by (nonlinear_arith);
        assert((t - 1 + 2) * pow2(f) <= (t + 2) * pow2(f)) by (nonlinear_arith);
        k
    }
}

/// What is at least a magnitude is worth a multiple of its spacing.
pub proof fn lemma_multiple(f: nat, k: nat, t: nat) -> (c: nat)
    requires
        t * pow2(f) + pow2(f) <= k,
    ensures
        units(f, k) == c * pow2(t),
{
    let s = spacing(f, k);
    lemma_pow2_pos(f);
    lemma_parts(f, k);
    assert(t <= s) by (nonlinear_arith)
        requires t * pow2(f) + pow2(f) <= k, k < s * pow2(f) + 2 * pow2(f), pow2(f) > 0;
    let c = (k - s * pow2(f)) as nat;
    lemma_pow2_adds((s - t) as nat, t);
    assert(c * pow2(s) == (c * pow2((s - t) as nat)) * pow2(t)) by (nonlinear_arith)
        requires pow2(s) == pow2((s - t) as nat) * pow2(t);
    c * pow2((s - t) as nat)
}

} // verus!
