//! What a frame of the analysis holds, and how sound becomes what is transformed.
use vstd::arithmetic::power2::{lemma2_to64, lemma_pow2_adds, lemma_pow2_pos, pow2};
use vstd::prelude::*;

use crate::accuracy::{lemma_over_error, size};
use crate::analysis::{
    band_bins, bin_width, centroid, displayed, level, span_of, spectrum_bins, AnalyzerConfig,
    AnalyzerModel, BandModel,
};
use crate::double::Double;
use crate::genre_laws::lemma_zero_product;
use crate::core_laws::lemma_whole_difference;
use crate::level_laws::lemma_slow_decay;
use crate::measure_laws::lemma_bin_at;
use crate::order::{
    lemma_fraction, lemma_of, lemma_product, lemma_quotient, lemma_same, lemma_share,
    lemma_times_share, lemma_whole_exact, lemma_whole_quotient, lemma_whole_sum, lemma_worth,
    lemma_zero_one,
};
use crate::rounding::{lemma_on_grid, lemma_rounded_exact};
use crate::single::{Single, INF};

verus! {

/// A frame says of each band what the band reads, from the lowest band to the highest, and of the
/// whole hop its level, its loudness, its centroid and its spectrum.
pub proof fn lemma_frame_fields(m: AnalyzerModel, mags: Seq<Single>, i: int)
    requires
        0 <= i < 4,
    ensures
        ({
            let (f, r) = (m.output(mags).frame, m.readings(mags)[i]);
            &&& f.band_energy.len() == 4 && f.band_energy[i] == r.energy
            &&& f.band_flux.len() == 4 && f.band_flux[i] == r.flux
            &&& f.band_threshold.len() == 4 && f.band_threshold[i] == r.threshold
            &&& f.band_flux_mean.len() == 4 && f.band_flux_mean[i] == r.mean
            &&& f.band_flux_std.len() == 4 && f.band_flux_std[i] == r.deviation
            &&& f.band_flux_max.len() == 4 && f.band_flux_max[i] == r.flux_max
            &&& f.rms == m.relative_level() && f.intensity == m.envelope()
            &&& f.intensity == m.processed(mags).rms_env
            &&& f.spectral_centroid == centroid(mags, bin_width(m.rate))
            &&& f.spectrum == displayed(mags, m.ranges, m.spectrum_max).0
        }),
{
}

/// The mean of the flux is displayed as a share of the peak, too.
pub proof fn lemma_mean_share(
    b: BandModel,
    config: AnalyzerConfig,
    i: int,
    power: Single,
    flux: Single,
    total: Single,
    now: Double,
)
    requires
        b.mean().is_plain(),
        b.after(config, i, power, flux, total, now).flux_max.is_plain(),
        b.after(config, i, power, flux, total, now).flux_max.magnitude() > 0,
        b.mean().le(b.after(config, i, power, flux, total, now).flux_max),
    ensures
        ({
            let r = b.reading(config, i, power, flux, total, now);
            let peak = r.flux_max;
            &&& r.mean.is_share()
            &&& size(r.mean.worth() * peak.worth() - b.mean().worth() * pow2(149)) <= pow2(129)
                * peak.worth()
        }),
{
    let peak = b.after(config, i, power, flux, total, now).flux_max;
    let mean = b.mean();
    lemma_zero_one();
    lemma_share(mean, peak);
    lemma_worth(mean, peak);
    lemma_worth(peak, peak);
    lemma_over_error(mean, peak);
    assert(mean.over(peak).clamp(Single::of_whole(0), Single::of_whole(1)) == mean.over(peak));
}

/// The peak level never lies below the level of the hop nor below 1/10000, and without anything as
/// loud it loses three hundred-thousandths per hop.
pub proof fn lemma_level_peak(m: AnalyzerModel)
    requires
        level(m.input.skip(1536)).is_plain(),
        m.rms_max.is_plain(),
        0x100_0000 <= m.rms_max.worth(),
    ensures
        ({
            let (p, now, old) = (m.level_peak(), level(m.input.skip(1536)), m.rms_max);
            let least = Single::fraction(1, 10000);
            &&& now.le(p) && least.le(p)
            &&& p == now || p == least || 0x4_0000 * size(100000 * p.worth() - 99997 * old.worth())
                <= 100000 * old.worth()
        }),
{
    lemma_fraction(1, 1, 10000, 1);
    lemma_slow_decay(m.rms_max, 99997, 100000);
}

/// A hop moves the window on by 512 samples: what was heard moves to the front, and the oldest
/// samples that wait come behind it.
pub proof fn lemma_slid_window(m: AnalyzerModel, i: int)
    requires
        m.input.len() == 2048,
        m.pending.len() >= 512,
    ensures
        ({
            let n = m.slid();
            &&& n.input.len() == 2048 && n.pending.len() == m.pending.len() - 512
            &&& 0 <= i < 1536 ==> n.input[i] == m.input[i + 512]
            &&& 0 <= i < 512 ==> n.input[1536 + i] == m.pending[i]
            &&& 0 <= i < n.pending.len() ==> n.pending[i] == m.pending[i + 512]
            &&& n.samples == m.samples + 512 && n.hops == m.hops + 1
        }),
{
}

/// The window hides the ends of what is transformed and shows its middle: where the cosine of the
/// angle is 1 nothing is left of a sample, where it is 0 half of it, and where it is -1 all of it.
pub proof fn lemma_window(
    rate: Single,
    config: AnalyzerConfig,
    cosines: Seq<Single>,
    powers: Seq<Single>,
    weights: Seq<Single>,
    i: int,
)
    requires
        0 <= i < 2048,
        cosines.len() == 2048,
    ensures
        ({
            let m = AnalyzerModel::initial(rate, config, cosines, powers, weights);
            let one = Single::of_whole(1);
            &&& m.window.len() == 2048
            &&& cosines[i] == one ==> m.window[i].magnitude() == 0
            &&& cosines[i] == Single::of_whole(0) ==> m.window[i] == Single::fraction(1, 2)
            &&& cosines[i] == one.neg() ==> m.window[i] == one
        }),
{
    let (zero, one, half) = (Single::of_whole(0), Single::of_whole(1), Single::fraction(1, 2));
    lemma_zero_one();
    lemma_fraction(1, 1, 2, 1);
    lemma_times_share(one, half);
    lemma_whole_difference(1, 1);
    lemma_whole_difference(0, 1);
    lemma_zero_product(half, zero);
    if cosines[i] == one.neg() {
        lemma_opposite(one);
        assert(one.neg().neg() == one);
        lemma_whole_sum(1, 1);
        assert(one.minus(one.neg()) == Single::of_whole(2));
        lemma_half_of_two();
    }
}

proof fn lemma_opposite(x: Single)
    requires
        x.is_plain(),
    ensures
        x.neg().neg() == x,
{
    lemma_of(true, x.magnitude());
    lemma_of(false, x.magnitude());
    lemma_same(x.neg().neg(), x);
}

proof fn lemma_half_of_two()
    ensures
        Single::fraction(1, 2).times(Single::of_whole(2)) == Single::of_whole(1),
{
    let u = pow2(149);
    let (half, two, one) = (Single::fraction(1, 2), Single::of_whole(2), Single::of_whole(1));
    lemma2_to64();
    lemma_pow2_pos(149);
    lemma_pow2_adds(148, 1);
    lemma_whole_exact(1);
    lemma_whole_exact(2);
    lemma_fraction(1, 1, 2, 1);
    lemma_worth(two, two);
    lemma_quotient(one, two);
    let k = lemma_on_grid(23, 1, 148);
    assert((1 * u) * u == 1 * pow2(148) * (2 * u)) by (nonlinear_arith) requires u == pow2(148) * 2;
    lemma_rounded_exact(23, INF as nat, (1 * u) * u, 2 * u, k);
    lemma_product(half, two);
    assert((1 * pow2(148)) * (2 * u) == (1 * u) * u) by (nonlinear_arith)
        requires u == pow2(148) * 2;
    lemma_rounded_exact(23, INF as nat, (1 * u) * u, u, one.magnitude());
    lemma_same(half.times(two), one);
}

/// The displayed spectrum ends at 16 kHz, 400 times its beginning, where the sample rate reaches
/// that far.
pub proof fn lemma_span(rate: Single)
    requires
        Single::of_whole(16000).le(rate.over(Single::of_whole(2)).minus(bin_width(rate))),
    ensures
        span_of(rate) == Single::of_whole(400),
{
    lemma_whole_quotient(400, 40);
}

/// Each band begins where the one below it ends: band `i` goes from the bin nearest to edge `i` to
/// the bin nearest to the next edge, at new settings, too.
pub proof fn lemma_band_edges(
    config: AnalyzerConfig,
    rate: nat,
    m: AnalyzerModel,
    i: int,
    k: nat,
    n: nat,
)
    requires
        0 <= i < 4,
        0 < rate < 0x100_0000,
        m.rate == Single::of_whole(rate),
        lies_at(config.bands.edges@[i], rate, k),
        lies_at(config.bands.edges@[i + 1], rate, n),
    ensures
        band_bins(config, Single::of_whole(rate), i) == (k, n),
        m.configured(config).bands[i].bins == (k, n),
        i > 0 ==> band_bins(config, Single::of_whole(rate), i - 1).1 == k,
{
    lemma_bin_at(config.bands.edges@[i], rate, k);
    lemma_bin_at(config.bands.edges@[i + 1], rate, n);
}

/// A frequency lies at most a quarter of a bin from bin `k`.
pub open spec fn lies_at(hz: Single, rate: nat, k: nat) -> bool {
    hz.is_plain() && 1 <= k <= 1024 && (4 * k - 1) * rate * pow2(149) <= 8192 * hz.worth() <= (4 * k
        + 1) * rate * pow2(149)
}

/// A place of the displayed spectrum begins at the bin of its frequency, 40 Hz times its power, and
/// ends where the next one begins, or after one bin where that is the same.
pub proof fn lemma_spectrum_bins(powers: Seq<Single>, rate: nat, i: int, k: nat, n: nat)
    requires
        0 < rate < 0x100_0000,
        lies_at(Single::of_whole(40).times(powers[i]), rate, k),
        lies_at(Single::of_whole(40).times(powers[i + 1]), rate, n),
    ensures
        spectrum_bins(powers, Single::of_whole(rate), i).0 == k,
        spectrum_bins(powers, Single::of_whole(rate), i + 1).0 == n,
        k < n ==> spectrum_bins(powers, Single::of_whole(rate), i).1 == n,
        k >= n ==> spectrum_bins(powers, Single::of_whole(rate), i).1 == k + 1,
{
    lemma_bin_at(Single::of_whole(40).times(powers[i]), rate, k);
    lemma_bin_at(Single::of_whole(40).times(powers[i + 1]), rate, n);
}

} // verus!
