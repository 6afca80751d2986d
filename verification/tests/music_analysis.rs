use std::sync::Arc;

use huebeat::analysis::{
    spectrum_span, window_angles, Analyzer, AnalyzerConfig, HopOutput, Tables, FFT_SIZE, HALF,
    SPECTRUM_BINS,
};
use huebeat::core_types::{
    display_exponent, AnalysisFrame, Band, BandBeatEvent, TempoEstimate, ThresholdMode,
};
use huebeat::single::Single;
use huebeat::tempo::{lag_tempos, tempo_ratio, weight_exponent, TempoTracker};
use rustfft::num_complex::Complex;
use rustfft::Fft;

fn s(x: f32) -> Single {
    Single { bits: x.to_bits() }
}

fn f(x: Single) -> f32 {
    f32::from_bits(x.bits)
}

/// An analyzer with the transform and the tables that it asks for.
struct Feeder {
    analyzer: Analyzer,
    fft: Arc<dyn Fft<f32>>,
}

fn tables(sample_rate: u32) -> Tables {
    let span = f(spectrum_span(sample_rate));
    Tables {
        cosines: window_angles().into_iter().map(|x| s(f(x).cos())).collect(),
        powers: (0..=SPECTRUM_BINS)
            .map(|i| s(span.powf(i as f32 / SPECTRUM_BINS as f32)))
            .collect(),
        weights: weights(sample_rate),
    }
}

fn weights(sample_rate: u32) -> Vec<Single> {
    lag_tempos(s(sample_rate as f32))
        .into_iter()
        .map(|bpm| {
            let octaves = s(f(tempo_ratio(bpm)).log2());
            s(f(weight_exponent(octaves)).exp())
        })
        .collect()
}

impl Feeder {
    fn new(sample_rate: u32, config: AnalyzerConfig) -> Self {
        Feeder {
            analyzer: Analyzer::new(sample_rate, config, tables(sample_rate)),
            fft: rustfft::FftPlanner::<f32>::new().plan_fft_forward(FFT_SIZE),
        }
    }

    fn feed(&mut self, samples: &[f32]) -> Vec<HopOutput> {
        let samples: Vec<Single> = samples.iter().map(|&x| s(x)).collect();
        self.analyzer.feed(&samples);
        let mut out = Vec::new();
        while let Some(window) = self.analyzer.next_window() {
            let mut buf: Vec<Complex<f32>> =
                window.iter().map(|&x| Complex::new(f(x), 0.0)).collect();
            self.fft.process(&mut buf);
            let mut mags: Vec<Single> = buf[..HALF].iter().map(|c| s(c.norm())).collect();
            mags[0] = s(0.0);
            assert!(self.analyzer.in_order());
            out.push(self.analyzer.process_hop(&mags));
        }
        out
    }
}


const SR: u32 = 48000;

/// Synthesize `secs` of audio with decaying tone bursts at `bpm`.
fn beat_track(bpm: f32, tone_hz: f32, secs: f32) -> Vec<f32> {
    let n = (SR as f32 * secs) as usize;
    let period = 60.0 / bpm;
    let mut out = vec![0.0f32; n];
    let burst_len = (SR as f32 * 0.12) as usize;
    let mut t = 0.0f32;
    while t < secs {
        let start = (t * SR as f32) as usize;
        for i in 0..burst_len {
            let idx = start + i;
            if idx >= n {
                break;
            }
            let x = i as f32 / SR as f32;
            let attack = (i as f32 / (SR as f32 * 0.005)).min(1.0);
            let env = attack * (-x * 30.0).exp();
            out[idx] += env * (2.0 * std::f32::consts::PI * tone_hz * x).sin() * 0.8;
        }
        t += period;
    }
    out
}

fn run(samples: &[f32]) -> (Vec<BandBeatEvent>, Option<TempoEstimate>) {
    let mut a = Feeder::new(SR, AnalyzerConfig::default());
    let mut beats = Vec::new();
    let mut tempo = None;
    for chunk in samples.chunks(1024) {
        for hop in a.feed(chunk) {
            beats.extend(hop.beats);
            if let Some(t) = hop.tempo {
                tempo = Some(t);
            }
        }
    }
    (beats, tempo)
}

#[test]
fn detects_bpm_of_kick_pattern() {
    let audio = beat_track(128.0, 55.0, 15.0);
    let (_, tempo) = run(&audio);
    let tempo = tempo.expect("tempo should be estimated");
    assert!(
        (f(tempo.bpm) - 128.0).abs() < 3.0,
        "expected ~128 bpm, got {}",
        f(tempo.bpm)
    );
}

#[test]
fn kick_fires_low_band_not_high() {
    let audio = beat_track(120.0, 55.0, 8.0);
    let (beats, _) = run(&audio);
    let low = beats.iter().filter(|b| b.band == Band::Low).count();
    let high = beats.iter().filter(|b| b.band == Band::High).count();
    // 8 s at 120 bpm = 16 kicks; allow detector warm-up misses.
    assert!(low >= 10, "low band should fire on kicks, got {low}");
    assert!(high <= 2, "high band should stay quiet, got {high}");
}

#[test]
fn hats_fire_high_band_not_low() {
    let audio = beat_track(120.0, 8000.0, 8.0);
    let (beats, _) = run(&audio);
    let low = beats.iter().filter(|b| b.band == Band::Low).count();
    let high = beats.iter().filter(|b| b.band == Band::High).count();
    assert!(high >= 10, "high band should fire on hats, got {high}");
    assert!(low <= 2, "low band should stay quiet, got {low}");
}

fn run_with(cfg: AnalyzerConfig, samples: &[f32]) -> (Vec<BandBeatEvent>, Vec<AnalysisFrame>) {
    let mut a = Feeder::new(SR, cfg);
    let mut beats = Vec::new();
    let mut frames = Vec::new();
    for chunk in samples.chunks(1024) {
        for hop in a.feed(chunk) {
            beats.extend(hop.beats);
            frames.push(hop.frame);
        }
    }
    (beats, frames)
}

#[test]
fn manual_mode_fires_at_fixed_threshold() {
    let audio = beat_track(120.0, 55.0, 8.0);
    // Learn the raw low-band flux peak from an auto-mode pass.
    let (_, frames) = run_with(AnalyzerConfig::default(), &audio);
    let peak = frames
        .iter()
        .map(|x| f(x.band_flux[0]) * f(x.band_flux_max[0]))
        .fold(0.0f32, f32::max);
    assert!(peak > 0.0);

    let mut cfg = AnalyzerConfig::default();
    cfg.threshold_mode = ThresholdMode::Manual;
    cfg.manual_threshold = [s(peak * 0.5), s(0.0), s(0.0), s(0.0)];
    let (beats, _) = run_with(cfg.clone(), &audio);
    let low = beats.iter().filter(|b| b.band == Band::Low).count();
    assert!(low >= 10, "manual threshold at half peak should fire on kicks, got {low}");

    cfg.manual_threshold[0] = s(peak * 10.0);
    let (beats, _) = run_with(cfg, &audio);
    let low = beats.iter().filter(|b| b.band == Band::Low).count();
    assert_eq!(low, 0, "threshold far above peak must never fire, got {low}");
}

#[test]
fn manual_mode_unset_falls_back_to_auto() {
    let audio = beat_track(120.0, 55.0, 8.0);
    let mut cfg = AnalyzerConfig::default();
    cfg.threshold_mode = ThresholdMode::Manual; // all thresholds unset (0)
    let (beats, _) = run_with(cfg, &audio);
    let low = beats.iter().filter(|b| b.band == Band::Low).count();
    assert!(low >= 10, "unset manual thresholds should behave like auto, got {low}");
}

#[test]
fn set_config_preserves_runtime_state() {
    let audio = beat_track(120.0, 55.0, 2.0);
    let mut a = Feeder::new(SR, AnalyzerConfig::default());
    for chunk in audio.chunks(1024) {
        a.feed(chunk);
    }
    let hist_len = a.analyzer.bands()[0].flux_history.len();
    let flux_max = a.analyzer.bands()[0].flux_max;
    assert!(hist_len > 0);
    let mut cfg = AnalyzerConfig::default();
    cfg.sensitivity[0] = s(3.0);
    a.analyzer.set_config(cfg);
    assert_eq!(a.analyzer.bands()[0].flux_history.len(), hist_len);
    assert_eq!(a.analyzer.bands()[0].flux_max, flux_max);
}

#[test]
fn low_only_mode_suppresses_other_bands() {
    let mut cfg = AnalyzerConfig::default();
    cfg.low_only = true;
    let audio = beat_track(120.0, 8000.0, 6.0);
    let mut a = Feeder::new(SR, cfg);
    let mut beats = Vec::new();
    for chunk in audio.chunks(1024) {
        for hop in a.feed(chunk) {
            beats.extend(hop.beats);
        }
    }
    assert!(beats.iter().all(|b| b.band == Band::Low));
}

fn feeder() -> Feeder {
    Feeder::new(SR, AnalyzerConfig::default())
}

#[test]
fn hops_are_counted_and_timed() {
    let mut a = feeder();
    assert!(a.feed(&[0.0; 511]).is_empty());
    let out = a.feed(&[0.0; 1]);
    assert_eq!(out.len(), 1);
    assert_eq!(out[0].frame.timestamp_ms, (512.0f64 * 1000.0 / 48000.0) as u64);
    assert_eq!(a.feed(&[0.0; 2048]).len(), 4);
    assert_eq!(a.feed(&[0.0; 512])[0].frame.timestamp_ms, 64);
}

#[test]
fn silence_has_no_level_and_no_beats() {
    let mut a = feeder();
    for hop in a.feed(&vec![0.0; 48000]) {
        assert!(hop.beats.is_empty());
        assert!(hop.tempo.is_none());
        assert_eq!(f(hop.frame.rms), 0.0);
        assert_eq!(f(hop.frame.intensity), 0.0);
        assert_eq!(f(hop.frame.spectral_centroid), 0.0);
        assert_eq!(hop.frame.spectrum.len(), SPECTRUM_BINS);
    }
}

#[test]
fn windows_are_weighted_input() {
    let mut a = feeder();
    a.analyzer.feed(&vec![s(1.0); 512]);
    let w = a.analyzer.next_window().unwrap();
    assert!(w[..FFT_SIZE - 512].iter().all(|&x| f(x) == 0.0));
    for (i, x) in w.iter().enumerate().skip(FFT_SIZE - 512) {
        let angle = std::f32::consts::PI * 2.0 * i as f32 / FFT_SIZE as f32;
        assert_eq!(f(*x), 1.0 * (0.5 * (1.0 - angle.cos())), "{i}");
    }
}

#[test]
fn levels_follow_the_envelope() {
    let mut a = feeder();
    let hop: Vec<f32> = (0..512).map(|i| if i % 2 == 0 { 0.5 } else { -0.5 }).collect();
    let (mut max, mut env) = (1e-4f32, 0.0f32);
    for _ in 0..10 {
        let out = a.feed(&hop);
        let rms = (hop.iter().map(|x| x * x).sum::<f32>() / 512.0).sqrt();
        max = (max * 0.99997).max(rms).max(1e-4);
        let norm = (rms / max).clamp(0.0, 1.0);
        env += (norm - env) * if norm > env { 0.3 } else { 0.005 };
        assert_eq!(f(out[0].frame.rms), norm);
        assert_eq!(f(out[0].frame.intensity), env);
    }
}

#[test]
fn a_sine_has_its_frequency_as_centroid() {
    let mut a = feeder();
    let tone: Vec<f32> = (0..9600)
        .map(|i| (2.0 * std::f32::consts::PI * 3000.0 * i as f32 / SR as f32).sin())
        .collect();
    let out = a.feed(&tone);
    let c = f(out.last().unwrap().frame.spectral_centroid);
    assert!((c - 3000.0).abs() < 60.0, "{c}");
}

#[test]
fn displayed_values_stay_in_range() {
    let audio = beat_track(128.0, 200.0, 4.0);
    let mut a = feeder();
    for hop in a.feed(&audio) {
        let x = &hop.frame;
        let in_range = |v: Single| f(v) >= 0.0 && f(v) <= 1.0;
        assert!(in_range(x.rms) && in_range(x.intensity));
        assert!(x.spectrum.iter().all(|&v| in_range(v)));
        for i in 0..4 {
            assert!(in_range(x.band_energy[i]) && in_range(x.band_flux[i]));
            assert!(in_range(x.band_threshold[i]) && in_range(x.band_flux_mean[i]));
            assert!(f(x.band_flux_std[i]) >= 1e-4 && f(x.band_flux_max[i]) >= 1e-6);
        }
        for b in &hop.beats {
            assert!(f(b.strength) >= 0.05 && f(b.strength) <= 1.5);
        }
    }
}

#[test]
fn beats_of_a_band_keep_their_distance() {
    let audio = beat_track(300.0, 55.0, 8.0);
    let (beats, _) = run(&audio);
    let low: Vec<u64> =
        beats.iter().filter(|b| b.band == Band::Low).map(|b| b.timestamp_ms).collect();
    assert!(low.len() > 5);
    for w in low.windows(2) {
        assert!(w[1] - w[0] >= 149, "{w:?}");
    }
}

#[test]
fn band_order_is_checked() {
    let mut cfg = AnalyzerConfig::default();
    cfg.bands.edges[2] = s(100.0);
    let mut a = Feeder::new(SR, cfg).analyzer;
    assert!(!a.in_order());
    a.set_config(AnalyzerConfig::default());
    assert!(a.in_order());
}

#[test]
fn tempo_needs_half_an_envelope_and_a_period() {
    let mut t = TempoTracker::new(s(48000.0), weights(SR));
    for i in 0..511 {
        t.push(s(if i % 40 == 0 { 1.0 } else { 0.0 }));
        assert!(t.estimate_tempo().is_none());
    }
    t.push(s(0.0));
    let e = t.estimate_tempo().unwrap();
    // 40 hops of 512 samples are 426.7 ms.
    assert!((f(e.bpm) - 60.0 * 93.75 / 40.0).abs() < 2.0, "{}", f(e.bpm));
    assert!(f(e.confidence) > 0.5 && f(e.confidence) <= 1.0);
    let mut flat = TempoTracker::new(s(48000.0), weights(SR));
    for _ in 0..1024 {
        flat.push(s(1.0));
    }
    assert!(flat.estimate_tempo().is_none());
}

#[test]
fn a_new_tempo_takes_four_readings() {
    let mut t = TempoTracker::new(s(48000.0), weights(SR));
    for i in 0..1024 {
        t.push(s(if i % 40 == 0 { 1.0 } else { 0.0 }));
    }
    let first = f(t.estimate_tempo().unwrap().bpm);
    for i in 0..1024 {
        t.push(s(if i % 60 == 0 { 1.0 } else { 0.0 }));
    }
    for _ in 0..3 {
        assert_eq!(f(t.estimate_tempo().unwrap().bpm), first);
    }
    let second = f(t.estimate_tempo().unwrap().bpm);
    assert!((second - 60.0 * 93.75 / 60.0).abs() < 2.0, "{second}");
}

#[test]
fn sample_rates_without_room_for_a_period_have_no_weights() {
    assert!(lag_tempos(s(768000.0)).is_empty());
    let lags = lag_tempos(s(48000.0));
    assert_eq!(lags.len(), 95);
    assert_eq!(f(lags[40]), 60.0 * 93.75 / 40.0);
}

#[test]
fn default_settings_of_the_analyzer() {
    let c = AnalyzerConfig::default();
    assert_eq!(c.sensitivity.map(f), [2.2, 2.4, 2.4, 2.4]);
    assert_eq!(c.min_interval_ms.map(f), [150.0, 100.0, 100.0, 80.0]);
    assert_eq!(c.manual_threshold.map(f), [0.0; 4]);
    assert!(!c.low_only);
    assert_eq!(c.threshold_mode, ThresholdMode::Auto);
}

fn text(outs: &[HopOutput]) -> Vec<String> {
    outs.iter().map(|h| format!("{:?} {:?} {:?}", h.frame, h.beats, h.tempo)).collect()
}

#[test]
fn tempos_are_weighted_around_the_middle() {
    for bpm in [60.0f32, 90.0, 128.0, 174.5, 200.0] {
        let x = (bpm / 128.0).log2() / 0.9;
        assert_eq!(f(tempo_ratio(s(bpm))), bpm / 128.0);
        assert_eq!(f(weight_exponent(s((bpm / 128.0).log2()))), -0.5 * x * x);
    }
    assert_eq!(f(weight_exponent(s(0.9))), -0.5);
}

#[test]
fn the_display_curve_replaces_the_spectrum() {
    assert_eq!(f(display_exponent()), 0.4);
    let mut a = feeder();
    let mut hop = a.feed(&beat_track(128.0, 200.0, 0.1)).pop().unwrap();
    let shares = hop.frame.spectrum.clone();
    let curved: Vec<Single> =
        shares.iter().map(|&x| s(f(x).powf(f(display_exponent())))).collect();
    let rms = hop.frame.rms;
    hop.frame.show_spectrum(curved.clone());
    assert_eq!(hop.frame.spectrum, curved);
    assert_ne!(hop.frame.spectrum, shares);
    assert_eq!(hop.frame.rms, rms);
}

#[test]
fn a_stream_may_be_cut_into_any_pieces() {
    let audio = beat_track(128.0, 55.0, 3.0);
    let whole = feeder().feed(&audio);
    assert_eq!(whole.len(), audio.len() / 512);
    for size in [1usize, 100, 511, 512, 513, 1024, 5000] {
        let mut a = feeder();
        let mut outs = Vec::new();
        let mut waiting = 0;
        for piece in audio.chunks(size) {
            let hops = a.feed(piece);
            assert_eq!(hops.len(), (waiting + piece.len()) / 512);
            waiting = (waiting + piece.len()) % 512;
            outs.extend(hops);
        }
        assert_eq!(text(&outs), text(&whole));
    }
}

#[test]
fn settings_in_force_change_nothing() {
    let audio = beat_track(128.0, 55.0, 4.0);
    let plain = feeder().feed(&audio);
    let mut a = feeder();
    let mut outs = Vec::new();
    for piece in audio.chunks(1000) {
        outs.extend(a.feed(piece));
        a.analyzer.set_config(AnalyzerConfig::default());
    }
    assert_eq!(text(&outs), text(&plain));
}

#[test]
fn new_settings_go_on_from_what_was_learned() {
    let audio = beat_track(120.0, 55.0, 3.0);
    let mut a = feeder();
    let last = a.feed(&audio).pop().unwrap().frame;
    let mut cfg = AnalyzerConfig::default();
    cfg.sensitivity[0] = s(9.0);
    cfg.bands.edges[1] = s(300.0);
    a.analyzer.set_config(cfg);
    let next = a.feed(&[0.0; 512]).pop().unwrap().frame;
    for i in 0..4 {
        assert!(f(next.band_flux_max[i]) >= f(last.band_flux_max[i]) * 0.9995);
    }
    assert!(next.timestamp_ms >= last.timestamp_ms);
    assert_eq!(a.analyzer.bands()[0].flux_history.len(), 128);
}

#[test]
fn unset_thresholds_give_what_adaptive_ones_give() {
    let audio = beat_track(120.0, 55.0, 6.0);
    let mut cfg = AnalyzerConfig::default();
    let auto = Feeder::new(SR, cfg).feed(&audio);
    cfg.threshold_mode = ThresholdMode::Manual;
    let manual = Feeder::new(SR, cfg).feed(&audio);
    assert_eq!(text(&manual), text(&auto));
    // One band with a threshold leaves the others adaptive.
    cfg.manual_threshold[0] = s(1000.0);
    let mixed = Feeder::new(SR, cfg).feed(&audio);
    for (x, y) in mixed.iter().zip(&auto) {
        assert!(f(x.frame.band_flux_max[0]) >= 1000.0);
        assert!(f(y.frame.band_flux_max[0]) < 1000.0);
        assert_eq!(x.frame.band_threshold[1..], y.frame.band_threshold[1..]);
        assert_eq!(x.frame.band_flux[1..], y.frame.band_flux[1..]);
    }
}

#[test]
fn frames_never_go_back_in_time() {
    for rate in [8000u32, 44100, 48000, 192000] {
        let mut a = Feeder::new(rate, AnalyzerConfig::default());
        let mut last = 0;
        for _ in 0..40 {
            for hop in a.feed(&[0.1; 777]) {
                assert!(hop.frame.timestamp_ms >= last);
                last = hop.frame.timestamp_ms;
            }
        }
        let hops = 40 * 777 / 512u64;
        assert_eq!(last, ((hops * 512) as f64 * 1000.0 / rate as f64) as u64);
    }
}

#[test]
fn published_tempos_lie_from_70_to_200() {
    for rate in [22050u32, 44100, 48000, 96000] {
        for period in [23usize, 31, 40, 57, 61, 88, 120] {
            let mut t = TempoTracker::new(s(rate as f32), weights(rate));
            for i in 0..1400 {
                t.push(s(if i % period == 0 { 1.0 } else { 0.01 * (i % 7) as f32 }));
                if i % 47 == 0 {
                    if let Some(e) = t.estimate_tempo() {
                        assert!(f(e.bpm) >= 70.0 && f(e.bpm) <= 200.0, "{}", f(e.bpm));
                    }
                }
            }
        }
    }
}
