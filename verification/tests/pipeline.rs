use huebeat::commands::{
    edited_palette, idle_status, is_active, known_genre, paired_bridge,
    palette_entries, parse_panic, pattern_request, pattern_seconds, running_status, start_request,
};
use huebeat::config::{AnalyzerSettings, AppConfig, CONFIG_FILE, PALETTES_FILE};
use huebeat::core_types::{
    AnalysisFrame, Band, BandBeatEvent, Color, Genre, Palette, TempoEstimate, TempoSource,
    ThresholdMode,
};
use huebeat::double::Double;
use huebeat::effects::Panic;
use huebeat::engine::{
    genre_from_id, pattern_channels, plan_channels, Conductor, ConnectStep, FeatureAggregator,
    LightLoop,
};
use huebeat::hue_client::{EntertainmentChannel, EntertainmentConfig, PairedBridge};
use huebeat::palette::PaletteStore;
use huebeat::pattern::{hsv, pattern_frame, pattern_steps, sweep_frame, wheel};
use huebeat::single::Single;

fn s(x: f32) -> Single {
    Single { bits: x.to_bits() }
}

fn f(x: Single) -> f32 {
    f32::from_bits(x.bits)
}

fn d(x: f64) -> Double {
    Double { bits: x.to_bits() }
}

fn frame(timestamp_ms: u64) -> AnalysisFrame {
    let z = [s(0.0); 4];
    AnalysisFrame {
        timestamp_ms,
        rms: s(0.5),
        band_energy: [s(0.8), s(0.4), s(0.3), s(0.2)],
        intensity: s(0.6),
        spectral_centroid: s(900.0),
        spectrum: vec![],
        band_flux: z,
        band_threshold: z,
        band_flux_mean: z,
        band_flux_std: z,
        band_flux_max: z,
    }
}

fn beat(band: Band, timestamp_ms: u64) -> BandBeatEvent {
    BandBeatEvent { band, strength: s(1.0), timestamp_ms }
}

fn tempo(bpm: f32) -> TempoEstimate {
    TempoEstimate { bpm: s(bpm), confidence: s(0.6), source: TempoSource::Detector }
}

#[test]
fn features_need_fifty_frames() {
    let mut a = FeatureAggregator::new();
    for i in 0..49 {
        a.push_frame(frame(i * 10));
        assert!(a.features().is_none());
    }
    a.push_frame(frame(490));
    assert!(a.features().is_some());
}

#[test]
fn features_are_means_and_densities() {
    let mut a = FeatureAggregator::new();
    a.set_tempo(tempo(120.0));
    // Kicks every half second, one of them late; hats twice as often; two snares.
    for (i, t) in [0, 500, 1000, 1500, 2100, 2500, 3000, 3500].into_iter().enumerate() {
        a.push_beat(beat(Band::Low, t));
        a.push_beat(beat(Band::High, t));
        a.push_beat(beat(Band::High, t + 250));
        if i % 4 == 0 {
            a.push_beat(beat(Band::HighMid, t));
        }
    }
    for i in 0..=80u64 {
        a.push_frame(frame(i * 50));
    }
    let x = a.features().unwrap();
    let n = 81.0f32;
    let mean = |v: f32| {
        let mut sum = 0.0f32;
        for _ in 0..81 {
            sum += v;
        }
        sum / n
    };
    assert_eq!(f(x.bpm), 120.0);
    assert_eq!(f(x.bpm_confidence), 0.6);
    assert_eq!(x.band_energy.map(f), [mean(0.8), mean(0.4), mean(0.3), mean(0.2)]);
    assert_eq!(f(x.kick_density), 8.0 * 1000.0 / 4000.0);
    assert_eq!(f(x.hat_density), 16.0 * 1000.0 / 4000.0);
    assert_eq!(f(x.snare_density), 2.0 * 1000.0 / 4000.0);
    assert_eq!(f(x.kick_ibi_bpm), 60000.0 / 500.0);
    assert_eq!(f(x.kick_regularity), 5.0 / 7.0);
    assert_eq!(f(x.centroid), mean(900.0));
    assert_eq!(f(x.intensity), mean(0.6));
}

#[test]
fn features_without_kicks_know_no_grid() {
    let mut a = FeatureAggregator::new();
    a.push_beat(beat(Band::Low, 5));
    for i in 0..60 {
        a.push_frame(frame(i));
    }
    let x = a.features().unwrap();
    assert_eq!((f(x.kick_ibi_bpm), f(x.kick_regularity)), (0.0, 0.0));
    assert_eq!((f(x.bpm), f(x.bpm_confidence)), (0.0, 0.0));
}

#[test]
fn the_window_forgets_after_eight_seconds() {
    let mut a = FeatureAggregator::new();
    a.push_beat(beat(Band::High, 100));
    a.push_beat(beat(Band::High, 9000));
    for i in 0..200u64 {
        a.push_frame(frame(i * 100));
        if i == 80 {
            let x = a.features().unwrap();
            assert_eq!(f(x.hat_density), 2.0 * 1000.0 / 8000.0);
        }
    }
    // Frames from 11900 to 19900 are left, and no beat.
    let x = a.features().unwrap();
    assert_eq!(f(x.hat_density), 0.0);
}

#[test]
fn the_conductor_counts_frames() {
    let store = PaletteStore::default();
    let mut c = Conductor::new(None, &store);
    assert_eq!(c.current_genre(), Genre::Unknown);
    assert_eq!(c.current_palette().name, "Auto");
    for i in 1..=48u64 {
        let out = c.on_frame(frame(i), 0, &store);
        assert_eq!(out.show, i % 3 == 0);
        assert_eq!(out.send_intensity, i % 24 == 0);
        assert!(!out.restart_timer && out.change.is_none());
    }
    assert!(!c.on_frame(frame(49), 1000, &store).restart_timer);
    assert!(c.on_frame(frame(50), 1001, &store).restart_timer);
    c.on_tempo(&tempo(133.0));
    assert_eq!(f(c.last_bpm()), 133.0);
}

/// A conductor fed with a deep house track, a genre update each second.
fn play(c: &mut Conductor, store: &PaletteStore) -> Vec<(Genre, String)> {
    play_from(0, c, store)
}

fn play_from(start: u64, c: &mut Conductor, store: &PaletteStore) -> Vec<(Genre, String)> {
    let mut changes = Vec::new();
    c.on_tempo(&tempo(121.0));
    for second in start..start + 40 {
        for k in 0..20u64 {
            let t = second * 1000 + k * 50;
            if k % 10 == 0 {
                c.on_beat(&beat(Band::Low, t));
                c.on_beat(&beat(Band::High, t));
            }
            let elapsed = if k == 0 { 1001 } else { 0 };
            if let Some((g, p)) = c.on_frame(frame(t), elapsed, store).change {
                changes.push((g, p.name));
            }
        }
    }
    changes
}

#[test]
fn the_conductor_follows_the_genre() {
    let store = PaletteStore::default();
    let mut c = Conductor::new(Some("no such genre"), &store);
    let changes = play(&mut c, &store);
    assert_eq!(changes, vec![(Genre::DeepHouse, "Deep House".to_string())]);
    assert_eq!(c.current_genre(), Genre::DeepHouse);
    assert_eq!(c.current_palette().name, "Deep House");
    c.set_palette(Palette { name: "mine".to_string(), colors: vec![] });
    assert_eq!(c.current_palette().name, "mine");
    assert_eq!(c.current_genre(), Genre::DeepHouse);
}

#[test]
fn an_override_pins_the_genre() {
    let store = PaletteStore::default();
    let mut c = Conductor::new(Some("jersey_club"), &store);
    assert_eq!(c.current_genre(), Genre::JerseyClub);
    assert!(play(&mut c, &store).is_empty());
    assert_eq!(c.current_palette().name, "Jersey Club");
}

#[test]
fn an_override_is_set_and_taken_back_while_the_music_plays() {
    let store = PaletteStore::default();
    let mut c = Conductor::new(None, &store);
    assert_eq!(play(&mut c, &store).len(), 1);
    assert_eq!(c.set_override(Some("trap"), &store).unwrap().name, "Trap");
    assert_eq!(c.current_genre(), Genre::Trap);
    assert_eq!(c.current_palette().name, "Trap");
    assert!(play_from(40, &mut c, &store).is_empty());
    assert_eq!(c.current_genre(), Genre::Trap);
    assert_eq!(c.current_palette().name, "Trap");
    // A name that no genre has pins nothing.
    assert!(c.set_override(Some("polka"), &store).is_none());
    assert_eq!(c.current_genre(), Genre::Trap);
    assert!(c.on_frame(frame(80000), 1001, &store).restart_timer);
    assert_eq!(c.set_override(Some("jersey_club"), &store).unwrap().name, "Jersey Club");
    assert!(!c.on_frame(frame(80050), 1001, &store).restart_timer);
    assert!(c.set_override(None, &store).is_none());
    assert!(c.on_frame(frame(80100), 1001, &store).restart_timer);

    // One that was pinned from the start follows the music once the override is gone.
    let mut c = Conductor::new(Some("trap"), &store);
    assert!(play(&mut c, &store).is_empty());
    assert!(c.set_override(None, &store).is_none());
    assert_eq!(c.current_palette().name, "Trap");
    assert_eq!(
        play_from(40, &mut c, &store),
        vec![(Genre::DeepHouse, "Deep House".to_string())]
    );
}

#[test]
fn every_second_tick_is_previewed() {
    let mut l = LightLoop::new(true);
    let previews: Vec<bool> = (0..6).map(|_| l.tick()).collect();
    assert_eq!(previews, [false, true, false, true, false, true]);
    l.sent(true);
    assert!(l.streaming);
    l.sent(false);
    l.sent(true);
    assert!(!l.streaming);
}

fn ok(x: &str) -> Result<String, String> {
    Ok(x.to_string())
}

fn err(x: &str) -> Result<String, String> {
    Err(x.to_string())
}

#[test]
fn connecting_step_by_step() {
    let s = ConnectStep::Identify.next("key", ok("id"));
    assert!(matches!(&s, ConnectStep::Start { identity } if identity == "id"));
    let h = s.next("key", ok(""));
    assert!(matches!(&h, ConnectStep::Handshake { identity } if identity == "id"));
    assert!(matches!(h.next("key", ok("")), ConnectStep::Connected));
    let s = ConnectStep::Identify.next("key", err("no header"));
    assert!(matches!(&s, ConnectStep::Start { identity } if identity == "key"));
    let a = s.next("key", ok("")).next("key", err("timeout"));
    assert!(matches!(&a, ConnectStep::Abort { error } if error == "timeout"));
    let f = a.next("key", err("stop failed too"));
    assert!(matches!(&f, ConnectStep::Failed { error } if error == "timeout"));
    let s = ConnectStep::Identify.next("key", ok("id")).next("key", err("refused"));
    assert!(matches!(&s, ConnectStep::Failed { error } if error == "refused"));
    assert!(matches!(s.next("key", ok("")), ConnectStep::Failed { .. }));
}

fn area(id: &str, ids: &[u8]) -> EntertainmentConfig {
    EntertainmentConfig {
        id: id.to_string(),
        name: "area".to_string(),
        channels: ids
            .iter()
            .map(|&i| EntertainmentChannel { channel_id: i, x: d(-0.1), y: d(0.2), z: d(1.0) })
            .collect(),
    }
}

#[test]
fn lights_come_from_the_area_or_are_virtual() {
    let configs = vec![area("a", &[4, 7]), area("b", &[])];
    let p = plan_channels(&configs, "a");
    assert!(p.stream);
    assert_eq!(p.channels.iter().map(|c| c.id).collect::<Vec<u8>>(), [4, 7]);
    assert_eq!((f(p.channels[0].x), f(p.channels[0].z)), (-0.1, 1.0));
    let p = plan_channels(&configs, "b");
    assert!(p.stream);
    assert_eq!(p.channels.iter().map(|c| c.id).collect::<Vec<u8>>(), [0]);
    let p = plan_channels(&configs, "c");
    assert!(!p.stream);
    assert_eq!(p.channels.iter().map(|c| c.id).collect::<Vec<u8>>(), [0, 1, 2, 3]);
    assert_eq!(pattern_channels(&configs, "a"), [4, 7]);
    assert!(pattern_channels(&configs, "b").is_empty());
    assert_eq!(pattern_channels(&configs, "c"), [0]);
}

fn native_hsv(h: f32, s: f32, v: f32) -> Color {
    let c = v * s;
    let x = c * (1.0 - ((h / 60.0) % 2.0 - 1.0).abs());
    let m = v - c;
    let (r, g, b) = match (h as u32) / 60 % 6 {
        0 => (c, x, 0.0),
        1 => (x, c, 0.0),
        2 => (0.0, c, x),
        3 => (0.0, x, c),
        4 => (x, 0.0, c),
        _ => (c, 0.0, x),
    };
    Color::new(((r + m) * 255.0) as u8, ((g + m) * 255.0) as u8, ((b + m) * 255.0) as u8)
}

#[test]
fn hues_become_colors() {
    assert_eq!(hsv(s(0.0), s(1.0), s(1.0)), Color::new(255, 0, 0));
    assert_eq!(hsv(s(120.0), s(1.0), s(1.0)), Color::new(0, 255, 0));
    assert_eq!(hsv(s(30.0), s(1.0), s(1.0)), Color::new(255, 127, 0));
    for i in 0..800 {
        let h = i as f32 * 0.45;
        assert_eq!(wheel(s(h)), hsv(s(h), s(1.0), s(1.0)), "{h}");
        for (sat, val) in [(1.0, 1.0), (0.5, 0.8), (0.0, 0.3)] {
            assert_eq!(hsv(s(h), s(sat), s(val)), native_hsv(h, sat, val), "{h}");
        }
    }
}

#[test]
fn remainders_are_exact() {
    for x in [0.0f32, 359.9, 360.0, 720.5, 1e7, 1e30, -5.5, 1e-40, f32::INFINITY] {
        for y in [360.0f32, 2.0, 0.1, 1e-40, f32::INFINITY, 0.0] {
            let (a, b) = (f(s(x).rem(s(y))), x % y);
            assert!(a == b || (a.is_nan() && b.is_nan()), "{x} {y}: {a} {b}");
        }
    }
}

#[test]
fn patterns_turn() {
    assert_eq!(pattern_steps(0), 0);
    assert_eq!(pattern_steps(5), 250);
    assert_eq!(pattern_steps(100), 5000);
    assert_eq!(pattern_steps(pattern_seconds(0)), 50);
    assert_eq!(pattern_steps(pattern_seconds(7)), 350);
    assert_eq!(pattern_steps(pattern_seconds(u64::MAX)), 1500);
    for i in [0u64, 1, 77, 1499] {
        let t = i as f32 * 20.0 / 1000.0;
        let frame = pattern_frame(&vec![9, 4], i);
        let hue = |k: usize| (t * 90.0 + k as f32 * 60.0) % 360.0;
        assert_eq!(
            frame.channels,
            vec![(9, native_hsv(hue(0), 1.0, 1.0)), (4, native_hsv(hue(1), 1.0, 1.0))]
        );
    }
    let frame = sweep_frame(&vec![1, 2], 200);
    let c = native_hsv(40.0, 1.0, 1.0);
    assert_eq!(frame.channels, vec![(1, c), (2, c)]);
}

#[test]
fn all_genre_ids_are_known() {
    for g in Genre::ALL {
        assert_eq!(genre_from_id(g.as_str()), Some(g));
        assert_eq!(known_genre(g.as_str()), Ok(g));
    }
    assert_eq!(known_genre("polka"), Err("unknown genre".to_string()));
}

#[test]
fn palettes_are_edited_by_genre() {
    let colors = vec!["#102030".to_string(), "nope".to_string()];
    let (g, p) = edited_palette("techno", "Mine".to_string(), &colors).unwrap();
    assert_eq!((g, p.name.as_str()), (Genre::Techno, "Mine"));
    assert_eq!(p.colors, vec![Color::new(16, 32, 48)]);
    let no = |id: &str, c: Vec<String>| edited_palette(id, String::new(), &c).unwrap_err();
    assert_eq!(no("polka", colors.clone()), "unknown genre");
    assert_eq!(no("techno", vec!["x".to_string()]), "no valid colors");
    assert_eq!(no("polka", vec![]), "unknown genre");
    assert!(is_active(Some(Genre::Techno), Genre::Techno));
    assert!(!is_active(Some(Genre::House), Genre::Techno));
    assert!(!is_active(None, Genre::Techno));
    let entries = palette_entries(&PaletteStore::default());
    assert_eq!(entries.len(), 29);
    assert_eq!((entries[1].genre.as_str(), entries[1].palette.name.as_str()), ("house", "House"));
}

#[test]
fn panic_modes_are_read() {
    assert_eq!(parse_panic(None), Ok(None));
    assert_eq!(parse_panic(Some("blackout")), Ok(Some(Panic::Blackout)));
    assert_eq!(parse_panic(Some("white_flash")), Ok(Some(Panic::WhiteFlash)));
    assert_eq!(parse_panic(Some("freeze")), Ok(Some(Panic::Freeze)));
    assert_eq!(parse_panic(Some("party")), Err("unknown panic mode party".to_string()));
}

#[test]
fn requests_are_checked() {
    let mut config = AppConfig::default();
    assert_eq!(paired_bridge(&config).unwrap_err(), "bridge not paired");
    assert_eq!(pattern_request(&config, true).unwrap_err(), "bridge not paired");
    config.bridge = Some(PairedBridge {
        ip: "1.2.3.4".to_string(),
        app_key: "a".to_string(),
        client_key: "c".to_string(),
    });
    assert_eq!(paired_bridge(&config).unwrap().ip, "1.2.3.4");
    assert_eq!(pattern_request(&config, true).unwrap_err(), "entertainment area not selected");
    config.entertainment_config_id = Some("area".to_string());
    assert_eq!(
        pattern_request(&config, true).unwrap_err(),
        "stop the engine before running the test pattern"
    );
    let (b, id) = pattern_request(&config, false).unwrap();
    assert_eq!((b.ip.as_str(), id.as_str()), ("1.2.3.4", "area"));
    assert_eq!(start_request(true).unwrap_err(), "engine already running");
    assert!(start_request(false).is_ok());
}

#[test]
fn states_for_the_user() {
    let idle = idle_status();
    assert!(!idle.running && !idle.streaming && idle.message.is_none());
    assert_eq!((idle.genre.as_str(), idle.palette.name.as_str()), ("unknown", "Auto"));
    assert_eq!(f(idle.bpm), 0.0);
    let p = Palette { name: "p".to_string(), colors: vec![] };
    let running = running_status(true, Genre::Trance, p, s(140.0));
    assert!(running.running && running.streaming);
    assert_eq!((running.genre.as_str(), f(running.bpm)), ("trance", 140.0));
}

#[test]
fn default_configuration() {
    let c = AppConfig::default();
    assert!(c.bridge.is_none() && c.entertainment_config_id.is_none());
    assert!(c.audio_device.is_none() && c.osc_target.is_none() && c.palette_override.is_none());
    assert_eq!(f(c.effects.fade_ms), 350.0);
    let mut a = AnalyzerSettings::default();
    assert_eq!(a.sensitivity.map(f), [2.2, 2.4, 2.4, 2.4]);
    a.low_only = true;
    a.threshold_mode = ThresholdMode::Manual;
    a.manual_threshold[1] = s(4.0);
    let config = a.to_analyzer_config();
    assert!(config.low_only);
    assert_eq!(config.threshold_mode, ThresholdMode::Manual);
    assert_eq!(f(config.manual_threshold[1]), 4.0);
    assert_eq!(config.bands.edges.map(f), [20.0, 150.0, 800.0, 4000.0, 16000.0]);
    assert_eq!((CONFIG_FILE, PALETTES_FILE), ("config.toml", "palettes.toml"));
}
