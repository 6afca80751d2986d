use huebeat::core_types::{Band, BandBeatEvent, Color, LightFrame, Palette};
use huebeat::double::Double;
use huebeat::effects::{
    assign_by_height, compute_masks, BandAssignment, BandMask, ChannelInfo, EffectEngine,
    EffectMode, EffectSettings, Panic,
};
use huebeat::single::Single;

fn s(x: f32) -> Single {
    Single { bits: x.to_bits() }
}

fn f(x: Single) -> f32 {
    f32::from_bits(x.bits)
}

fn d(x: f64) -> Double {
    Double { bits: x.to_bits() }
}

fn on_beat(e: &mut EffectEngine, beat: BandBeatEvent) {
    let draws = vec![s(0.5); e.channel_count()];
    e.on_beat(&beat, &draws);
}

fn tick(e: &mut EffectEngine, dt_ms: f64) -> LightFrame {
    let decay = f(e.decay_exponent(d(dt_ms))).exp();
    e.tick(d(dt_ms), s(decay))
}


fn palette() -> Palette {
    Palette {
        name: "test".into(),
        colors: vec![
            Color::new(255, 0, 0),
            Color::new(0, 255, 0),
            Color::new(0, 0, 255),
            Color::new(255, 255, 0),
        ],
    }
}

fn ch(id: u8, x: f32, z: f32) -> ChannelInfo {
    ChannelInfo { id, x: s(x), y: s(0.0), z: s(z) }
}

fn beat(band: Band) -> BandBeatEvent {
    BandBeatEvent {
        band,
        strength: s(1.0),
        timestamp_ms: 0,
    }
}

fn color_of(frame: &LightFrame, id: u8) -> Color {
    frame.channels.iter().find(|(cid, _)| *cid == id).unwrap().1
}

fn no_chase_settings() -> EffectSettings {
    EffectSettings {
        chase_ms: s(0.0),
        color_fade_ms: s(20.0),
        ..Default::default()
    }
}

#[test]
fn by_height_routes_kick_to_floor_and_hats_to_ceiling() {
    // Four lights bottom to top.
    let chans = [ch(0, 0.0, -1.0), ch(1, 0.0, -0.3), ch(2, 0.0, 0.3), ch(3, 0.0, 1.0)];
    let mut e = EffectEngine::new(&chans, palette(), no_chase_settings());

    on_beat(&mut e, beat(Band::Low));
    let f = tick(&mut e, 20.0);
    assert!(color_of(&f, 0).r > 100, "floor light should flash red on kick");
    assert!(color_of(&f, 3).r < 60, "ceiling light must not react to kick");

    on_beat(&mut e, beat(Band::High));
    let f = tick(&mut e, 20.0);
    let top = color_of(&f, 3);
    assert!(top.r > 100 && top.g > 100, "ceiling light should flash yellow on hats");
}

#[test]
fn empty_bands_fold_to_nearest_group() {
    // Only two lights: every band must still reach one of them.
    let chans = [ch(0, 0.0, -1.0), ch(1, 0.0, 1.0)];
    let mut e = EffectEngine::new(&chans, palette(), no_chase_settings());
    on_beat(&mut e, beat(Band::LowMid));
    let f = tick(&mut e, 20.0);
    let lit = f.channels.iter().any(|(_, c)| c.g > 100);
    assert!(lit, "low-mid beat should light the nearest (bottom) group");
}

#[test]
fn chase_staggers_flashes_left_to_right() {
    let chans = [ch(0, -1.0, 0.0), ch(1, 1.0, 0.0)];
    let mut settings = no_chase_settings();
    settings.assignment = BandAssignment::All;
    settings.chase_ms = s(100.0);
    let mut e = EffectEngine::new(&chans, palette(), settings);
    on_beat(&mut e, beat(Band::Low));
    let f = tick(&mut e, 20.0);
    let left = color_of(&f, 0);
    let right = color_of(&f, 1);
    assert!(left.r > 100, "left light flashes immediately");
    assert!(right.r < 60, "right light is still waiting on the chase");
    for _ in 0..5 {
        tick(&mut e, 20.0);
    }
    let f = tick(&mut e, 20.0);
    assert!(color_of(&f, 1).r > 60, "right light flashes after the stagger");
}

#[test]
fn custom_assignment_still_works() {
    let chans = [ch(0, 0.0, 0.0), ch(1, 0.0, 0.0)];
    let mut settings = no_chase_settings();
    settings.assignment = BandAssignment::Custom;
    settings.channel_bands = vec![(0, vec![Band::Low]), (1, vec![Band::High])];
    let mut e = EffectEngine::new(&chans, palette(), settings);
    on_beat(&mut e, beat(Band::Low));
    let f = tick(&mut e, 20.0);
    assert!(color_of(&f, 0).r > 100);
    assert!(color_of(&f, 1).r < 60);
}

#[test]
fn blackout_panic_overrides() {
    let chans = [ch(0, 0.0, 0.0)];
    let mut e = EffectEngine::new(&chans, palette(), no_chase_settings());
    on_beat(&mut e, beat(Band::Low));
    e.set_panic(Some(Panic::Blackout));
    let frame = tick(&mut e, 20.0);
    assert!(frame.channels.iter().all(|(_, c)| *c == Color::new(0, 0, 0)));
}

fn mask(low: bool, low_mid: bool, high_mid: bool, high: bool) -> BandMask {
    BandMask { low, low_mid, high_mid, high }
}

#[test]
fn heights_are_spread_over_the_bands() {
    // Listed from the ceiling down.
    let chans = [ch(0, 0.0, 1.0), ch(1, 0.0, 0.3), ch(2, 0.0, -0.3), ch(3, 0.0, -1.0)];
    assert_eq!(
        assign_by_height(&chans),
        vec![
            mask(false, false, false, true),
            mask(false, false, true, false),
            mask(false, true, false, false),
            mask(true, false, false, false),
        ]
    );
    // At one height, left to right and then the identifier decide.
    let level = [ch(9, 0.5, 0.0), ch(7, -0.5, 0.0), ch(3, 0.5, 0.0), ch(1, 0.5, 0.0)];
    assert_eq!(
        assign_by_height(&level),
        vec![
            mask(false, false, false, true),
            mask(true, false, false, false),
            mask(false, false, true, false),
            mask(false, true, false, false),
        ]
    );
    assert!(assign_by_height(&[]).is_empty());
    // One light stands in the middle and takes everything.
    assert_eq!(assign_by_height(&[ch(0, 0.0, 0.0)]), vec![mask(true, true, true, true)]);
    // Two lights share: the nearer one takes a band without a light.
    assert_eq!(
        assign_by_height(&[ch(0, 0.0, -1.0), ch(1, 0.0, 1.0)]),
        vec![mask(true, true, false, false), mask(false, false, true, true)]
    );
    // Three lights: ranks 0, 1/2 and 1, of which 1.5 rounds up.
    assert_eq!(
        assign_by_height(&[ch(0, 0.0, -1.0), ch(1, 0.0, 0.0), ch(2, 0.0, 1.0)]),
        vec![
            mask(true, true, false, false),
            mask(false, false, true, false),
            mask(false, false, false, true),
        ]
    );
}

#[test]
fn every_band_reaches_a_light() {
    for n in 1..12usize {
        let chans: Vec<ChannelInfo> =
            (0..n).map(|i| ch(i as u8, 0.0, ((i * 7) % n) as f32)).collect();
        let masks = assign_by_height(&chans);
        for band in Band::ALL {
            assert!(masks.iter().any(|m| m.reacts_to(band)), "{n} lights, {band:?}");
        }
    }
}

#[test]
fn custom_lists_are_read_by_identifier() {
    let chans = [ch(5, 0.0, 0.0), ch(6, 0.0, 0.0), ch(7, 0.0, 0.0)];
    let settings = EffectSettings {
        assignment: BandAssignment::Custom,
        channel_bands: vec![
            (5, vec![Band::Low, Band::High]),
            (5, vec![Band::LowMid]),
            (6, vec![]),
        ],
        ..Default::default()
    };
    assert_eq!(
        compute_masks(&chans, &settings),
        vec![
            mask(true, false, false, true),
            mask(true, true, true, true),
            mask(true, true, true, true),
        ]
    );
}

#[test]
fn panics_hold_the_lights() {
    let chans = [ch(3, 0.0, 0.0), ch(8, 0.0, 0.0)];
    let mut e = EffectEngine::new(&chans, palette(), no_chase_settings());
    on_beat(&mut e, beat(Band::Low));
    let shown = tick(&mut e, 20.0);
    e.set_panic(Some(Panic::Freeze));
    let frozen = tick(&mut e, 20.0);
    assert_eq!(frozen.channels, shown.channels);
    on_beat(&mut e, beat(Band::High));
    assert_eq!(tick(&mut e, 500.0).channels, shown.channels);
    e.set_panic(Some(Panic::WhiteFlash));
    assert_eq!(
        tick(&mut e, 20.0).channels,
        vec![(3, Color::new(255, 255, 255)), (8, Color::new(255, 255, 255))]
    );
    e.set_panic(None);
    assert_ne!(tick(&mut e, 20.0).channels, shown.channels);
}

#[test]
fn brightness_decays_to_the_floor() {
    let mut settings = no_chase_settings();
    settings.assignment = BandAssignment::All;
    settings.mode = EffectMode::Glow;
    let mut e = EffectEngine::new(&[ch(0, 0.0, 0.0)], palette(), settings);
    on_beat(&mut e, beat(Band::Low));
    let floor = 0.08f32;
    let decay = (-20.0f32 / 350.0).exp();
    let mut b = 0.08f32 + (1.0 - 0.08) * 1.0;
    for _ in 0..100 {
        let frame = tick(&mut e, 20.0);
        b = floor + (b - floor) * decay;
        assert_eq!(color_of(&frame, 0), Color::new((255.0 * b) as u8, 0, 0));
    }
    e.set_intensity(s(2.0));
    let floor = 0.08f32 + (1.0 - 0.08) * 0.25 * 1.0;
    let frame = tick(&mut e, 20.0);
    b = floor + (b - floor) * decay;
    assert_eq!(color_of(&frame, 0), Color::new((255.0 * b) as u8, 0, 0));
}

#[test]
fn strong_hits_strobe_white_and_black() {
    let mut settings = no_chase_settings();
    settings.mode = EffectMode::Strobe;
    let mut e = EffectEngine::new(&[ch(0, 0.0, 0.0)], palette(), settings);
    on_beat(&mut e, beat(Band::Low));
    let a = color_of(&tick(&mut e, 20.0), 0);
    assert!(a.r == a.g && a.g == a.b && a.r > 200, "{a:?}");
    assert_eq!(color_of(&tick(&mut e, 20.0), 0), Color::new(0, 0, 0));
    // The strobe lasts 120 ms.
    for _ in 0..4 {
        tick(&mut e, 20.0);
    }
    let later = color_of(&tick(&mut e, 20.0), 0);
    assert!(later.r > 0 && later.g == 0, "{later:?}");
}

#[test]
fn draws_decide_where_the_chance_is_below_one() {
    let chans = [ch(0, 0.0, 0.0), ch(1, 0.0, 0.0)];
    let mut settings = no_chase_settings();
    settings.assignment = BandAssignment::All;
    settings.per_light_probability = s(0.5);
    let mut e = EffectEngine::new(&chans, palette(), settings);
    e.on_beat(&beat(Band::Low), &[s(0.5), s(0.51)]);
    let frame = tick(&mut e, 20.0);
    assert!(color_of(&frame, 0).r > 100);
    assert!(color_of(&frame, 1).r < 60);
}

#[test]
fn chases_go_from_left_to_right_in_equal_steps() {
    let chans = [ch(0, 1.0, 0.0), ch(1, -1.0, 0.0), ch(2, 0.0, 0.0)];
    let mut settings = no_chase_settings();
    settings.assignment = BandAssignment::All;
    settings.chase_ms = s(80.0);
    settings.mode = EffectMode::Glow;
    let mut e = EffectEngine::new(&chans, palette(), settings);
    on_beat(&mut e, beat(Band::Low));
    let mut first_lit = [0; 3];
    for step in 1..=8 {
        let frame = tick(&mut e, 10.0);
        for (i, lit) in first_lit.iter_mut().enumerate() {
            if *lit == 0 && color_of(&frame, i as u8).r > 100 {
                *lit = step;
            }
        }
    }
    assert_eq!(first_lit, [8, 1, 4]);
}

#[test]
fn settings_and_palette_change_in_place() {
    let chans = [ch(0, 0.0, -1.0), ch(1, 0.0, 1.0)];
    let mut e = EffectEngine::new(&chans, palette(), no_chase_settings());
    let mut settings = no_chase_settings();
    settings.assignment = BandAssignment::Custom;
    settings.channel_bands = vec![(0, vec![Band::High]), (1, vec![Band::High])];
    e.set_settings(settings);
    e.set_palette(Palette { name: "white".into(), colors: vec![] });
    on_beat(&mut e, beat(Band::Low));
    assert!(color_of(&tick(&mut e, 20.0), 0).g < 60);
    on_beat(&mut e, beat(Band::High));
    let frame = tick(&mut e, 20.0);
    assert!(color_of(&frame, 0).g > 100 && color_of(&frame, 1).b > 100);
}

#[test]
fn default_settings_of_effects() {
    let e = EffectSettings::default();
    assert_eq!(f(e.brightness_min), 0.08);
    assert_eq!(f(e.brightness_max), 1.0);
    assert_eq!(f(e.fade_ms), 350.0);
    assert_eq!(f(e.color_fade_ms), 120.0);
    assert_eq!(e.mode, EffectMode::Auto);
    assert_eq!(f(e.per_light_probability), 1.0);
    assert_eq!(e.band_slots, [0, 1, 2, 3]);
    assert_eq!(e.assignment, BandAssignment::ByHeight);
    assert!(e.channel_bands.is_empty());
    assert_eq!(f(e.chase_ms), 80.0);
    assert!(e.strobe_on_peaks);
}

#[test]
fn beats_of_other_bands_leave_a_light_alone() {
    let chans = [ch(0, 0.0, 0.0), ch(1, 0.0, 0.0)];
    let settings = || EffectSettings {
        assignment: BandAssignment::Custom,
        channel_bands: vec![(0, vec![Band::Low]), (1, vec![Band::High])],
        ..no_chase_settings()
    };
    let mut with = EffectEngine::new(&chans, palette(), settings());
    let mut without = EffectEngine::new(&chans, palette(), settings());
    for step in 0..60 {
        if step % 10 == 0 {
            on_beat(&mut with, beat(Band::Low));
            on_beat(&mut without, beat(Band::Low));
        }
        if step % 7 == 3 {
            on_beat(&mut with, beat(Band::High));
        }
        let (a, b) = (tick(&mut with, 20.0), tick(&mut without, 20.0));
        assert_eq!(color_of(&a, 0), color_of(&b, 0));
    }
}

#[test]
fn a_weak_beat_does_not_dim_a_light() {
    let settings = || EffectSettings {
        assignment: BandAssignment::All,
        mode: EffectMode::Glow,
        ..no_chase_settings()
    };
    let weak = BandBeatEvent { strength: s(0.05), ..beat(Band::Low) };
    let mut e = EffectEngine::new(&[ch(0, 0.0, 0.0)], palette(), settings());
    let mut twice = EffectEngine::new(&[ch(0, 0.0, 0.0)], palette(), settings());
    on_beat(&mut e, beat(Band::Low));
    on_beat(&mut twice, beat(Band::Low));
    on_beat(&mut twice, weak);
    for _ in 0..20 {
        let (a, b) = (tick(&mut e, 20.0), tick(&mut twice, 20.0));
        assert!(color_of(&b, 0).r >= color_of(&a, 0).r);
    }
}

#[test]
fn glowing_lights_never_strobe() {
    let mut settings = no_chase_settings();
    settings.assignment = BandAssignment::All;
    settings.mode = EffectMode::Glow;
    let mut e = EffectEngine::new(&[ch(0, 0.0, 0.0)], palette(), settings);
    e.set_intensity(s(1.0));
    for step in 0..100 {
        if step % 5 == 0 {
            on_beat(&mut e, BandBeatEvent { strength: s(1.5), ..beat(Band::Low) });
        }
        let c = color_of(&tick(&mut e, 20.0), 0);
        assert!(c.r > 0 && c.g == 0 && c.b == 0, "{c:?}");
    }
}

#[test]
fn four_lights_or_more_react_to_one_band_each() {
    for n in 4..=200u8 {
        let chans: Vec<ChannelInfo> =
            (0..n).map(|i| ch(i, 0.0, (i as f32 * 37.0) % 11.0 - 5.0)).collect();
        let masks = assign_by_height(&chans);
        let mut lights = [0; 4];
        for m in &masks {
            let bands = [m.low, m.low_mid, m.high_mid, m.high];
            assert_eq!(bands.iter().filter(|&&b| b).count(), 1, "{n}");
            lights[bands.iter().position(|&b| b).unwrap()] += 1;
        }
        assert!(lights.iter().all(|&k| k > 0), "{n} {lights:?}");
    }
}
