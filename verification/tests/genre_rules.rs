use huebeat::core_types::Genre;
use huebeat::genre::{GenreClassifier, RuleBasedClassifier, SWITCH_AFTER};
use huebeat::genre_rules::{
    evidence, instant_scores, rhythm_context, trapezoid, Features, RULES,
};
use huebeat::single::Single;

fn s(x: f32) -> Single {
    Single { bits: x.to_bits() }
}

fn f(x: Single) -> f32 {
    f32::from_bits(x.bits)
}


fn feed(c: &mut RuleBasedClassifier, f: &Features, n: usize) -> Option<Genre> {
    let mut last = None;
    for _ in 0..n {
        if let Some(g) = c.update(f) {
            last = Some(g);
        }
    }
    last
}

fn classify(f: &Features) -> Option<Genre> {
    let mut c = RuleBasedClassifier::default();
    feed(&mut c, f, 20)
}

fn deep_house() -> Features {
    Features {
        bpm: s(121.0),
        bpm_confidence: s(0.6),
        band_energy: [s(0.8), s(0.4), s(0.3), s(0.2)],
        kick_density: s(2.0),
        snare_density: s(0.5),
        hat_density: s(2.0),
        kick_ibi_bpm: s(121.0),
        kick_regularity: s(0.85),
        centroid: s(900.0),
        intensity: s(0.6),
    }
}

fn hardcore() -> Features {
    Features {
        bpm: s(180.0),
        bpm_confidence: s(0.7),
        band_energy: [s(0.9), s(0.7), s(0.5), s(0.4)],
        kick_density: s(3.0),
        snare_density: s(2.0),
        hat_density: s(3.0),
        kick_ibi_bpm: s(180.0),
        kick_regularity: s(0.9),
        centroid: s(2500.0),
        intensity: s(0.9),
    }
}

fn kawaii() -> Features {
    Features {
        bpm: s(150.0),
        bpm_confidence: s(0.6),
        band_energy: [s(0.5), s(0.4), s(0.6), s(0.8)],
        kick_density: s(1.5),
        snare_density: s(1.5),
        hat_density: s(4.0),
        kick_ibi_bpm: s(150.0),
        kick_regularity: s(0.5),
        centroid: s(6000.0),
        intensity: s(0.7),
    }
}

fn hip_hop() -> Features {
    Features {
        bpm: s(92.0),
        bpm_confidence: s(0.5),
        band_energy: [s(0.85), s(0.5), s(0.35), s(0.3)],
        kick_density: s(1.2),
        snare_density: s(1.0),
        hat_density: s(3.0),
        // Syncopated kicks: irregular, not locked to the beat grid.
        kick_ibi_bpm: s(130.0),
        kick_regularity: s(0.3),
        centroid: s(2000.0),
        intensity: s(0.6),
    }
}

/// 174 BPM four-on-floor track whose tempo detector locked onto 87.
fn half_tempo_hardcore() -> Features {
    Features {
        bpm: s(87.0),
        bpm_confidence: s(0.6),
        band_energy: [s(0.9), s(0.7), s(0.5), s(0.4)],
        kick_density: s(2.9),
        snare_density: s(2.0),
        hat_density: s(3.0),
        kick_ibi_bpm: s(174.0),
        kick_regularity: s(0.85),
        centroid: s(2500.0),
        intensity: s(0.9),
    }
}

/// 172 BPM four-on-floor club track whose tempo detector locked onto
/// 86 and whose kick grid reads noisy (regularity below the 0.5
/// octave-correction cutoff) — the real-world "everything is hip hop"
/// failure mode.
fn half_tempo_sloppy_club() -> Features {
    Features {
        bpm: s(86.0),
        bpm_confidence: s(0.55),
        band_energy: [s(0.85), s(0.6), s(0.45), s(0.35)],
        // Kick rate ~2x the detected beat rate backs up the IBI cue.
        kick_density: s(2.7),
        snare_density: s(1.5),
        hat_density: s(4.0),
        kick_ibi_bpm: s(168.0),
        kick_regularity: s(0.45),
        centroid: s(2300.0),
        intensity: s(0.8),
    }
}

/// Dark low-heavy playback where beat detection found no usable kick
/// grid: without positive syncopation evidence hip hop must not fire.
fn no_kick_info_dark() -> Features {
    Features {
        bpm: s(92.0),
        bpm_confidence: s(0.4),
        band_energy: [s(0.8), s(0.5), s(0.3), s(0.2)],
        kick_density: s(0.6),
        snare_density: s(0.2),
        hat_density: s(1.0),
        kick_ibi_bpm: s(0.0),
        kick_regularity: s(0.0),
        centroid: s(1800.0),
        intensity: s(0.5),
    }
}

fn house_128() -> Features {
    Features {
        bpm: s(128.0),
        bpm_confidence: s(0.7),
        band_energy: [s(0.8), s(0.5), s(0.6), s(0.4)],
        kick_density: s(2.1),
        snare_density: s(1.5),
        hat_density: s(4.0),
        kick_ibi_bpm: s(128.0),
        kick_regularity: s(0.9),
        centroid: s(3200.0),
        intensity: s(0.7),
    }
}

fn psytrance() -> Features {
    Features {
        bpm: s(142.0),
        bpm_confidence: s(0.7),
        // Rolling bass keeps the low band saturated.
        band_energy: [s(0.95), s(0.4), s(0.35), s(0.3)],
        kick_density: s(2.4),
        snare_density: s(0.8),
        hat_density: s(6.0),
        kick_ibi_bpm: s(142.0),
        kick_regularity: s(0.95),
        centroid: s(2600.0),
        intensity: s(0.8),
    }
}

fn eurobeat() -> Features {
    Features {
        bpm: s(156.0),
        bpm_confidence: s(0.7),
        band_energy: [s(0.6), s(0.5), s(0.7), s(0.6)],
        kick_density: s(2.6),
        snare_density: s(2.5),
        hat_density: s(7.0),
        kick_ibi_bpm: s(156.0),
        kick_regularity: s(0.85),
        centroid: s(4500.0),
        intensity: s(0.8),
    }
}

fn trap() -> Features {
    Features {
        bpm: s(140.0),
        bpm_confidence: s(0.5),
        // 808 sub dominates; hats roll constantly, kicks are sparse.
        band_energy: [s(0.9), s(0.3), s(0.25), s(0.35)],
        kick_density: s(0.8),
        snare_density: s(1.2),
        hat_density: s(8.0),
        kick_ibi_bpm: s(100.0),
        kick_regularity: s(0.25),
        centroid: s(2400.0),
        intensity: s(0.6),
    }
}

fn reggaeton() -> Features {
    Features {
        bpm: s(95.0),
        bpm_confidence: s(0.6),
        band_energy: [s(0.85), s(0.45), s(0.4), s(0.3)],
        kick_density: s(1.6),
        snare_density: s(2.5),
        hat_density: s(2.0),
        kick_ibi_bpm: s(95.0),
        kick_regularity: s(0.85),
        centroid: s(2800.0),
        intensity: s(0.65),
    }
}

fn hardstyle() -> Features {
    Features {
        bpm: s(152.0),
        bpm_confidence: s(0.7),
        // Distorted kick dumps energy into the low mids.
        band_energy: [s(0.8), s(0.9), s(0.5), s(0.35)],
        kick_density: s(2.5),
        snare_density: s(1.0),
        hat_density: s(3.0),
        kick_ibi_bpm: s(152.0),
        kick_regularity: s(0.9),
        centroid: s(2200.0),
        intensity: s(0.85),
    }
}

fn future_core() -> Features {
    Features {
        bpm: s(175.0),
        bpm_confidence: s(0.7),
        band_energy: [s(0.7), s(0.5), s(0.7), s(0.6)],
        kick_density: s(2.9),
        snare_density: s(2.0),
        hat_density: s(5.0),
        kick_ibi_bpm: s(175.0),
        kick_regularity: s(0.9),
        centroid: s(4500.0),
        intensity: s(0.85),
    }
}

fn jersey_club() -> Features {
    Features {
        bpm: s(140.0),
        bpm_confidence: s(0.6),
        band_energy: [s(0.7), s(0.5), s(0.6), s(0.5)],
        // The 5-kick bounce: dense bursts that don't sit on a grid.
        kick_density: s(3.6),
        snare_density: s(2.5),
        hat_density: s(4.0),
        kick_ibi_bpm: s(210.0),
        kick_regularity: s(0.45),
        centroid: s(3200.0),
        intensity: s(0.7),
    }
}

fn hyperflip() -> Features {
    Features {
        bpm: s(155.0),
        bpm_confidence: s(0.6),
        band_energy: [s(0.7), s(0.6), s(0.7), s(0.7)],
        // Everything maximal at once: chops, snares, hats.
        kick_density: s(3.0),
        snare_density: s(4.5),
        hat_density: s(9.0),
        kick_ibi_bpm: s(200.0),
        kick_regularity: s(0.35),
        centroid: s(4200.0),
        intensity: s(0.9),
    }
}

fn anison_remix() -> Features {
    Features {
        bpm: s(138.0),
        bpm_confidence: s(0.6),
        // Vocals dominate the high mids over a club four-on-floor.
        band_energy: [s(0.65), s(0.5), s(0.8), s(0.55)],
        kick_density: s(2.3),
        snare_density: s(3.0),
        hat_density: s(5.0),
        kick_ibi_bpm: s(138.0),
        kick_regularity: s(0.85),
        centroid: s(3800.0),
        intensity: s(0.75),
    }
}

fn net_pop() -> Features {
    Features {
        bpm: s(122.0),
        bpm_confidence: s(0.6),
        band_energy: [s(0.6), s(0.5), s(0.75), s(0.5)],
        kick_density: s(2.0),
        snare_density: s(2.2),
        hat_density: s(4.0),
        kick_ibi_bpm: s(122.0),
        kick_regularity: s(0.8),
        centroid: s(3600.0),
        intensity: s(0.65),
    }
}

#[test]
fn classifies_japanese_club_genres() {
    assert_eq!(classify(&future_core()), Some(Genre::FutureCore));
    assert_eq!(classify(&jersey_club()), Some(Genre::JerseyClub));
    assert_eq!(classify(&hyperflip()), Some(Genre::Hyperflip));
    assert_eq!(classify(&anison_remix()), Some(Genre::AnisonRemix));
    assert_eq!(classify(&net_pop()), Some(Genre::NetPop));
}

#[test]
fn classifies_representative_genres() {
    assert_eq!(classify(&deep_house()), Some(Genre::DeepHouse));
    assert_eq!(classify(&hardcore()), Some(Genre::Hardcore));
    assert_eq!(classify(&kawaii()), Some(Genre::KawaiiFutureBass));
    assert_eq!(classify(&hip_hop()), Some(Genre::HipHop));
}

#[test]
fn classifies_new_genres() {
    assert_eq!(classify(&psytrance()), Some(Genre::Psytrance));
    assert_eq!(classify(&eurobeat()), Some(Genre::Eurobeat));
    assert_eq!(classify(&trap()), Some(Genre::Trap));
    assert_eq!(classify(&reggaeton()), Some(Genre::Reggaeton));
    assert_eq!(classify(&hardstyle()), Some(Genre::Hardstyle));
}

#[test]
fn four_on_floor_never_reads_as_hip_hop() {
    // A 128 BPM 4-on-floor club track must not land on hip hop.
    let mut c = RuleBasedClassifier::default();
    let got = feed(&mut c, &house_128(), 20);
    assert!(got.is_some(), "should classify something");
    assert_ne!(c.current(), Genre::HipHop, "got {:?}", c.current());
}

#[test]
fn half_tempo_detection_is_octave_corrected() {
    // Tempo detector says 87 but the kick grid runs at 174: the
    // classifier must correct the octave instead of calling it hip hop.
    assert_eq!(classify(&half_tempo_hardcore()), Some(Genre::Hardcore));
}

#[test]
fn sloppy_half_tempo_club_never_reads_as_hip_hop() {
    // Even when the kick grid reads too noisy for the regularity
    // cutoff, the kick-rate fallback must octave-correct instead of
    // dumping the track into hip hop.
    let mut c = RuleBasedClassifier::default();
    let got = feed(&mut c, &half_tempo_sloppy_club(), 20);
    assert!(got.is_some(), "should classify something");
    assert_ne!(c.current(), Genre::HipHop, "got {:?}", c.current());
}

#[test]
fn no_kick_data_never_reads_as_hip_hop() {
    let mut c = RuleBasedClassifier::default();
    feed(&mut c, &no_kick_info_dark(), 20);
    assert_ne!(c.current(), Genre::HipHop, "got {:?}", c.current());
}

#[test]
fn ranked_returns_normalized_shares() {
    let mut c = RuleBasedClassifier::default();
    feed(&mut c, &deep_house(), 20);
    let ranked = c.ranked(3);
    assert!(!ranked.is_empty());
    assert_eq!(ranked[0].0, Genre::DeepHouse);
    assert!(f(ranked[0].1) > 0.0 && f(ranked[0].1) <= 1.0);
    // Shares are descending.
    for w in ranked.windows(2) {
        assert!(f(w[0].1) >= f(w[1].1));
    }
}

#[test]
fn hysteresis_prevents_flapping() {
    let mut c = RuleBasedClassifier::default();
    feed(&mut c, &deep_house(), 20);
    assert_eq!(c.current(), Genre::DeepHouse);
    // A couple of odd readings must not flip the genre immediately.
    assert_eq!(feed(&mut c, &hardcore(), 3), None);
    assert_eq!(c.current(), Genre::DeepHouse);
    // Sustained change eventually switches.
    assert_eq!(feed(&mut c, &hardcore(), 30), Some(Genre::Hardcore));
}

fn score_of(features: &Features, genre: Genre) -> f32 {
    f(instant_scores(features).iter().find(|(g, _)| *g == genre).unwrap().1)
}

#[test]
fn trapezoid_rises_holds_and_falls() {
    let t = |x: f32| f(trapezoid(s(x), s(10.0), s(20.0), s(30.0), s(50.0)));
    assert_eq!(t(10.0), 0.0);
    assert_eq!(t(12.5), 0.25);
    assert_eq!(t(20.0), 1.0);
    assert_eq!(t(30.0), 1.0);
    assert_eq!(t(35.0), 0.75);
    assert_eq!(t(50.0), 0.0);
    assert_eq!(t(-3.0), 0.0);
    // A range that begins in full has no rise.
    assert_eq!(f(trapezoid(s(0.5), s(0.0), s(0.0), s(2.0), s(3.5))), 1.0);
    assert_eq!(f(trapezoid(s(0.0), s(0.0), s(0.0), s(2.0), s(3.5))), 0.0);
}

#[test]
fn evidence_is_a_weighted_mean_of_clamped_values() {
    let terms = vec![(s(1.0), s(0.5)), (s(3.0), s(7.0)), (s(2.0), s(-1.0))];
    assert_eq!(f(evidence(&terms)), (1.0 * 0.5 + 3.0 * 1.0 + 2.0 * 0.0) / 6.0);
    assert_eq!(f(evidence(&vec![])), 0.0);
    assert_eq!(f(evidence(&vec![(s(0.0), s(1.0))])), 0.0);
}

#[test]
fn rhythm_is_octave_corrected_by_grid_or_rate() {
    let (bpm, four) = rhythm_context(&half_tempo_hardcore());
    assert_eq!(f(bpm), 174.0);
    assert_eq!(f(four), 0.85);
    let (bpm, _) = rhythm_context(&half_tempo_sloppy_club());
    assert_eq!(f(bpm), 172.0);
    let (bpm, four) = rhythm_context(&no_kick_info_dark());
    assert_eq!((f(bpm), f(four)), (92.0, 0.0));
    let mut noisy = half_tempo_hardcore();
    noisy.kick_regularity = s(0.5);
    noisy.kick_density = s(2.0);
    assert_eq!(f(rhythm_context(&noisy).0), 87.0);
}

#[test]
fn quiet_or_uncertain_music_is_ambient() {
    let mut quiet = deep_house();
    quiet.intensity = s(0.07);
    assert_eq!(instant_scores(&quiet), vec![(Genre::Ambient, s(0.6))]);
    let mut uncertain = deep_house();
    uncertain.bpm_confidence = s(0.04);
    assert_eq!(instant_scores(&uncertain), vec![(Genre::Ambient, s(0.6))]);
    assert_eq!(instant_scores(&Features::default()), vec![(Genre::Ambient, s(0.6))]);
}

#[test]
fn scores_follow_the_rules_to_the_bit() {
    let scores = instant_scores(&house_128());
    assert_eq!(scores.len(), RULES.len());
    for (i, (g, _)) in scores.iter().enumerate() {
        assert_eq!(*g, RULES[i]);
    }
    // House at 128: full tempo fit; the kicks run on the grid, the hats groove.
    let four_floor = 0.9f32 * 1.0;
    let sum = 0.0f32 + 1.2 * four_floor + 0.8 * 0.6 + 0.6 * 1.0;
    let weights = 0.0f32 + 1.2 + 0.8 + 0.6;
    assert_eq!(score_of(&house_128(), Genre::House), 1.0 * (0.25 + 0.75 * (sum / weights)));
    // Techno at 128: the tempo range begins there in full.
    let dark = (5500.0f32 - 3200.0) / (5500.0 - 2800.0);
    let kicks = 1.0f32;
    let sum = 0.0f32 + 1.2 * four_floor + 1.0 * 0.8 + 0.8 * dark + 0.5 * kicks;
    let weights = 0.0f32 + 1.2 + 1.0 + 0.8 + 0.5;
    assert_eq!(score_of(&house_128(), Genre::Techno), 1.0 * (0.25 + 0.75 * (sum / weights)));
    // Rnb and hip hop are far from this tempo.
    assert_eq!(score_of(&house_128(), Genre::HipHop), 0.0);
    assert_eq!(score_of(&house_128(), Genre::Rnb), 0.0);
}

#[test]
fn scores_stay_between_zero_and_one() {
    for features in [deep_house(), hardcore(), kawaii(), hip_hop(), trap(), hyperflip(), net_pop()] {
        for (g, score) in instant_scores(&features) {
            assert!(f(score) >= 0.0 && f(score) <= 1.0, "{g:?} {}", f(score));
        }
    }
}

#[test]
fn hip_hop_and_rnb_need_kicks_off_the_grid() {
    assert!(score_of(&hip_hop(), Genre::HipHop) > 0.5);
    assert_eq!(score_of(&no_kick_info_dark(), Genre::HipHop), 0.0);
    assert_eq!(score_of(&no_kick_info_dark(), Genre::Rnb), 0.0);
    let mut grid = hip_hop();
    grid.kick_ibi_bpm = s(92.0);
    grid.kick_regularity = s(1.0);
    assert_eq!(score_of(&grid, Genre::HipHop), 0.0);
}

#[test]
fn a_switch_takes_six_leads_in_a_row() {
    let mut c = RuleBasedClassifier::default();
    for _ in 1..SWITCH_AFTER {
        assert_eq!(c.update(&deep_house()), None);
        assert_eq!(c.current(), Genre::Unknown);
    }
    assert_eq!(c.update(&deep_house()), Some(Genre::DeepHouse));
    assert_eq!(c.current(), Genre::DeepHouse);
}

/// A weak hardcore track: only that genre is this fast.
fn weak_hardcore(bpm: f32) -> Features {
    Features {
        bpm: s(bpm),
        bpm_confidence: s(0.7),
        band_energy: [s(0.3), s(0.1), s(0.1), s(0.1)],
        kick_density: s(3.0),
        snare_density: s(0.0),
        hat_density: s(0.0),
        kick_ibi_bpm: s(0.0),
        kick_regularity: s(0.0),
        centroid: s(2500.0),
        intensity: s(0.5),
    }
}

#[test]
fn faint_updates_end_a_row_of_leads() {
    let mut c = RuleBasedClassifier::default();
    // Five leads, with a score that stays between 0.5 and 0.6.
    let mut score = score_of(&weak_hardcore(195.0), Genre::Hardcore);
    assert!(score > 0.5 && score < 0.6, "{score}");
    assert_eq!(c.update(&weak_hardcore(195.0)), None);
    for _ in 0..4 {
        score = score * 0.82 + score_of(&weak_hardcore(211.5), Genre::Hardcore);
        assert!(score > 0.5 && score < 0.6, "{score}");
        assert_eq!(c.update(&weak_hardcore(211.5)), None);
    }
    // No genre is this fast: the score falls below a half, and at the sixth below the margin.
    for _ in 0..6 {
        assert_eq!(score_of(&weak_hardcore(300.0), Genre::Hardcore), 0.0);
        assert_eq!(c.update(&weak_hardcore(300.0)), None);
        score *= 0.82;
    }
    assert!(score < 0.2 && score / 0.82 > 0.2, "{score}");
    // The next lead is the first of a new row.
    for _ in 0..5 {
        assert_eq!(c.update(&weak_hardcore(195.0)), None);
    }
    assert_eq!(c.update(&weak_hardcore(195.0)), Some(Genre::Hardcore));
}

#[test]
fn a_faint_lead_neither_counts_nor_ends_a_row() {
    let mut c = RuleBasedClassifier::default();
    assert_eq!(c.update(&weak_hardcore(195.0)), None);
    for _ in 0..4 {
        assert_eq!(c.update(&weak_hardcore(211.5)), None);
    }
    // The score falls below a half, and stays above the margin.
    for _ in 0..5 {
        assert_eq!(c.update(&weak_hardcore(300.0)), None);
    }
    assert_eq!(c.current(), Genre::Unknown);
    // Five leads are kept: the next one is the sixth.
    assert_eq!(c.update(&weak_hardcore(195.0)), Some(Genre::Hardcore));
}

#[test]
fn ranked_is_cut_and_empty_without_scores() {
    let mut c = RuleBasedClassifier::default();
    assert!(c.ranked(5).is_empty());
    feed(&mut c, &deep_house(), 10);
    assert!(c.ranked(0).is_empty());
    assert_eq!(c.ranked(2).len(), 2);
    let all = c.ranked(100);
    assert!(all.len() > 2);
    assert_eq!(all[..2], c.ranked(2)[..]);
    for n in 0..=all.len() {
        assert_eq!(c.ranked(n)[..], all[..n]);
    }
    let total: f32 = all.iter().map(|(_, share)| f(*share)).sum();
    assert!(total > 0.9 && total <= 1.001, "{total}");
    assert!(all.iter().all(|(_, share)| f(*share) > 0.0 && f(*share) <= 1.0));
}
