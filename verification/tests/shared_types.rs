use huebeat::core_types::{
    Band, BandConfig, Color, Genre, LightFrame, Palette, ThresholdMode,
};
use huebeat::single::Single;

fn s(x: f32) -> Single {
    Single { bits: x.to_bits() }
}

#[test]
fn genre_ids_roundtrip() {
    for &g in Genre::ALL.iter() {
        assert_eq!(Genre::from_id(g.as_str()), Some(g), "{g:?}");
    }
    assert_eq!(Genre::from_id("not_a_genre"), None);
}

#[test]
fn genre_ids_are_unique() {
    let mut ids: Vec<&str> = Genre::ALL.iter().map(|g| g.as_str()).collect();
    let count = ids.len();
    ids.sort_unstable();
    ids.dedup();
    assert_eq!(ids.len(), count, "duplicate genre id");
}

#[test]
fn genre_ids_are_the_known_ones() {
    assert_eq!(Genre::DeepHouse.as_str(), "deep_house");
    assert_eq!(Genre::Unknown.as_str(), "unknown");
    assert_eq!(Genre::from_id("rnb"), Some(Genre::Rnb));
    assert_eq!(Genre::from_id(""), None);
    assert_eq!(Genre::ALL.len(), 29);
    for (i, g) in Genre::ALL.iter().enumerate() {
        assert_eq!(g.index(), i);
        assert_eq!(Genre::at(i), *g);
    }
}

#[test]
fn bands_have_their_places() {
    for (i, b) in Band::ALL.iter().enumerate() {
        assert_eq!(b.index(), i);
        assert_eq!(Band::at(i), *b);
    }
}

#[test]
fn colors_are_read_from_hex() {
    assert_eq!(Color::from_hex("#ff8c00"), Some(Color::new(255, 140, 0)));
    assert_eq!(Color::from_hex("FF8C00"), Some(Color::new(255, 140, 0)));
    assert_eq!(Color::from_hex("##0a0B0c"), Some(Color::new(10, 11, 12)));
    assert_eq!(Color::from_hex("#+12345"), Some(Color::new(1, 0x23, 0x45)));
    assert_eq!(Color::from_hex("#12345"), None);
    assert_eq!(Color::from_hex("#1234567"), None);
    assert_eq!(Color::from_hex("#12345g"), None);
    assert_eq!(Color::from_hex("#1234é"), None);
    assert_eq!(Color::from_hex("#-12345"), None);
    assert_eq!(Color::from_hex(""), None);
}

#[test]
fn colors_are_written_as_hex() {
    assert_eq!(Color::new(255, 140, 0).to_hex(), "#ff8c00");
    assert_eq!(Color::new(0, 10, 159).to_hex(), "#000a9f");
    for i in 0..=255u8 {
        let c = Color::new(i, 255 - i, i ^ 0x5a);
        assert_eq!(c.to_hex(), format!("#{:02x}{:02x}{:02x}", c.r, c.g, c.b));
        assert_eq!(Color::from_hex(&c.to_hex()), Some(c));
    }
}

#[test]
fn colors_blend_and_dim_as_floats_do() {
    for i in 0..=40 {
        let t = i as f32 / 20.0 - 0.5;
        let u = t.clamp(0.0, 1.0);
        for (a, b) in [(0u8, 255u8), (255, 0), (13, 200), (77, 77), (1, 2)] {
            let mid = Color::new(a, b, a).lerp(Color::new(b, a, 9), s(t));
            let l = |a: u8, b: u8| (a as f32 + (b as f32 - a as f32) * u).round() as u8;
            assert_eq!(mid, Color::new(l(a, b), l(b, a), l(a, 9)));
            let dim = Color::new(a, b, 255).scaled(s(t));
            let d = |c: u8| (c as f32 * u) as u8;
            assert_eq!(dim, Color::new(d(a), d(b), d(255)));
        }
    }
    assert_eq!(Color::new(10, 20, 30).scaled(s(f32::NAN)), Color::new(0, 0, 0));
}

#[test]
fn palette_slots_wrap_around() {
    let p = Palette {
        name: "two".to_string(),
        colors: vec![Color::new(1, 1, 1), Color::new(2, 2, 2)],
    };
    assert_eq!(p.slot(0), Color::new(1, 1, 1));
    assert_eq!(p.slot(3), Color::new(2, 2, 2));
    assert_eq!(p.clone().name, "two");
    assert_eq!(p.clone().colors, p.colors);
    let empty = Palette { name: String::new(), colors: vec![] };
    assert_eq!(empty.slot(5), Color::new(255, 255, 255));
}

#[test]
fn defaults_of_shared_types() {
    let edges = BandConfig::default().edges;
    assert_eq!(edges, [s(20.0), s(150.0), s(800.0), s(4000.0), s(16000.0)]);
    assert_eq!(ThresholdMode::default(), ThresholdMode::Auto);
    assert!(LightFrame::default().channels.is_empty());
    let f = LightFrame { channels: vec![(4, Color::new(1, 2, 3))] };
    assert_eq!(f.clone().channels, f.channels);
}
