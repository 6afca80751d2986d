use huebeat::core_types::{Color, Genre, Palette};
use huebeat::palette::{
    default_palette, from_toml, pal, to_toml, PaletteStore, PaletteToml, StoreToml,
};

#[test]
fn stores_come_back_from_their_files() {
    let mut store = PaletteStore::default();
    store.genre_map.insert(
        Genre::DeepHouse,
        pal("My Deep", [0x000011, 0x000022, 0x000033, 0x000044]),
    );
    store.custom.push(pal("Mine", [0x0a0b0c, 0xffffff, 0, 0x800000]));
    let loaded = PaletteStore::from_file(&store.to_file());
    assert_eq!(loaded.palette_for(Genre::DeepHouse).name, "My Deep");
    assert_eq!(loaded.palette_for(Genre::Hardcore).name, default_palette(Genre::Hardcore).name);
    for g in Genre::ALL {
        let (a, b) = (store.palette_for(g), loaded.palette_for(g));
        assert_eq!((a.name, a.colors), (b.name, b.colors));
    }
    assert_eq!(loaded.custom.len(), 1);
    assert_eq!(loaded.custom[0].colors[0], Color::new(10, 11, 12));
}

#[test]
fn files_list_every_genre_with_hex_colors() {
    let file = PaletteStore::default().to_file();
    assert_eq!(file.genres.len(), Genre::ALL.len());
    assert_eq!(file.genres[0].0, "deep_house");
    assert_eq!(file.genres[0].1.name, "Deep House");
    assert_eq!(file.genres[0].1.colors, ["#0f52ba", "#00a6a6", "#4361ee", "#7fd8ff"]);
    assert!(file.custom.is_empty());
}

#[test]
fn unknown_genres_and_unreadable_colors_are_left_out() {
    let entry = |name: &str| PaletteToml {
        name: name.to_string(),
        colors: vec!["#010203".to_string(), "oops".to_string(), "040506".to_string()],
    };
    let file = StoreToml {
        genres: vec![
            ("polka".to_string(), entry("Polka")),
            ("techno".to_string(), entry("First")),
            ("techno".to_string(), entry("Second")),
        ],
        custom: vec![entry("Own")],
    };
    let store = PaletteStore::from_file(&file);
    let techno = store.palette_for(Genre::Techno);
    assert_eq!(techno.name, "Second");
    assert_eq!(techno.colors, vec![Color::new(1, 2, 3), Color::new(4, 5, 6)]);
    assert_eq!(store.palette_for(Genre::House).name, "House");
    assert_eq!(store.custom[0].colors.len(), 2);
}

#[test]
fn built_in_palettes_have_four_colors() {
    for g in Genre::ALL {
        assert_eq!(default_palette(g).colors.len(), 4);
    }
    let p = default_palette(Genre::Unknown);
    assert_eq!(p.name, "Auto");
    assert_eq!(p.colors[0], Color::new(0xff, 0x00, 0x55));
    assert_eq!(default_palette(Genre::ElectroHouse).name, "EDM / Big Room");
    assert_eq!(default_palette(Genre::Rnb).colors[3], Color::new(0xe0, 0xaa, 0xff));
}

#[test]
fn resets_restore_built_in_palettes() {
    let mut store = PaletteStore::default();
    let odd = || Palette { name: "odd".to_string(), colors: vec![] };
    store.genre_map.insert(Genre::Trap, odd());
    store.genre_map.insert(Genre::Trance, odd());
    assert_eq!(store.palette_for(Genre::Trap).name, "odd");
    assert_eq!(store.reset_genre(Genre::Trap).name, "Trap");
    assert_eq!(store.palette_for(Genre::Trap).name, "Trap");
    assert_eq!(store.palette_for(Genre::Trance).name, "odd");
    store.reset_all();
    assert_eq!(store.palette_for(Genre::Trance).name, "Trance");
}

#[test]
fn spelled_palettes_are_read_back() {
    let p = Palette {
        name: "Tëst".to_string(),
        colors: vec![Color::new(0, 127, 255), Color::new(9, 8, 7)],
    };
    let t = to_toml(&p);
    assert_eq!(t.colors, ["#007fff", "#090807"]);
    let q = from_toml(&t);
    assert_eq!((q.name, q.colors), (p.name, p.colors));
}
