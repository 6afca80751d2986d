//! Genre palettes and the store that keeps them.
//!
//! The order of the slots matters: bands map to slots, slot 0 to the kick, 1 to the low mids, 2 to
//! the high mids, 3 to the highs.
use vstd::prelude::*;
use vstd::string::*;

use crate::core_types::{
    genre_with, lemma_all_genres, lemma_genre_id_roundtrip, lemma_position_unique, Color, Genre,
    Palette, PaletteModel, GENRES,
};
use crate::core_laws::lemma_color_text;

verus! {

/// The name of the built-in palette of a genre.
pub open spec fn default_name(g: Genre) -> Seq<char> {
    match g {
        Genre::DeepHouse => "Deep House"@,
        Genre::House => "House"@,
        Genre::TechHouse => "Tech House"@,
        Genre::ElectroHouse => "EDM / Big Room"@,
        Genre::NuDisco => "Nu Disco"@,
        Genre::NetPop => "Net Pop"@,
        Genre::UkGarage => "UK Garage"@,
        Genre::JerseyClub => "Jersey Club"@,
        Genre::Techno => "Techno"@,
        Genre::Trance => "Trance"@,
        Genre::Psytrance => "Psytrance"@,
        Genre::Hardstyle => "Hardstyle"@,
        Genre::Eurobeat => "Eurobeat"@,
        Genre::AnisonRemix => "Anison Remix"@,
        Genre::Breakbeat => "Breakbeat"@,
        Genre::DrumAndBass => "Drum & Bass"@,
        Genre::Dubstep => "Dubstep"@,
        Genre::Trap => "Trap"@,
        Genre::Hyperflip => "Hyperflip"@,
        Genre::FutureBass => "Future Bass"@,
        Genre::FutureCore => "Future Core"@,
        Genre::Hardcore => "Hardcore"@,
        Genre::KawaiiFutureBass => "Kawaii Future Bass"@,
        Genre::HipHop => "Hip Hop"@,
        Genre::Rnb => "R&B"@,
        Genre::Reggaeton => "Reggaeton"@,
        Genre::Synthwave => "Synthwave"@,
        Genre::Ambient => "Ambient"@,
        Genre::Unknown => "Auto"@,
    }
}

/// The colours of the built-in palette of a genre, as codes of six hexadecimal digits.
pub open spec fn default_codes(g: Genre) -> (nat, nat, nat, nat) {
    match g {
        Genre::DeepHouse => (0x0f52ba, 0x00a6a6, 0x4361ee, 0x7fd8ff),
        Genre::House => (0xff8c00, 0xffd166, 0xef476f, 0xffe8c2),
        Genre::TechHouse => (0x00b894, 0x0984e3, 0x55efc4, 0xdfe6e9),
        Genre::ElectroHouse => (0xff3d00, 0x00e5ff, 0xffea00, 0xf5f5f5),
        Genre::NuDisco => (0xff6f61, 0xffd700, 0x40e0d0, 0xff9ff3),
        Genre::NetPop => (0xff8fb1, 0x7ec8ff, 0xb5ead7, 0xfff5ba),
        Genre::UkGarage => (0x8e2de2, 0xff6ec7, 0x00c9a7, 0xf0e6ff),
        Genre::JerseyClub => (0xff5e00, 0x9d4edd, 0xffc300, 0xffe6f2),
        Genre::Techno => (0x6f00ff, 0x00e5ff, 0x3a0ca3, 0xe0e0ff),
        Genre::Trance => (0x2437ff, 0x8a2be2, 0x00bfff, 0xe6ccff),
        Genre::Psytrance => (0x76ff03, 0xd500f9, 0x00e5ff, 0xffea00),
        Genre::Hardstyle => (0xff0033, 0x2929ff, 0xff6600, 0xe0e0ff),
        Genre::Eurobeat => (0xff2079, 0x00f0ff, 0xffe600, 0xff9ecd),
        Genre::AnisonRemix => (0xff3d81, 0x3dc9ff, 0xffd23d, 0xc86bff),
        Genre::Breakbeat => (0xf77f00, 0x3d348b, 0xf5cb5c, 0xe8e8e8),
        Genre::DrumAndBass => (0x00c853, 0xaeea00, 0x00bfa5, 0xccff90),
        Genre::Dubstep => (0x39ff14, 0x7c4dff, 0x00e676, 0xb388ff),
        Genre::Trap => (0x9d00ff, 0xff1361, 0x38006b, 0xf3e5f5),
        Genre::Hyperflip => (0xff00cc, 0x00ffcc, 0x7c4dff, 0xf8ff66),
        Genre::FutureBass => (0x00d2ff, 0xff7eb3, 0x7afcff, 0xfeff9c),
        Genre::FutureCore => (0x00b3ff, 0x3d5afe, 0x7df9ff, 0xe3f6ff),
        Genre::Hardcore => (0xff1744, 0xff6d00, 0xd50000, 0xffab91),
        Genre::KawaiiFutureBass => (0xff4fd8, 0xff9ecd, 0xb388ff, 0xfff0f7),
        Genre::HipHop => (0xff9100, 0xffd54f, 0x8d6e63, 0xfff3e0),
        Genre::Rnb => (0x7b2cbf, 0xc77dff, 0x3c096c, 0xe0aaff),
        Genre::Reggaeton => (0xff9f1c, 0xe71d36, 0x2ec4b6, 0xfff3b0),
        Genre::Synthwave => (0xff2975, 0x00fff9, 0x8c1eff, 0xf222ff),
        Genre::Ambient => (0x4dd0e1, 0xb2ebf2, 0x9fa8da, 0xe8eaf6),
        Genre::Unknown => (0xff0055, 0x00c8ff, 0xaa00ff, 0xffee00),
    }
}

/// The built-in palette of a genre.
pub open spec fn default_model(g: Genre) -> PaletteModel {
    let (a, b, c, d) = default_codes(g);
    PaletteModel {
        name: default_name(g),
        colors: seq![
            Color::of_code(a),
            Color::of_code(b),
            Color::of_code(c),
            Color::of_code(d),
        ],
    }
}

/// A palette of four colours by their codes.
pub fn pal(name: &str, codes: [u32; 4]) -> (p: Palette)
    requires
        forall|i: int| 0 <= i < 4 ==> #[trigger] codes@[i] < 0x100_0000,
    ensures
        p@.name == name@,
        p@.colors == seq![
            Color::of_code(codes@[0] as nat),
            Color::of_code(codes@[1] as nat),
            Color::of_code(codes@[2] as nat),
            Color::of_code(codes@[3] as nat),
        ],
{
    let colors = vec![
        Color::from_code(codes[0]),
        Color::from_code(codes[1]),
        Color::from_code(codes[2]),
        Color::from_code(codes[3]),
    ];
    Palette { name: name.to_owned(), colors }
}

/// The built-in palette of a genre: blue for deep house, red for hardcore, pink for kawaii future
/// bass, and so on.
pub fn default_palette(genre: Genre) -> (p: Palette)
    ensures
        p@ == default_model(genre),
{
    match genre {
        Genre::DeepHouse => pal("Deep House", [0x0f52ba, 0x00a6a6, 0x4361ee, 0x7fd8ff]),
        Genre::House => pal("House", [0xff8c00, 0xffd166, 0xef476f, 0xffe8c2]),
        Genre::TechHouse => pal("Tech House", [0x00b894, 0x0984e3, 0x55efc4, 0xdfe6e9]),
        Genre::ElectroHouse => pal("EDM / Big Room", [0xff3d00, 0x00e5ff, 0xffea00, 0xf5f5f5]),
        Genre::NuDisco => pal("Nu Disco", [0xff6f61, 0xffd700, 0x40e0d0, 0xff9ff3]),
        Genre::NetPop => pal("Net Pop", [0xff8fb1, 0x7ec8ff, 0xb5ead7, 0xfff5ba]),
        Genre::UkGarage => pal("UK Garage", [0x8e2de2, 0xff6ec7, 0x00c9a7, 0xf0e6ff]),
        Genre::JerseyClub => pal("Jersey Club", [0xff5e00, 0x9d4edd, 0xffc300, 0xffe6f2]),
        Genre::Techno => pal("Techno", [0x6f00ff, 0x00e5ff, 0x3a0ca3, 0xe0e0ff]),
        Genre::Trance => pal("Trance", [0x2437ff, 0x8a2be2, 0x00bfff, 0xe6ccff]),
        Genre::Psytrance => pal("Psytrance", [0x76ff03, 0xd500f9, 0x00e5ff, 0xffea00]),
        Genre::Hardstyle => pal("Hardstyle", [0xff0033, 0x2929ff, 0xff6600, 0xe0e0ff]),
        Genre::Eurobeat => pal("Eurobeat", [0xff2079, 0x00f0ff, 0xffe600, 0xff9ecd]),
        Genre::AnisonRemix => pal("Anison Remix", [0xff3d81, 0x3dc9ff, 0xffd23d, 0xc86bff]),
        Genre::Breakbeat => pal("Breakbeat", [0xf77f00, 0x3d348b, 0xf5cb5c, 0xe8e8e8]),
        Genre::DrumAndBass => pal("Drum & Bass", [0x00c853, 0xaeea00, 0x00bfa5, 0xccff90]),
        Genre::Dubstep => pal("Dubstep", [0x39ff14, 0x7c4dff, 0x00e676, 0xb388ff]),
        Genre::Trap => pal("Trap", [0x9d00ff, 0xff1361, 0x38006b, 0xf3e5f5]),
        Genre::Hyperflip => pal("Hyperflip", [0xff00cc, 0x00ffcc, 0x7c4dff, 0xf8ff66]),
        Genre::FutureBass => pal("Future Bass", [0x00d2ff, 0xff7eb3, 0x7afcff, 0xfeff9c]),
        Genre::FutureCore => pal("Future Core", [0x00b3ff, 0x3d5afe, 0x7df9ff, 0xe3f6ff]),
        Genre::Hardcore => pal("Hardcore", [0xff1744, 0xff6d00, 0xd50000, 0xffab91]),
        Genre::KawaiiFutureBass => pal("Kawaii Future Bass", [0xff4fd8, 0xff9ecd, 0xb388ff, 0xfff0f7]),
        Genre::HipHop => pal("Hip Hop", [0xff9100, 0xffd54f, 0x8d6e63, 0xfff3e0]),
        Genre::Rnb => pal("R&B", [0x7b2cbf, 0xc77dff, 0x3c096c, 0xe0aaff]),
        Genre::Reggaeton => pal("Reggaeton", [0xff9f1c, 0xe71d36, 0x2ec4b6, 0xfff3b0]),
        Genre::Synthwave => pal("Synthwave", [0xff2975, 0x00fff9, 0x8c1eff, 0xf222ff]),
        Genre::Ambient => pal("Ambient", [0x4dd0e1, 0xb2ebf2, 0x9fa8da, 0xe8eaf6]),
        Genre::Unknown => pal("Auto", [0xff0055, 0x00c8ff, 0xaa00ff, 0xffee00]),
    }
}

/// Palettes by genre.
#[derive(Debug)]
pub struct GenreMap {
    slots: Vec<Option<Palette>>,
}

impl View for GenreMap {
    type V = Map<Genre, PaletteModel>;

    closed spec fn view(&self) -> Map<Genre, PaletteModel> {
        Map::new(
            |g: Genre| self.slots@[g.position() as int] is Some,
            |g: Genre| self.slots@[g.position() as int]->0@,
        )
    }
}

impl GenreMap {
    /// There is one slot for each genre.
    #[verifier::type_invariant]
    spec fn slotted(self) -> bool {
        self.slots@.len() == GENRES
    }

    /// A map without palettes.
    pub fn new() -> (m: GenreMap)
        ensures
            m@ == Map::<Genre, PaletteModel>::empty(),
    {
        let mut slots: Vec<Option<Palette>> = Vec::new();
        let mut i: usize = 0;
        while i < GENRES
            invariant
                i <= GENRES,
                slots@.len() == i,
                forall|j: int| 0 <= j < i ==> #[trigger] slots@[j] is None,
            decreases GENRES - i,
        {
            slots.push(None);
            i = i + 1;
        }
        let m = GenreMap { slots };
        proof {
            assert forall|g: Genre| !m@.contains_key(g) by {
                lemma_place(g);
            }
            assert(m@ =~= Map::<Genre, PaletteModel>::empty());
        }
        m
    }

    /// Puts a palette in the place of the one that the genre had.
    pub fn insert(&mut self, genre: Genre, palette: Palette)
        ensures
            final(self)@ == old(self)@.insert(genre, palette@),
    {
        proof {
            use_type_invariant(&*self);
            lemma_place(genre);
        }
        let ghost before = self@;
        let mut slots: Vec<Option<Palette>> = Vec::new();
        slots_for(&mut slots);
        std::mem::swap(&mut slots, &mut self.slots);
        slots.set(genre.index(), Some(palette));
        self.slots = slots;
        proof {
            assert forall|g: Genre| g != genre implies #[trigger] g.position() != genre.position() by {
                if g.position() == genre.position() {
                    lemma_position_unique(g, genre);
                }
            }
            assert forall|g: Genre| #![auto] self@.contains_key(g) == before.insert(genre, palette@).contains_key(g) by {
                lemma_place(g);
            }
            assert forall|g: Genre| self@.contains_key(g) implies #[trigger] self@[g] == before.insert(genre, palette@)[g] by {
                lemma_place(g);
            }
            assert(self@ =~= before.insert(genre, palette@));
        }
    }

    /// The palette of a genre, if it has one.
    pub fn get(&self, genre: Genre) -> (r: Option<&Palette>)
        ensures
            r is Some == self@.contains_key(genre),
            r matches Some(p) ==> p@ == self@[genre],
    {
        proof {
            use_type_invariant(self);
            lemma_place(genre);
        }
        match &self.slots[genre.index()] {
            Some(p) => Some(p),
            None => None,
        }
    }
}

/// One empty slot for each genre.
fn slots_for(slots: &mut Vec<Option<Palette>>)
    requires
        old(slots)@.len() == 0,
    ensures
        final(slots)@.len() == GENRES,
{
    let mut i: usize = 0;
    while i < GENRES
        invariant
            i <= GENRES,
            slots@.len() == i,
        decreases GENRES - i,
    {
        slots.push(None);
        i = i + 1;
    }
}

/// Every genre has its place.
proof fn lemma_place(g: Genre)
    ensures
        g.position() < GENRES,
        Genre::ALL@.len() == GENRES,
        Genre::ALL@[g.position() as int] == g,
{
    lemma_all_genres(g.position() as int);
    lemma_position_unique(Genre::ALL@[g.position() as int], g);
}

/// What a store holds.
pub struct StoreModel {
    pub genres: Map<Genre, PaletteModel>,
    pub custom: Seq<PaletteModel>,
}

/// The built-in palettes of all genres.
pub open spec fn default_genres() -> Map<Genre, PaletteModel> {
    Map::new(|g: Genre| true, |g: Genre| default_model(g))
}

impl StoreModel {
    /// The palette of a genre, the built-in one where the store has none.
    pub open spec fn palette_for(self, g: Genre) -> PaletteModel {
        if self.genres.contains_key(g) {
            self.genres[g]
        } else {
            default_model(g)
        }
    }
}

/// Palettes by genre, and the user's own.
#[derive(Debug)]
pub struct PaletteStore {
    pub genre_map: GenreMap,
    pub custom: Vec<Palette>,
}

impl View for PaletteStore {
    type V = StoreModel;

    open spec fn view(&self) -> StoreModel {
        StoreModel {
            genres: self.genre_map@,
            custom: self.custom@.map_values(|p: Palette| p@),
        }
    }
}

/// The built-in palettes of all genres.
fn default_map() -> (m: GenreMap)
    ensures
        m@ == default_genres(),
{
    let mut m = GenreMap::new();
    let mut i: usize = 0;
    while i < GENRES
        invariant
            i <= GENRES,
            forall|g: Genre| #![auto] m@.contains_key(g) == (g.position() < i),
            forall|g: Genre| #[trigger] m@.contains_key(g) ==> m@[g] == default_model(g),
        decreases GENRES - i,
    {
        let g = Genre::at(i);
        m.insert(g, default_palette(g));
        proof {
            assert forall|h: Genre| h.position() == i implies h == g by {
                lemma_position_unique(g, h);
            }
        }
        i = i + 1;
    }
    proof {
        assert forall|g: Genre| #[trigger] m@.contains_key(g) by {
            lemma_place(g);
        }
        assert(m@ =~= default_genres());
    }
    m
}

impl Default for PaletteStore {
    fn default() -> (s: PaletteStore)
        ensures
            s@ == (StoreModel { genres: default_genres(), custom: Seq::empty() }),
    {
        let s = PaletteStore { genre_map: default_map(), custom: Vec::new() };
        assert(s@.custom =~= Seq::<PaletteModel>::empty());
        s
    }
}

/// A palette as a settings file spells it.
#[derive(Debug)]
pub struct PaletteToml {
    pub name: String,
    pub colors: Vec<String>,
}

/// A store as a settings file spells it: palettes under the identifiers of their genres.
#[derive(Debug)]
pub struct StoreToml {
    pub genres: Vec<(String, PaletteToml)>,
    pub custom: Vec<PaletteToml>,
}

/// A spelled palette: its name and the texts of its colours.
pub struct PaletteText {
    pub name: Seq<char>,
    pub colors: Seq<Seq<char>>,
}

impl View for PaletteToml {
    type V = PaletteText;

    open spec fn view(&self) -> PaletteText {
        PaletteText { name: self.name@, colors: self.colors@.map_values(|s: String| s@) }
    }
}

/// A spelled store.
pub struct StoreText {
    pub genres: Seq<(Seq<char>, PaletteText)>,
    pub custom: Seq<PaletteText>,
}

impl View for StoreToml {
    type V = StoreText;

    open spec fn view(&self) -> StoreText {
        StoreText {
            genres: self.genres@.map_values(|e: (String, PaletteToml)| (e.0@, e.1@)),
            custom: self.custom@.map_values(|p: PaletteToml| p@),
        }
    }
}

/// The spelling of a palette.
pub open spec fn spelled(p: PaletteModel) -> PaletteText {
    PaletteText { name: p.name, colors: p.colors.map_values(|c: Color| c.text()) }
}

/// The colours that texts spell; those that spell none are left out.
pub open spec fn read_colors(texts: Seq<Seq<char>>) -> Seq<Color>
    decreases texts.len(),
{
    if texts.len() == 0 {
        Seq::empty()
    } else {
        let before = read_colors(texts.drop_last());
        match Color::parse(texts.last()) {
            Some(c) => before.push(c),
            None => before,
        }
    }
}

/// The palette that a spelling stands for.
pub open spec fn read_palette(p: PaletteText) -> PaletteModel {
    PaletteModel { name: p.name, colors: read_colors(p.colors) }
}

/// The palettes of the genres after the entries of a file, from the first on, have been put over
/// the built-in ones; entries under unknown identifiers are left out.
pub open spec fn read_genres(entries: Seq<(Seq<char>, PaletteText)>) -> Map<Genre, PaletteModel>
    decreases entries.len(),
{
    if entries.len() == 0 {
        default_genres()
    } else {
        let before = read_genres(entries.drop_last());
        match genre_with(entries.last().0) {
            Some(g) => before.insert(g, read_palette(entries.last().1)),
            None => before,
        }
    }
}

/// The store that a file stands for.
pub open spec fn read_store(t: StoreText) -> StoreModel {
    StoreModel {
        genres: read_genres(t.genres),
        custom: t.custom.map_values(|p: PaletteText| read_palette(p)),
    }
}

/// The entries of the first `n` genres, in the order of `Genre::ALL`.
pub open spec fn spelled_genres(
    m: Map<Genre, PaletteModel>,
    n: nat,
) -> Seq<(Seq<char>, PaletteText)>
    decreases n,
{
    if n == 0 {
        Seq::empty()
    } else {
        let before = spelled_genres(m, (n - 1) as nat);
        let g = Genre::ALL@[n - 1];
        if m.contains_key(g) {
            before.push((g.id(), spelled(m[g])))
        } else {
            before
        }
    }
}

/// The file that a store is written as.
pub open spec fn spelled_store(s: StoreModel) -> StoreText {
    StoreText {
        genres: spelled_genres(s.genres, GENRES as nat),
        custom: s.custom.map_values(|p: PaletteModel| spelled(p)),
    }
}

/// The spelling of a palette.
pub fn to_toml(p: &Palette) -> (t: PaletteToml)
    ensures
        t@ == spelled(p@),
{
    let ghost texts = spelled(p@).colors;
    let mut colors: Vec<String> = Vec::new();
    let mut i: usize = 0;
    while i < p.colors.len()
        invariant
            i <= p.colors@.len(),
            texts == spelled(p@).colors,
            colors@.map_values(|s: String| s@) == texts.take(i as int),
        decreases p.colors@.len() - i,
    {
        let h = p.colors[i].to_hex();
        let ghost before = colors@;
        colors.push(h);
        i = i + 1;
        assert(colors@.map_values(|s: String| s@) =~= texts.take(i as int)) by {
            assert(before.map_values(|s: String| s@) == texts.take(i - 1));
            assert forall|j: int| 0 <= j < i implies colors@.map_values(|s: String| s@)[j] == texts.take(i as int)[j] by {
                if j < i - 1 {
                    assert(before.map_values(|s: String| s@)[j] == texts.take(i - 1)[j]);
                }
            }
        }
    }
    assert(texts.take(i as int) =~= texts);
    PaletteToml { name: p.name.clone(), colors }
}

/// The palette that a spelling stands for; colours that cannot be read are left out.
pub fn from_toml(p: &PaletteToml) -> (r: Palette)
    ensures
        r@ == read_palette(p@),
{
    Palette { name: p.name.clone(), colors: parse_colors(&p.colors) }
}

/// The colours that texts spell; those that spell none are left out.
pub fn parse_colors(texts: &Vec<String>) -> (colors: Vec<Color>)
    ensures
        colors@ == read_colors(texts@.map_values(|s: String| s@)),
{
    let ghost model = texts@.map_values(|s: String| s@);
    let mut colors: Vec<Color> = Vec::new();
    let mut i: usize = 0;
    assert(model.take(0) =~= Seq::<Seq<char>>::empty());
    while i < texts.len()
        invariant
            i <= texts@.len(),
            model == texts@.map_values(|s: String| s@),
            colors@ == read_colors(model.take(i as int)),
        decreases texts@.len() - i,
    {
        proof {
            assert(model.take(i + 1).drop_last() =~= model.take(i as int));
            assert(model.take(i + 1).last() == texts@[i as int]@);
        }
        if let Some(c) = Color::from_hex(texts[i].as_str()) {
            colors.push(c);
        }
        i = i + 1;
    }
    assert(model.take(i as int) =~= model);
    colors
}

impl PaletteStore {
    /// The palette of a genre.
    pub fn palette_for(&self, genre: Genre) -> (p: Palette)
        ensures
            p@ == self@.palette_for(genre),
    {
        match self.genre_map.get(genre) {
            Some(p) => p.clone(),
            None => default_palette(genre),
        }
    }

    /// Gives a genre its built-in palette back, and returns it.
    pub fn reset_genre(&mut self, genre: Genre) -> (p: Palette)
        ensures
            p@ == default_model(genre),
            final(self)@ == (StoreModel {
                genres: old(self)@.genres.insert(genre, default_model(genre)),
                ..old(self)@
            }),
    {
        let p = default_palette(genre);
        self.genre_map.insert(genre, p.clone());
        p
    }

    /// Gives every genre its built-in palette back.
    pub fn reset_all(&mut self)
        ensures
            final(self)@ == (StoreModel { genres: default_genres(), ..old(self)@ }),
    {
        self.genre_map = default_map();
    }

    /// The store that a file stands for: the built-in palettes, with those of the file over them.
    pub fn from_file(parsed: &StoreToml) -> (s: PaletteStore)
        ensures
            s@ == read_store(parsed@),
    {
        let ghost entries = parsed@.genres;
        let mut genre_map = default_map();
        let mut i: usize = 0;
        assert(entries.take(0) =~= Seq::<(Seq<char>, PaletteText)>::empty());
        while i < parsed.genres.len()
            invariant
                i <= parsed.genres@.len(),
                entries == parsed@.genres,
                genre_map@ == read_genres(entries.take(i as int)),
            decreases parsed.genres@.len() - i,
        {
            let found = Genre::from_id(parsed.genres[i].0.as_str());
            proof {
                assert(entries.take(i + 1).drop_last() =~= entries.take(i as int));
                assert(entries.take(i + 1).last() == (
                    parsed.genres@[i as int].0@,
                    parsed.genres@[i as int].1@,
                ));
            }
            if let Some(g) = found {
                genre_map.insert(g, from_toml(&parsed.genres[i].1));
            }
            i = i + 1;
        }
        assert(entries.take(i as int) =~= entries);
        let ghost customs = read_store(parsed@).custom;
        let mut custom: Vec<Palette> = Vec::new();
        let mut k: usize = 0;
        while k < parsed.custom.len()
            invariant
                k <= parsed.custom@.len(),
                customs == read_store(parsed@).custom,
                custom@.len() == k,
                forall|j: int| 0 <= j < k ==> (#[trigger] custom@[j])@ == customs[j],
            decreases parsed.custom@.len() - k,
        {
            let p = from_toml(&parsed.custom[k]);
            custom.push(p);
            k = k + 1;
        }
        let s = PaletteStore { genre_map, custom };
        assert(s@.custom =~= customs);
        s
    }

    /// The file that the store is written as.
    pub fn to_file(&self) -> (t: StoreToml)
        ensures
            t@ == spelled_store(self@),
    {
        let mut genres: Vec<(String, PaletteToml)> = Vec::new();
        let mut i: usize = 0;
        assert(genres@.map_values(|e: (String, PaletteToml)| (e.0@, e.1@)) =~= Seq::<
            (Seq<char>, PaletteText),
        >::empty());
        while i < GENRES
            invariant
                i <= GENRES,
                genres@.map_values(|e: (String, PaletteToml)| (e.0@, e.1@)) == spelled_genres(
                    self@.genres,
                    i as nat,
                ),
            decreases GENRES - i,
        {
            let g = Genre::at(i);
            let ghost before = genres@;
            if let Some(p) = self.genre_map.get(g) {
                let id = g.as_str().to_owned();
                let spelling = to_toml(p);
                genres.push((id, spelling));
                proof {
                    let f = |e: (String, PaletteToml)| (e.0@, e.1@);
                    assert(genres@.map_values(f) =~= before.map_values(f).push((g.id(), spelled(self@.genres[g]))));
                }
            }
            i = i + 1;
        }
        let ghost customs = spelled_store(self@).custom;
        let mut custom: Vec<PaletteToml> = Vec::new();
        let mut k: usize = 0;
        while k < self.custom.len()
            invariant
                k <= self.custom@.len(),
                customs == spelled_store(self@).custom,
                custom@.len() == k,
                forall|j: int| 0 <= j < k ==> (#[trigger] custom@[j])@ == customs[j],
            decreases self.custom@.len() - k,
        {
            let p = to_toml(&self.custom[k]);
            custom.push(p);
            k = k + 1;
        }
        let t = StoreToml { genres, custom };
        assert(t@.custom =~= customs);
        t
    }
}

/// A palette is read back from its spelling.
pub proof fn lemma_palette_text(p: PaletteModel)
    ensures
        read_palette(spelled(p)) == p,
{
    lemma_colors_text(p.colors);
}

proof fn lemma_colors_text(colors: Seq<Color>)
    ensures
        read_colors(colors.map_values(|c: Color| c.text())) == colors,
    decreases colors.len(),
{
    let f = |c: Color| c.text();
    let texts = colors.map_values(f);
    if colors.len() > 0 {
        lemma_colors_text(colors.drop_last());
        assert(texts.drop_last() =~= colors.drop_last().map_values(f));
        lemma_color_text(colors.last());
        assert(colors.drop_last().push(colors.last()) =~= colors);
    } else {
        assert(colors =~= Seq::<Color>::empty());
    }
}

proof fn lemma_genres_text(m: Map<Genre, PaletteModel>, n: nat)
    requires
        n <= GENRES,
    ensures
        forall|g: Genre| #[trigger] read_genres(spelled_genres(m, n)).contains_key(g),
        forall|g: Genre| #[trigger]
            read_genres(spelled_genres(m, n))[g] == (if g.position() < n && m.contains_key(g) {
                m[g]
            } else {
                default_model(g)
            }),
    decreases n,
{
    if n > 0 {
        let k = (n - 1) as nat;
        let g = Genre::ALL@[n - 1];
        lemma_genres_text(m, k);
        lemma_all_genres(n - 1);
        let before = spelled_genres(m, k);
        assert forall|h: Genre| #[trigger] h.position() == n - 1 implies h == g by {
            lemma_position_unique(g, h);
        }
        if m.contains_key(g) {
            let after = spelled_genres(m, n);
            assert(after.drop_last() =~= before);
            assert(after.last() == (g.id(), spelled(m[g])));
            lemma_genre_id_roundtrip(g);
            lemma_palette_text(m[g]);
        }
        assert forall|h: Genre| #[trigger]
            read_genres(spelled_genres(m, n))[h] == (if h.position() < n && m.contains_key(h) {
                m[h]
            } else {
                default_model(h)
            }) by {
            assert(read_genres(spelled_genres(m, k)).contains_key(h));
            assert(h.position() == n - 1 ==> h == g);
        }
        assert forall|h: Genre| #[trigger] read_genres(spelled_genres(m, n)).contains_key(h) by {
            assert(read_genres(spelled_genres(m, k)).contains_key(h));
        }
    }
}

/// A store that is written to a file and read back has the same palette for every genre, and the
/// same custom palettes.
pub proof fn lemma_store_roundtrip(s: StoreModel)
    ensures
        forall|g: Genre| #[trigger]
            read_store(spelled_store(s)).palette_for(g) == s.palette_for(g),
        read_store(spelled_store(s)).custom == s.custom,
{
    lemma_genres_text(s.genres, GENRES as nat);
    let r = read_store(spelled_store(s));
    assert forall|g: Genre| #[trigger] r.palette_for(g) == s.palette_for(g) by {
        lemma_place(g);
        assert(read_genres(spelled_genres(s.genres, GENRES as nat)).contains_key(g));
    }
    assert forall|i: int| 0 <= i < s.custom.len() implies r.custom[i] == s.custom[i] by {
        lemma_palette_text(s.custom[i]);
    }
    assert(r.custom =~= s.custom);
}

/// Resetting one genre leaves every other as it was.
pub proof fn lemma_reset_is_local(s: StoreModel, g: Genre, h: Genre)
    requires
        g != h,
    ensures
        (StoreModel { genres: s.genres.insert(g, default_model(g)), ..s }).palette_for(h)
            == s.palette_for(h),
        (StoreModel { genres: s.genres.insert(g, default_model(g)), ..s }).palette_for(g)
            == default_model(g),
{
}

} // verus!
