//! The types that flow through the pipeline: audio capture, analysis, genre and effects, light
//! stream and OSC output.
use vstd::prelude::*;
use vstd::string::*;

use crate::rounding::Whole;
use crate::single::Single;

verus! {

/// Frequency band for multi-band beat detection.
#[derive(Debug, Clone, Copy, PartialEq, Eq, Hash, Structural)]
pub enum Band {
    /// Kick and bass, by default 20 to 150 Hz.
    Low,
    /// Snare body and toms, by default 150 to 800 Hz.
    LowMid,
    /// Claps, vocals and synth stabs, by default 800 to 4000 Hz.
    HighMid,
    /// Hi-hats, cymbals and air, by default 4000 to 16000 Hz.
    High,
}

impl Band {
    pub const ALL: [Band; 4] = [Band::Low, Band::LowMid, Band::HighMid, Band::High];

    pub open spec fn position(self) -> usize {
        match self {
            Band::Low => 0,
            Band::LowMid => 1,
            Band::HighMid => 2,
            Band::High => 3,
        }
    }

    /// The band's place in `ALL`.
    #[verifier::when_used_as_spec(position)]
    pub fn index(self) -> (i: usize)
        ensures
            i == self.position(),
            i < 4,
    {
        match self {
            Band::Low => 0,
            Band::LowMid => 1,
            Band::HighMid => 2,
            Band::High => 3,
        }
    }

    /// The band at a place in `ALL`.
    pub fn at(i: usize) -> (b: Band)
        requires
            i < 4,
        ensures
            b.position() == i,
            b == Band::ALL@[i as int],
    {
        if i == 0 {
            Band::Low
        } else if i == 1 {
            Band::LowMid
        } else if i == 2 {
            Band::HighMid
        } else {
            Band::High
        }
    }
}

/// Band edge frequencies in Hz; band `i` lies between `edges[i]` and `edges[i + 1]`.
#[derive(Debug, Clone, Copy)]
pub struct BandConfig {
    pub edges: [Single; 5],
}

impl Default for BandConfig {
    fn default() -> (c: BandConfig)
        ensures
            c.edges@ == seq![
                Single::of_whole(20),
                Single::of_whole(150),
                Single::of_whole(800),
                Single::of_whole(4000),
                Single::of_whole(16000),
            ],
    {
        let c = BandConfig {
            edges: [
                Single::from_whole(20),
                Single::from_whole(150),
                Single::from_whole(800),
                Single::from_whole(4000),
                Single::from_whole(16000),
            ],
        };
        assert(c.edges@ =~= seq![
            Single::of_whole(20),
            Single::of_whole(150),
            Single::of_whole(800),
            Single::of_whole(4000),
            Single::of_whole(16000),
        ]);
        c
    }
}

/// How the beat-detection threshold is derived.
#[derive(Debug, Clone, Copy, PartialEq, Eq, Structural)]
pub enum ThresholdMode {
    /// Mean plus a number of standard deviations over recent flux, robust to input gain.
    Auto,
    /// A fixed threshold per band in raw flux units, for constant input gain. A band whose value
    /// is not above zero falls back to `Auto`.
    Manual,
}

impl Default for ThresholdMode {
    fn default() -> (m: ThresholdMode)
        ensures
            m == ThresholdMode::Auto,
    {
        ThresholdMode::Auto
    }
}

/// A beat (onset) detected in one frequency band.
#[derive(Debug, Clone, Copy)]
pub struct BandBeatEvent {
    pub band: Band,
    /// Relative onset strength, roughly 0 to 1; it can exceed 1 on hard hits.
    pub strength: Single,
    /// Milliseconds since the engine started.
    pub timestamp_ms: u64,
}

/// What one hop of audio was analysed to.
#[derive(Debug, Clone)]
pub struct AnalysisFrame {
    pub timestamp_ms: u64,
    /// Overall level, 0 to 1, after automatic gain.
    pub rms: Single,
    /// Energy per band, 0 to 1.
    pub band_energy: [Single; 4],
    /// Slow-moving loudness envelope, 0 to 1.
    pub intensity: Single,
    /// Spectral centroid in Hz.
    pub spectral_centroid: Single,
    /// Coarse spectrum in log-spaced bins, 0 to 1, for display: from the analysis as shares of the
    /// peak, and with `show_spectrum` bent upward by the display curve.
    pub spectrum: Vec<Single>,
    /// Onset flux per band, normalized against a slowly decaying peak.
    pub band_flux: [Single; 4],
    /// The beat threshold on the same scale as `band_flux`.
    pub band_threshold: [Single; 4],
    /// Running flux mean on the same scale.
    pub band_flux_mean: [Single; 4],
    /// Running flux deviation on the same scale.
    pub band_flux_std: [Single; 4],
    /// The slowly decaying flux peak per band, in raw units.
    pub band_flux_max: [Single; 4],
}

/// What an analysed hop holds, with sequences for arrays and vectors.
pub struct FrameModel {
    pub timestamp_ms: u64,
    pub rms: Single,
    pub band_energy: Seq<Single>,
    pub intensity: Single,
    pub spectral_centroid: Single,
    pub spectrum: Seq<Single>,
    pub band_flux: Seq<Single>,
    pub band_threshold: Seq<Single>,
    pub band_flux_mean: Seq<Single>,
    pub band_flux_std: Seq<Single>,
    pub band_flux_max: Seq<Single>,
}

impl View for AnalysisFrame {
    type V = FrameModel;

    open spec fn view(&self) -> FrameModel {
        FrameModel {
            timestamp_ms: self.timestamp_ms,
            rms: self.rms,
            band_energy: self.band_energy@,
            intensity: self.intensity,
            spectral_centroid: self.spectral_centroid,
            spectrum: self.spectrum@,
            band_flux: self.band_flux@,
            band_threshold: self.band_threshold@,
            band_flux_mean: self.band_flux_mean@,
            band_flux_std: self.band_flux_std@,
            band_flux_max: self.band_flux_max@,
        }
    }
}

/// The exponent of the display curve, 0.4: a share of the peak is shown as its power.
pub fn display_exponent() -> (x: Single)
    ensures
        x == Single::fraction(4, 10),
{
    Single::ratio(4, 10)
}

impl AnalysisFrame {
    /// Puts the values of the display curve in the place of the shares that they were computed of.
    pub fn show_spectrum(&mut self, curved: Vec<Single>)
        requires
            curved@.len() == old(self)@.spectrum.len(),
        ensures
            final(self)@ == (FrameModel { spectrum: curved@, ..old(self)@ }),
    {
        self.spectrum = curved;
    }
}

/// The current tempo estimate.
#[derive(Debug, Clone, Copy)]
pub struct TempoEstimate {
    pub bpm: Single,
    /// Confidence of the autocorrelation peak, 0 to 1.
    pub confidence: Single,
    /// Where the estimate comes from.
    pub source: TempoSource,
}

#[derive(Debug, Clone, Copy, PartialEq, Eq, Structural)]
pub enum TempoSource {
    Detector,
    Tap,
    AbletonLink,
    Osc,
}

/// Music genre families used for palette selection.
#[derive(Debug, Clone, Copy, PartialEq, Eq, Hash, Structural)]
pub enum Genre {
    DeepHouse,
    House,
    TechHouse,
    ElectroHouse,
    NuDisco,
    NetPop,
    UkGarage,
    JerseyClub,
    Techno,
    Trance,
    Psytrance,
    Hardstyle,
    Eurobeat,
    AnisonRemix,
    Breakbeat,
    DrumAndBass,
    Dubstep,
    Trap,
    Hyperflip,
    FutureBass,
    FutureCore,
    Hardcore,
    KawaiiFutureBass,
    HipHop,
    Rnb,
    Reggaeton,
    Synthwave,
    Ambient,
    Unknown,
}

/// The number of genres.
pub const GENRES: usize = 29;

impl Genre {
    /// Every genre, in display order.
    pub const ALL: [Genre; 29] = [
        Genre::DeepHouse,
        Genre::House,
        Genre::TechHouse,
        Genre::ElectroHouse,
        Genre::NuDisco,
        Genre::NetPop,
        Genre::UkGarage,
        Genre::JerseyClub,
        Genre::Techno,
        Genre::Trance,
        Genre::Psytrance,
        Genre::Hardstyle,
        Genre::Eurobeat,
        Genre::AnisonRemix,
        Genre::Breakbeat,
        Genre::DrumAndBass,
        Genre::Dubstep,
        Genre::Trap,
        Genre::Hyperflip,
        Genre::FutureBass,
        Genre::FutureCore,
        Genre::Hardcore,
        Genre::KawaiiFutureBass,
        Genre::HipHop,
        Genre::Rnb,
        Genre::Reggaeton,
        Genre::Synthwave,
        Genre::Ambient,
        Genre::Unknown,
    ];

    /// The genre's place in `ALL`.
    pub open spec fn position(self) -> usize {
        match self {
            Genre::DeepHouse => 0,
            Genre::House => 1,
            Genre::TechHouse => 2,
            Genre::ElectroHouse => 3,
            Genre::NuDisco => 4,
            Genre::NetPop => 5,
            Genre::UkGarage => 6,
            Genre::JerseyClub => 7,
            Genre::Techno => 8,
            Genre::Trance => 9,
            Genre::Psytrance => 10,
            Genre::Hardstyle => 11,
            Genre::Eurobeat => 12,
            Genre::AnisonRemix => 13,
            Genre::Breakbeat => 14,
            Genre::DrumAndBass => 15,
            Genre::Dubstep => 16,
            Genre::Trap => 17,
            Genre::Hyperflip => 18,
            Genre::FutureBass => 19,
            Genre::FutureCore => 20,
            Genre::Hardcore => 21,
            Genre::KawaiiFutureBass => 22,
            Genre::HipHop => 23,
            Genre::Rnb => 24,
            Genre::Reggaeton => 25,
            Genre::Synthwave => 26,
            Genre::Ambient => 27,
            Genre::Unknown => 28,
        }
    }

    /// The genre's identifier.
    pub open spec fn id(self) -> Seq<char> {
        match self {
            Genre::DeepHouse => "deep_house"@,
            Genre::House => "house"@,
            Genre::TechHouse => "tech_house"@,
            Genre::ElectroHouse => "electro_house"@,
            Genre::NuDisco => "nu_disco"@,
            Genre::NetPop => "net_pop"@,
            Genre::UkGarage => "uk_garage"@,
            Genre::JerseyClub => "jersey_club"@,
            Genre::Techno => "techno"@,
            Genre::Trance => "trance"@,
            Genre::Psytrance => "psytrance"@,
            Genre::Hardstyle => "hardstyle"@,
            Genre::Eurobeat => "eurobeat"@,
            Genre::AnisonRemix => "anison_remix"@,
            Genre::Breakbeat => "breakbeat"@,
            Genre::DrumAndBass => "drum_and_bass"@,
            Genre::Dubstep => "dubstep"@,
            Genre::Trap => "trap"@,
            Genre::Hyperflip => "hyperflip"@,
            Genre::FutureBass => "future_bass"@,
            Genre::FutureCore => "future_core"@,
            Genre::Hardcore => "hardcore"@,
            Genre::KawaiiFutureBass => "kawaii_future_bass"@,
            Genre::HipHop => "hip_hop"@,
            Genre::Rnb => "rnb"@,
            Genre::Reggaeton => "reggaeton"@,
            Genre::Synthwave => "synthwave"@,
            Genre::Ambient => "ambient"@,
            Genre::Unknown => "unknown"@,
        }
    }

    /// The genre's place in `ALL`.
    #[verifier::when_used_as_spec(position)]
    pub fn index(self) -> (i: usize)
        ensures
            i == self.position(),
            i < GENRES,
    {
        match self {
            Genre::DeepHouse => 0,
            Genre::House => 1,
            Genre::TechHouse => 2,
            Genre::ElectroHouse => 3,
            Genre::NuDisco => 4,
            Genre::NetPop => 5,
            Genre::UkGarage => 6,
            Genre::JerseyClub => 7,
            Genre::Techno => 8,
            Genre::Trance => 9,
            Genre::Psytrance => 10,
            Genre::Hardstyle => 11,
            Genre::Eurobeat => 12,
            Genre::AnisonRemix => 13,
            Genre::Breakbeat => 14,
            Genre::DrumAndBass => 15,
            Genre::Dubstep => 16,
            Genre::Trap => 17,
            Genre::Hyperflip => 18,
            Genre::FutureBass => 19,
            Genre::FutureCore => 20,
            Genre::Hardcore => 21,
            Genre::KawaiiFutureBass => 22,
            Genre::HipHop => 23,
            Genre::Rnb => 24,
            Genre::Reggaeton => 25,
            Genre::Synthwave => 26,
            Genre::Ambient => 27,
            Genre::Unknown => 28,
        }
    }

    /// The genre at a place in `ALL`.
    pub fn at(i: usize) -> (g: Genre)
        requires
            i < GENRES,
        ensures
            g.position() == i,
            g == Genre::ALL@[i as int],
    {
        proof {
            lemma_all_genres(i as int);
        }
        Genre::ALL[i]
    }

    /// The genre's identifier, as files, the display and OSC messages spell it.
    pub fn as_str(self) -> (s: &'static str)
        ensures
            s@ == self.id(),
    {
        match self {
            Genre::DeepHouse => "deep_house",
            Genre::House => "house",
            Genre::TechHouse => "tech_house",
            Genre::ElectroHouse => "electro_house",
            Genre::NuDisco => "nu_disco",
            Genre::NetPop => "net_pop",
            Genre::UkGarage => "uk_garage",
            Genre::JerseyClub => "jersey_club",
            Genre::Techno => "techno",
            Genre::Trance => "trance",
            Genre::Psytrance => "psytrance",
            Genre::Hardstyle => "hardstyle",
            Genre::Eurobeat => "eurobeat",
            Genre::AnisonRemix => "anison_remix",
            Genre::Breakbeat => "breakbeat",
            Genre::DrumAndBass => "drum_and_bass",
            Genre::Dubstep => "dubstep",
            Genre::Trap => "trap",
            Genre::Hyperflip => "hyperflip",
            Genre::FutureBass => "future_bass",
            Genre::FutureCore => "future_core",
            Genre::Hardcore => "hardcore",
            Genre::KawaiiFutureBass => "kawaii_future_bass",
            Genre::HipHop => "hip_hop",
            Genre::Rnb => "rnb",
            Genre::Reggaeton => "reggaeton",
            Genre::Synthwave => "synthwave",
            Genre::Ambient => "ambient",
            Genre::Unknown => "unknown",
        }
    }

    /// The genre with an identifier, if there is one.
    pub fn from_id(id: &str) -> (r: Option<Genre>)
        ensures
            r == genre_with(id@),
    {
        let mut i: usize = 0;
        while i < GENRES
            invariant
                i <= GENRES,
                forall|g: Genre| g.position() < i ==> g.id() != id@,
            decreases GENRES - i,
        {
            let g: Genre = Genre::at(i);
            if same_text(g.as_str(), id) {
                proof {
                    lemma_genre_id_roundtrip(g);
                }
                return Some(g);
            }
            proof {
                assert forall|h: Genre| h.position() < i + 1 implies h.id() != id@ by {
                    if h.position() == i {
                        lemma_position_unique(g, h);
                    }
                }
            }
            i = i + 1;
        }
        proof {
            assert forall|g: Genre| g.id() != id@ by {
                lemma_all_genres(g.position() as int);
            }
        }
        None
    }
}

/// The genre with an identifier.
pub open spec fn genre_with(id: Seq<char>) -> Option<Genre> {
    if exists|g: Genre| g.id() == id {
        Some(choose|g: Genre| g.id() == id)
    } else {
        None
    }
}

/// No score for any genre.
pub fn no_scores() -> (scores: [Option<Single>; 29])
    ensures
        forall|i: int| 0 <= i < GENRES ==> scores@[i] == None::<Single>,
{
    [
        None, None, None, None, None, None, None, None, None, None,
        None, None, None, None, None, None, None, None, None, None,
        None, None, None, None, None, None, None, None, None,
    ]
}

/// Equality of texts.
pub fn same_text(a: &str, b: &str) -> (r: bool)
    ensures
        r == (a@ == b@),
{
    a.to_owned() == b.to_owned()
}

/// `ALL` holds each genre at its own position.
pub proof fn lemma_all_genres(i: int)
    requires
        0 <= i < GENRES,
    ensures
        Genre::ALL@.len() == GENRES,
        Genre::ALL@[i].position() == i,
{
}

/// No two genres share a position.
pub proof fn lemma_position_unique(a: Genre, b: Genre)
    requires
        a.position() == b.position(),
    ensures
        a == b,
{
}

/// Length, first and last letter: they tell all identifiers apart.
spec fn fingerprint(s: Seq<char>) -> (int, char, char) {
    (s.len() as int, s[0], s[s.len() - 1])
}

proof fn lemma_fingerprint(g: Genre)
    ensures
        fingerprint(g.id()) == (match g {
            Genre::DeepHouse => (10int, 'd', 'e'),
            Genre::House => (5int, 'h', 'e'),
            Genre::TechHouse => (10int, 't', 'e'),
            Genre::ElectroHouse => (13int, 'e', 'e'),
            Genre::NuDisco => (8int, 'n', 'o'),
            Genre::NetPop => (7int, 'n', 'p'),
            Genre::UkGarage => (9int, 'u', 'e'),
            Genre::JerseyClub => (11int, 'j', 'b'),
            Genre::Techno => (6int, 't', 'o'),
            Genre::Trance => (6int, 't', 'e'),
            Genre::Psytrance => (9int, 'p', 'e'),
            Genre::Hardstyle => (9int, 'h', 'e'),
            Genre::Eurobeat => (8int, 'e', 't'),
            Genre::AnisonRemix => (12int, 'a', 'x'),
            Genre::Breakbeat => (9int, 'b', 't'),
            Genre::DrumAndBass => (13int, 'd', 's'),
            Genre::Dubstep => (7int, 'd', 'p'),
            Genre::Trap => (4int, 't', 'p'),
            Genre::Hyperflip => (9int, 'h', 'p'),
            Genre::FutureBass => (11int, 'f', 's'),
            Genre::FutureCore => (11int, 'f', 'e'),
            Genre::Hardcore => (8int, 'h', 'e'),
            Genre::KawaiiFutureBass => (18int, 'k', 's'),
            Genre::HipHop => (7int, 'h', 'p'),
            Genre::Rnb => (3int, 'r', 'b'),
            Genre::Reggaeton => (9int, 'r', 'n'),
            Genre::Synthwave => (9int, 's', 'e'),
            Genre::Ambient => (7int, 'a', 't'),
            Genre::Unknown => (7int, 'u', 'n'),
        }),
{
    match g {
        Genre::DeepHouse => {
            reveal_strlit("deep_house");
        },
        Genre::House => {
            reveal_strlit("house");
        },
        Genre::TechHouse => {
            reveal_strlit("tech_house");
        },
        Genre::ElectroHouse => {
            reveal_strlit("electro_house");
        },
        Genre::NuDisco => {
            reveal_strlit("nu_disco");
        },
        Genre::NetPop => {
            reveal_strlit("net_pop");
        },
        Genre::UkGarage => {
            reveal_strlit("uk_garage");
        },
        Genre::JerseyClub => {
            reveal_strlit("jersey_club");
        },
        Genre::Techno => {
            reveal_strlit("techno");
        },
        Genre::Trance => {
            reveal_strlit("trance");
        },
        Genre::Psytrance => {
            reveal_strlit("psytrance");
        },
        Genre::Hardstyle => {
            reveal_strlit("hardstyle");
        },
        Genre::Eurobeat => {
            reveal_strlit("eurobeat");
        },
        Genre::AnisonRemix => {
            reveal_strlit("anison_remix");
        },
        Genre::Breakbeat => {
            reveal_strlit("breakbeat");
        },
        Genre::DrumAndBass => {
            reveal_strlit("drum_and_bass");
        },
        Genre::Dubstep => {
            reveal_strlit("dubstep");
        },
        Genre::Trap => {
            reveal_strlit("trap");
        },
        Genre::Hyperflip => {
            reveal_strlit("hyperflip");
        },
        Genre::FutureBass => {
            reveal_strlit("future_bass");
        },
        Genre::FutureCore => {
            reveal_strlit("future_core");
        },
        Genre::Hardcore => {
            reveal_strlit("hardcore");
        },
        Genre::KawaiiFutureBass => {
            reveal_strlit("kawaii_future_bass");
        },
        Genre::HipHop => {
            reveal_strlit("hip_hop");
        },
        Genre::Rnb => {
            reveal_strlit("rnb");
        },
        Genre::Reggaeton => {
            reveal_strlit("reggaeton");
        },
        Genre::Synthwave => {
            reveal_strlit("synthwave");
        },
        Genre::Ambient => {
            reveal_strlit("ambient");
        },
        Genre::Unknown => {
            reveal_strlit("unknown");
        },
    }
}

/// Identifiers are unique: no two genres share one.
pub proof fn lemma_genre_ids_unique(a: Genre, b: Genre)
    requires
        a.id() == b.id(),
    ensures
        a == b,
{
    lemma_fingerprint(a);
    lemma_fingerprint(b);
}

/// A genre is found by its identifier.
pub proof fn lemma_genre_id_roundtrip(g: Genre)
    ensures
        genre_with(g.id()) == Some(g),
{
    assert(exists|h: Genre| h.id() == g.id());
    let h = choose|h: Genre| h.id() == g.id();
    lemma_genre_ids_unique(g, h);
}

/// A colour in sRGB, 8 bits per component.
#[derive(Debug, Clone, Copy, PartialEq, Eq, Structural)]
pub struct Color {
    pub r: u8,
    pub g: u8,
    pub b: u8,
}

/// The value of a hexadecimal digit of either case.
pub open spec fn digit_value(c: char) -> Option<nat> {
    if '0' <= c <= '9' {
        Some((c as int - '0' as int) as nat)
    } else if 'a' <= c <= 'f' {
        Some((c as int - 'a' as int + 10) as nat)
    } else if 'A' <= c <= 'F' {
        Some((c as int - 'A' as int + 10) as nat)
    } else {
        None
    }
}

pub open spec fn all_digits(s: Seq<char>) -> bool {
    forall|i: int| 0 <= i < s.len() ==> digit_value(#[trigger] s[i]) is Some
}

/// The number that a row of hexadecimal digits spells.
pub open spec fn hex_number(s: Seq<char>) -> nat
    decreases s.len(),
{
    if s.len() == 0 {
        0
    } else {
        16 * hex_number(s.drop_last()) + digit_value(s.last())->0
    }
}

/// A text without the `#` signs at its start.
pub open spec fn without_hashes(s: Seq<char>) -> Seq<char>
    decreases s.len(),
{
    if s.len() > 0 && s[0] == '#' {
        without_hashes(s.skip(1))
    } else {
        s
    }
}

/// The lower-case hexadecimal digit of a value below 16.
pub open spec fn digit_char(d: int) -> char {
    if d < 10 {
        ('0' as int + d) as char
    } else {
        ('a' as int + d - 10) as char
    }
}

pub open spec fn byte_chars(b: u8) -> Seq<char> {
    seq![digit_char(b as int / 16), digit_char(b as int % 16)]
}

impl Color {
    /// The colour with a code of six hexadecimal digits, red first.
    pub open spec fn of_code(v: nat) -> Color {
        Color { r: (v / 65536 % 256) as u8, g: (v / 256 % 256) as u8, b: (v % 256) as u8 }
    }

    /// The colour that a text spells: any number of `#`, then six hexadecimal digits, of which
    /// the first may be a plus sign instead.
    pub open spec fn parse(s: Seq<char>) -> Option<Color> {
        let t = without_hashes(s);
        let digits = if t.len() > 0 && t[0] == '+' { t.skip(1) } else { t };
        if t.len() == 6 && all_digits(digits) {
            Some(Color::of_code(hex_number(digits)))
        } else {
            None
        }
    }

    /// `#` and two lower-case hexadecimal digits per component.
    pub open spec fn text(self) -> Seq<char> {
        seq!['#'] + byte_chars(self.r) + byte_chars(self.g) + byte_chars(self.b)
    }

    pub fn new(r: u8, g: u8, b: u8) -> (c: Color)
        ensures
            c == (Color { r, g, b }),
    {
        Color { r, g, b }
    }

    /// The colour that a text such as `#ff8c00` spells.
    pub fn from_hex(hex: &str) -> (c: Option<Color>)
        ensures
            c == Color::parse(hex@),
    {
        let n: usize = hex.unicode_len();
        let mut i: usize = 0;
        proof {
            assert(hex@.skip(0) =~= hex@);
        }
        while i < n && hex.get_char(i) == '#'
            invariant
                n == hex@.len(),
                i <= n,
                without_hashes(hex@) == without_hashes(hex@.skip(i as int)),
            decreases n - i,
        {
            proof {
                assert(hex@.skip(i as int).skip(1) =~= hex@.skip(i + 1));
            }
            i = i + 1;
        }
        let ghost t = hex@.skip(i as int);
        assert(without_hashes(hex@) == t);
        if n - i != 6 {
            return None;
        }
        if hex.get_char(i) == '+' {
            proof {
                assert(t.skip(1) =~= hex@.subrange(i + 1, n as int));
            }
            i = i + 1;
        } else {
            proof {
                assert(t =~= hex@.subrange(i as int, n as int));
            }
        }
        match hex_digits(hex, i, n) {
            Some(v) => {
                proof {
                    lemma_hex_bound(hex@.subrange(i as int, n as int));
                }
                Some(Color::from_code(v))
            },
            None => None,
        }
    }

    /// The colour with a code of six hexadecimal digits, red first.
    pub fn from_code(v: u32) -> (c: Color)
        requires
            v < 0x100_0000,
        ensures
            c == Color::of_code(v as nat),
    {
        Color::new((v / 65536 % 256) as u8, (v / 256 % 256) as u8, (v % 256) as u8)
    }

    /// `#` and two lower-case hexadecimal digits per component.
    pub fn to_hex(self) -> (s: String)
        ensures
            s@ == self.text(),
    {
        let mut s = String::new();
        proof {
            reveal_strlit("#");
        }
        s.append("#");
        push_byte(&mut s, self.r);
        push_byte(&mut s, self.g);
        push_byte(&mut s, self.b);
        assert(s@ =~= self.text());
        s
    }

    /// One component between two: `a + (b - a) * t`, rounded.
    pub open spec fn component_between(a: u8, b: u8, t: Single) -> u8 {
        let (x, y) = (Single::of_whole(a as nat), Single::of_whole(b as nat));
        let w = x.plus(y.minus(x).times(t)).to_whole(Whole::Nearest);
        if w <= 255 {
            w as u8
        } else {
            255
        }
    }

    pub open spec fn between(self, other: Color, t: Single) -> Color {
        let u = t.clamp(Single::of_whole(0), Single::of_whole(1));
        Color {
            r: Color::component_between(self.r, other.r, u),
            g: Color::component_between(self.g, other.g, u),
            b: Color::component_between(self.b, other.b, u),
        }
    }

    fn blend(a: u8, b: u8, t: Single) -> (c: u8)
        ensures
            c == Color::component_between(a, b, t),
    {
        let x = Single::from_whole(a as u64);
        let y = Single::from_whole(b as u64);
        let w: u64 = x.plus(y.minus(x).times(t)).to_whole(Whole::Nearest);
        if w <= 255 {
            w as u8
        } else {
            255
        }
    }

    /// Linear interpolation in RGB space, `t` from 0 to 1.
    pub fn lerp(self, other: Color, t: Single) -> (c: Color)
        ensures
            c == self.between(other, t),
    {
        let u = t.clamp(Single::from_whole(0), Single::from_whole(1));
        Color::new(
            Color::blend(self.r, other.r, u),
            Color::blend(self.g, other.g, u),
            Color::blend(self.b, other.b, u),
        )
    }

    pub open spec fn dimmed(self, factor: Single) -> Color {
        let f = factor.clamp(Single::of_whole(0), Single::of_whole(1));
        Color {
            r: Single::of_whole(self.r as nat).times(f).to_byte(),
            g: Single::of_whole(self.g as nat).times(f).to_byte(),
            b: Single::of_whole(self.b as nat).times(f).to_byte(),
        }
    }

    /// Every component times `factor`, toward zero; `factor` from 0 to 1.
    pub fn scaled(self, factor: Single) -> (c: Color)
        ensures
            c == self.dimmed(factor),
    {
        let f = factor.clamp(Single::from_whole(0), Single::from_whole(1));
        Color::new(
            Single::from_whole(self.r as u64).times(f).to_byte(),
            Single::from_whole(self.g as u64).times(f).to_byte(),
            Single::from_whole(self.b as u64).times(f).to_byte(),
        )
    }
}

/// The value of one hexadecimal digit.
pub(crate) fn hex_digit(c: char) -> (d: Option<u8>)
    ensures
        d is Some == digit_value(c) is Some,
        d matches Some(v) ==> v == digit_value(c)->0 && v < 16,
{
    if '0' <= c && c <= '9' {
        Some((c as u32 - '0' as u32) as u8)
    } else if 'a' <= c && c <= 'f' {
        Some((c as u32 - 'a' as u32 + 10) as u8)
    } else if 'A' <= c && c <= 'F' {
        Some((c as u32 - 'A' as u32 + 10) as u8)
    } else {
        None
    }
}

/// The number that the digits from `from` to `to` spell, at most six of them.
fn hex_digits(s: &str, from: usize, to: usize) -> (v: Option<u32>)
    requires
        from <= to <= s@.len(),
        to - from <= 6,
    ensures
        v is Some == all_digits(s@.subrange(from as int, to as int)),
        v matches Some(x) ==> x == hex_number(s@.subrange(from as int, to as int)),
{
    let mut v: u32 = 0;
    let mut i: usize = from;
    let ghost whole = s@.subrange(from as int, to as int);
    while i < to
        invariant
            from <= i <= to <= s@.len(),
            to - from <= 6,
            whole == s@.subrange(from as int, to as int),
            all_digits(s@.subrange(from as int, i as int)),
            v == hex_number(s@.subrange(from as int, i as int)),
            v < (if i - from == 0 { 1 } else if i - from == 1 { 16 } else if i - from == 2 { 256 }
                else if i - from == 3 { 4096 } else if i - from == 4 { 65536 }
                else if i - from == 5 { 1048576 } else { 16777216int }),
        decreases to - i,
    {
        let c: char = s.get_char(i);
        match hex_digit(c) {
            Some(d) => {
                proof {
                    let next = s@.subrange(from as int, i + 1);
                    assert(next.drop_last() =~= s@.subrange(from as int, i as int));
                    assert(next.last() == c);
                    assert forall|j: int| 0 <= j < next.len() implies digit_value(#[trigger] next[j]) is Some by {
                        if j < next.len() - 1 {
                            assert(next[j] == s@.subrange(from as int, i as int)[j]);
                        }
                    }
                }
                v = v * 16 + d as u32;
            },
            None => {
                assert(whole[i - from] == c);
                return None;
            },
        }
        i = i + 1;
    }
    Some(v)
}

proof fn lemma_hex_bound(s: Seq<char>)
    requires
        all_digits(s),
        s.len() <= 6,
    ensures
        hex_number(s) < 0x100_0000,
        s.len() == 0 ==> hex_number(s) < 1,
        s.len() == 1 ==> hex_number(s) < 16,
        s.len() == 2 ==> hex_number(s) < 256,
        s.len() == 3 ==> hex_number(s) < 4096,
        s.len() == 4 ==> hex_number(s) < 65536,
        s.len() == 5 ==> hex_number(s) < 1048576,
    decreases s.len(),
{
    if s.len() > 0 {
        assert forall|j: int| 0 <= j < s.drop_last().len() implies digit_value(
            #[trigger] s.drop_last()[j],
        ) is Some by {
            assert(s.drop_last()[j] == s[j]);
        }
        lemma_hex_bound(s.drop_last());
        assert(digit_value(s[s.len() - 1]) is Some);
    }
}

/// The hexadecimal digit of a value as a text.
pub fn digit_text(d: u8) -> (s: &'static str)
    requires
        d < 16,
    ensures
        s@ == seq![digit_char(d as int)],
{
    proof {
        reveal_strlit("0");
        reveal_strlit("1");
        reveal_strlit("2");
        reveal_strlit("3");
        reveal_strlit("4");
        reveal_strlit("5");
        reveal_strlit("6");
        reveal_strlit("7");
        reveal_strlit("8");
        reveal_strlit("9");
        reveal_strlit("a");
        reveal_strlit("b");
        reveal_strlit("c");
        reveal_strlit("d");
        reveal_strlit("e");
        reveal_strlit("f");
    }
    let s: &'static str = match d {
        0 => "0",
        1 => "1",
        2 => "2",
        3 => "3",
        4 => "4",
        5 => "5",
        6 => "6",
        7 => "7",
        8 => "8",
        9 => "9",
        10 => "a",
        11 => "b",
        12 => "c",
        13 => "d",
        14 => "e",
        _ => "f",
    };
    assert(s@ =~= seq![digit_char(d as int)]);
    s
}

fn push_byte(s: &mut String, b: u8)
    ensures
        final(s)@ == old(s)@ + byte_chars(b),
{
    s.append(digit_text(b / 16));
    s.append(digit_text(b % 16));
    assert(s@ =~= old(s)@ + byte_chars(b));
}

/// What a palette is: its name and its colours in slot order.
pub struct PaletteModel {
    pub name: Seq<char>,
    pub colors: Seq<Color>,
}

/// A named palette; slot order matters, since bands map to slots.
#[derive(Debug)]
pub struct Palette {
    pub name: String,
    pub colors: Vec<Color>,
}

impl View for Palette {
    type V = PaletteModel;

    open spec fn view(&self) -> PaletteModel {
        PaletteModel { name: self.name@, colors: self.colors@ }
    }
}

impl Clone for Palette {
    fn clone(&self) -> (r: Palette)
        ensures
            r@ == self@,
    {
        let r = Palette { name: self.name.clone(), colors: self.colors.clone() };
        assert(r.colors@ =~= self.colors@);
        r
    }
}

impl PaletteModel {
    /// The colour of a slot: slots beyond the last wrap around, and a palette without colours is
    /// white.
    pub open spec fn slot(self, i: nat) -> Color {
        if self.colors.len() == 0 {
            Color { r: 255, g: 255, b: 255 }
        } else {
            self.colors[(i % self.colors.len()) as int]
        }
    }
}

impl Palette {
    /// The colour of a slot, wrapping if the palette has fewer slots.
    pub fn slot(&self, i: usize) -> (c: Color)
        ensures
            c == self@.slot(i as nat),
    {
        if self.colors.len() == 0 {
            Color::new(255, 255, 255)
        } else {
            self.colors[i % self.colors.len()]
        }
    }
}

/// One frame of light output: a colour per entertainment channel.
#[derive(Debug)]
pub struct LightFrame {
    /// Channel identifiers, from the bridge's entertainment configuration, with their colours.
    pub channels: Vec<(u8, Color)>,
}

impl View for LightFrame {
    type V = Seq<(u8, Color)>;

    open spec fn view(&self) -> Seq<(u8, Color)> {
        self.channels@
    }
}

impl Default for LightFrame {
    fn default() -> (r: LightFrame)
        ensures
            r@.len() == 0,
    {
        LightFrame { channels: Vec::new() }
    }
}

impl Clone for LightFrame {
    fn clone(&self) -> (r: LightFrame)
        ensures
            r@ == self@,
    {
        let mut channels: Vec<(u8, Color)> = Vec::new();
        let mut i: usize = 0;
        while i < self.channels.len()
            invariant
                i <= self.channels@.len(),
                channels@ == self.channels@.take(i as int),
            decreases self.channels@.len() - i,
        {
            channels.push(self.channels[i]);
            i = i + 1;
        }
        LightFrame { channels }
    }
}

/// Events published on the engine bus.
#[derive(Debug)]
pub enum EngineEvent {
    Beat(BandBeatEvent),
    Analysis(AnalysisFrame),
    Tempo(TempoEstimate),
    GenreChanged { genre: Genre },
    PaletteChanged { palette: Palette },
}

} // verus!
