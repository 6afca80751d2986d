//! The built-in palettes, and how palettes are chosen.
use vstd::prelude::*;

use crate::core_types::{Color, Genre};
use crate::palette::{default_codes, default_model, StoreModel};

verus! {

/// The colours of a genre as red, green and blue: for the kick, the low middle, the high middle and
/// the highs.
pub open spec fn genre_colors(g: Genre) -> (
    (int, int, int),
    (int, int, int),
    (int, int, int),
    (int, int, int),
) {
    match g {
        Genre::DeepHouse => ((15, 82, 186), (0, 166, 166), (67, 97, 238), (127, 216, 255)),
        Genre::House => ((255, 140, 0), (255, 209, 102), (239, 71, 111), (255, 232, 194)),
        Genre::TechHouse => ((0, 184, 148), (9, 132, 227), (85, 239, 196), (223, 230, 233)),
        Genre::ElectroHouse => ((255, 61, 0), (0, 229, 255), (255, 234, 0), (245, 245, 245)),
        Genre::NuDisco => ((255, 111, 97), (255, 215, 0), (64, 224, 208), (255, 159, 243)),
        Genre::NetPop => ((255, 143, 177), (126, 200, 255), (181, 234, 215), (255, 245, 186)),
        Genre::UkGarage => ((142, 45, 226), (255, 110, 199), (0, 201, 167), (240, 230, 255)),
        Genre::JerseyClub => ((255, 94, 0), (157, 78, 221), (255, 195, 0), (255, 230, 242)),
        Genre::Techno => ((111, 0, 255), (0, 229, 255), (58, 12, 163), (224, 224, 255)),
        Genre::Trance => ((36, 55, 255), (138, 43, 226), (0, 191, 255), (230, 204, 255)),
        Genre::Psytrance => ((118, 255, 3), (213, 0, 249), (0, 229, 255), (255, 234, 0)),
        Genre::Hardstyle => ((255, 0, 51), (41, 41, 255), (255, 102, 0), (224, 224, 255)),
        Genre::Eurobeat => ((255, 32, 121), (0, 240, 255), (255, 230, 0), (255, 158, 205)),
        Genre::AnisonRemix => ((255, 61, 129), (61, 201, 255), (255, 210, 61), (200, 107, 255)),
        Genre::Breakbeat => ((247, 127, 0), (61, 52, 139), (245, 203, 92), (232, 232, 232)),
        Genre::DrumAndBass => ((0, 200, 83), (174, 234, 0), (0, 191, 165), (204, 255, 144)),
        Genre::Dubstep => ((57, 255, 20), (124, 77, 255), (0, 230, 118), (179, 136, 255)),
        Genre::Trap => ((157, 0, 255), (255, 19, 97), (56, 0, 107), (243, 229, 245)),
        Genre::Hyperflip => ((255, 0, 204), (0, 255, 204), (124, 77, 255), (248, 255, 102)),
        Genre::FutureBass => ((0, 210, 255), (255, 126, 179), (122, 252, 255), (254, 255, 156)),
        Genre::FutureCore => ((0, 179, 255), (61, 90, 254), (125, 249, 255), (227, 246, 255)),
        Genre::Hardcore => ((255, 23, 68), (255, 109, 0), (213, 0, 0), (255, 171, 145)),
        Genre::KawaiiFutureBass => (
            (255, 79, 216),
            (255, 158, 205),
            (179, 136, 255),
            (255, 240, 247),
        ),
        Genre::HipHop => ((255, 145, 0), (255, 213, 79), (141, 110, 99), (255, 243, 224)),
        Genre::Rnb => ((123, 44, 191), (199, 125, 255), (60, 9, 108), (224, 170, 255)),
        Genre::Reggaeton => ((255, 159, 28), (231, 29, 54), (46, 196, 182), (255, 243, 176)),
        Genre::Synthwave => ((255, 41, 117), (0, 255, 249), (140, 30, 255), (242, 34, 255)),
        Genre::Ambient => ((77, 208, 225), (178, 235, 242), (159, 168, 218), (232, 234, 246)),
        Genre::Unknown => ((255, 0, 85), (0, 200, 255), (170, 0, 255), (255, 238, 0)),
    }
}

/// A colour with these components.
pub open spec fn is_rgb(c: Color, rgb: (int, int, int)) -> bool {
    c.r == rgb.0 && c.g == rgb.1 && c.b == rgb.2
}

proof fn lemma_code(rgb: (int, int, int), code: nat)
    requires
        0 <= rgb.0 < 256,
        0 <= rgb.1 < 256,
        0 <= rgb.2 < 256,
        code == rgb.0 * 65536 + rgb.1 * 256 + rgb.2,
    ensures
        is_rgb(Color::of_code(code), rgb),
{
    assert(code / 65536 == rgb.0);
    assert(code / 256 == rgb.0 * 256 + rgb.1);
    assert(code % 256 == rgb.2);
}

/// The codes of a genre are those of its colours.
#[verifier::rlimit(60)]
#[verifier::spinoff_prover]
proof fn lemma_codes(g: Genre)
    ensures
        ({
            let (a, b, c, d) = default_codes(g);
            let (kick, low, mid, high) = genre_colors(g);
            &&& is_code(kick, a) && is_code(low, b) && is_code(mid, c) && is_code(high, d)
        }),
{
}

spec fn is_code(rgb: (int, int, int), code: nat) -> bool {
    0 <= rgb.0 < 256 && 0 <= rgb.1 < 256 && 0 <= rgb.2 < 256 && code == rgb.0 * 65536 + rgb.1 * 256
        + rgb.2
}

/// A built-in palette has one colour for each band.
pub proof fn lemma_genre_colors(g: Genre)
    ensures
        ({
            let colors = default_model(g).colors;
            let (kick, low, mid, high) = genre_colors(g);
            &&& colors.len() == 4
            &&& is_rgb(colors[0], kick)
            &&& is_rgb(colors[1], low)
            &&& is_rgb(colors[2], mid)
            &&& is_rgb(colors[3], high)
        }),
{
    let (a, b, c, d) = default_codes(g);
    let (kick, low, mid, high) = genre_colors(g);
    lemma_codes(g);
    lemma_code(kick, a);
    lemma_code(low, b);
    lemma_code(mid, c);
    lemma_code(high, d);
}

/// A genre shows the palette that the store has for it, and without one its built-in palette; what
/// the store has for other genres does not matter.
pub proof fn lemma_palette_choice(s: StoreModel, t: StoreModel, g: Genre)
    ensures
        s.genres.contains_key(g) ==> s.palette_for(g) == s.genres[g],
        !s.genres.contains_key(g) ==> s.palette_for(g) == default_model(g),
        s.genres.contains_key(g) && t.genres.contains_key(g) && s.genres[g] == t.genres[g]
            ==> s.palette_for(g) == t.palette_for(g),
{
}

} // verus!
