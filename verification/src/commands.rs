//! What the commands of the user interface decide.
use vstd::prelude::*;
use vstd::string::*;

use crate::config::AppConfig;
use crate::core_types::{genre_with, same_text, Genre, Palette, PaletteModel, GENRES};
use crate::effects::Panic;
use crate::engine::genre_from_id;
use crate::hue_client::{HueError, PairedBridge};
use crate::palette::{default_model, default_palette, parse_colors, read_colors, PaletteStore};
use crate::single::Single;

verus! {

/// The palette of one genre, for the list.
#[derive(Debug)]
pub struct PaletteEntry {
    pub genre: String,
    pub palette: Palette,
}

/// All genres with their palettes, in the order of `Genre::ALL`.
pub fn palette_entries(store: &PaletteStore) -> (out: Vec<PaletteEntry>)
    ensures
        out@.len() == GENRES,
        forall|i: int|
            0 <= i < GENRES ==> (#[trigger] out@[i]).genre@ == Genre::ALL@[i].id()
                && out@[i].palette@ == store@.palette_for(Genre::ALL@[i]),
{
    let mut out: Vec<PaletteEntry> = Vec::new();
    let mut i: usize = 0;
    while i < GENRES
        invariant
            i <= GENRES,
            out@.len() == i,
            forall|k: int|
                0 <= k < i ==> (#[trigger] out@[k]).genre@ == Genre::ALL@[k].id()
                    && out@[k].palette@ == store@.palette_for(Genre::ALL@[k]),
        decreases GENRES - i,
    {
        let g = Genre::at(i);
        let entry = PaletteEntry {
            genre: g.as_str().to_owned(),
            palette: store.palette_for(g),
        };
        out.push(entry);
        i = i + 1;
    }
    out
}

/// The genre that a command names.
pub fn known_genre(genre_id: &str) -> (r: Result<Genre, String>)
    ensures
        r is Ok == genre_with(genre_id@) is Some,
        r matches Ok(g) ==> Some(g) == genre_with(genre_id@),
        r matches Err(e) ==> e@ == "unknown genre"@,
{
    match genre_from_id(genre_id) {
        Some(g) => Ok(g),
        None => Err("unknown genre".to_owned()),
    }
}

/// Reads an edit of a genre's palette: the genre must be known, and one colour at least must be
/// readable.
pub fn edited_palette(genre_id: &str, name: String, colors: &Vec<String>) -> (r: Result<
    (Genre, Palette),
    String,
>)
    ensures
        r is Ok == (genre_with(genre_id@) is Some && read_colors(
            colors@.map_values(|s: String| s@),
        ).len() > 0),
        r matches Ok((g, p)) ==> Some(g) == genre_with(genre_id@) && p@ == (PaletteModel {
            name: name@,
            colors: read_colors(colors@.map_values(|s: String| s@)),
        }),
        r matches Err(e) ==> e@ == (if genre_with(genre_id@) is None {
            "unknown genre"@
        } else {
            "no valid colors"@
        }),
{
    match known_genre(genre_id) {
        Ok(g) => {
            let colors = parse_colors(colors);
            if colors.len() == 0 {
                return Err("no valid colors".to_owned());
            }
            Ok((g, Palette { name, colors }))
        },
        Err(e) => Err(e),
    }
}

/// A changed palette is shown at once where its genre is the one that lights the room.
pub fn is_active(current: Option<Genre>, changed: Genre) -> (r: bool)
    ensures
        r == (current == Some(changed)),
{
    match current {
        Some(g) => g == changed,
        None => false,
    }
}

/// What a panic mode means: none ends the panic.
pub open spec fn panic_of(mode: Option<Seq<char>>) -> Option<Option<Panic>> {
    match mode {
        None => Some(None),
        Some(m) => if m == "blackout"@ {
            Some(Some(Panic::Blackout))
        } else if m == "white_flash"@ {
            Some(Some(Panic::WhiteFlash))
        } else if m == "freeze"@ {
            Some(Some(Panic::Freeze))
        } else {
            None
        },
    }
}

/// Reads a panic mode.
pub fn parse_panic(mode: Option<&str>) -> (r: Result<Option<Panic>, String>)
    ensures
        ({
            let m = match mode {
                Some(s) => Some(s@),
                None => None,
            };
            &&& r is Ok == panic_of(m) is Some
            &&& r matches Ok(p) ==> Some(p) == panic_of(m)
            &&& r matches Err(e) ==> e@ == "unknown panic mode "@ + m->0
        }),
{
    match mode {
        None => Ok(None),
        Some(m) => if same_text(m, "blackout") {
            Ok(Some(Panic::Blackout))
        } else if same_text(m, "white_flash") {
            Ok(Some(Panic::WhiteFlash))
        } else if same_text(m, "freeze") {
            Ok(Some(Panic::Freeze))
        } else {
            let mut e = "unknown panic mode ".to_owned();
            e.append(m);
            Err(e)
        },
    }
}

/// The outcome of a pairing attempt for the user.
#[derive(Debug)]
pub enum PairResult {
    Paired { bridge: PairedBridge },
    WaitingForButton,
}

/// Tells the button that is not pressed yet from other errors.
pub fn pair_result(r: Result<PairedBridge, HueError>) -> (out: Result<PairResult, String>)
    ensures
        out is Ok == (r is Ok || r->Err_0 is LinkButtonNotPressed),
        r matches Ok(b) ==> out == Ok::<PairResult, String>(PairResult::Paired { bridge: b }),
        r matches Err(e) ==> if e is LinkButtonNotPressed {
            out == Ok::<PairResult, String>(PairResult::WaitingForButton)
        } else {
            out is Err && out->Err_0@ == e.description()
        },
{
    match r {
        Ok(bridge) => Ok(PairResult::Paired { bridge }),
        Err(HueError::LinkButtonNotPressed) => Ok(PairResult::WaitingForButton),
        Err(e) => Err(e.to_text()),
    }
}

/// The bridge that requests go to.
pub fn paired_bridge(config: &AppConfig) -> (r: Result<PairedBridge, String>)
    ensures
        r is Ok == config.bridge is Some,
        r matches Ok(b) ==> b@ == config.bridge->0@,
        r matches Err(e) ==> e@ == "bridge not paired"@,
{
    match &config.bridge {
        Some(b) => Ok(b.clone()),
        None => Err("bridge not paired".to_owned()),
    }
}

/// Checks that a test pattern can run: a bridge is paired, an area is selected, and the engine does
/// not run.
pub fn pattern_request(config: &AppConfig, running: bool) -> (r: Result<
    (PairedBridge, String),
    String,
>)
    ensures
        r is Ok == (config.bridge is Some && config.entertainment_config_id is Some && !running),
        r matches Ok((b, id)) ==> b@ == config.bridge->0@ && id@
            == config.entertainment_config_id->0@,
        r matches Err(e) ==> e@ == (if config.bridge is None {
            "bridge not paired"@
        } else if config.entertainment_config_id is None {
            "entertainment area not selected"@
        } else {
            "stop the engine before running the test pattern"@
        }),
{
    let bridge: PairedBridge = match paired_bridge(config) {
        Ok(b) => b,
        Err(e) => {
            return Err(e);
        },
    };
    let id: String = match &config.entertainment_config_id {
        Some(s) => s.clone(),
        None => {
            return Err("entertainment area not selected".to_owned());
        },
    };
    if running {
        return Err("stop the engine before running the test pattern".to_owned());
    }
    Ok((bridge, id))
}

/// Checks that the engine can start.
pub fn start_request(running: bool) -> (r: Result<(), String>)
    ensures
        r is Ok == !running,
        r matches Err(e) ==> e@ == "engine already running"@,
{
    if running {
        Err("engine already running".to_owned())
    } else {
        Ok(())
    }
}

/// The state of the engine for the user.
#[derive(Debug)]
pub struct EngineStatus {
    pub running: bool,
    pub streaming: bool,
    pub genre: String,
    pub palette: Palette,
    pub bpm: Single,
    pub message: Option<String>,
}

/// The state of a running engine.
pub fn running_status(
    streaming: bool,
    genre: Genre,
    palette: Palette,
    bpm: Single,
) -> (s: EngineStatus)
    ensures
        s.running,
        s.streaming == streaming,
        s.genre@ == genre.id(),
        s.palette == palette,
        s.bpm == bpm,
        s.message is None,
{
    EngineStatus {
        running: true,
        streaming,
        genre: genre.as_str().to_owned(),
        palette,
        bpm,
        message: None,
    }
}

/// The state where no engine runs.
pub fn idle_status() -> (s: EngineStatus)
    ensures
        !s.running,
        !s.streaming,
        s.genre@ == Genre::Unknown.id(),
        s.palette@ == default_model(Genre::Unknown),
        s.bpm == Single::of_whole(0),
        s.message is None,
{
    EngineStatus {
        running: false,
        streaming: false,
        genre: Genre::Unknown.as_str().to_owned(),
        palette: default_palette(Genre::Unknown),
        bpm: Single::from_whole(0),
        message: None,
    }
}

/// The seconds that a test pattern runs for where some are asked for: from 1 to 30.
pub fn pattern_seconds(seconds: u64) -> (s: u64)
    ensures
        s == (if seconds < 1 {
            1
        } else if seconds > 30 {
            30
        } else {
            seconds
        }),
{
    if seconds < 1 {
        1
    } else if seconds > 30 {
        30
    } else {
        seconds
    }
}

} // verus!
