//! Audio-reactive lighting: the logic between captured sound and coloured light.
use vstd::prelude::*;

pub mod accuracy;
pub mod analysis;
pub mod analysis_laws;
pub mod audio_capture;
pub mod beat_laws;
pub mod bounds;
pub mod color_laws;
pub mod commands;
pub mod config;
pub mod core_laws;
pub mod core_types;
pub mod diag;
pub mod display_laws;
pub mod double;
pub mod effect_laws;
pub mod effects;
pub mod engine;
pub mod engine_laws;
pub mod evidence_laws;
pub mod feature_laws;
pub mod flash_laws;
pub mod frame_laws;
pub mod genre;
pub mod genre_laws;
pub mod genre_rules;
pub mod hue_client;
pub mod hue_stream;
pub mod ideal_laws;
pub mod json;
pub mod level_laws;
pub mod light_laws;
pub mod measure_laws;
pub mod order;
pub mod osc_io;
pub mod packet_laws;
pub mod palette;
pub mod palette_laws;
pub mod pattern;
pub mod pattern_laws;
pub mod period_laws;
pub mod ranking_laws;
pub mod refine_laws;
pub mod rounding;
pub mod route_laws;
pub mod sample_laws;
pub mod score_laws;
pub mod service_laws;
pub mod show_laws;
pub mod single;
pub mod spread_laws;
pub mod stream_laws;
pub mod sums;
pub mod tempo;
pub mod tempo_laws;
pub mod text;
pub mod time_laws;
pub mod usual_laws;

verus! {

} // verus!
