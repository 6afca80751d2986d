//! Settings that persist.
use vstd::prelude::*;

use crate::analysis::AnalyzerConfig;
use crate::core_types::{BandConfig, ThresholdMode};
use crate::effects::{EffectSettings, SettingsModel};
use crate::hue_client::PairedBridge;
use crate::single::Single;

verus! {

/// The name of the file with the settings.
pub const CONFIG_FILE: &'static str = "config.toml";

/// The name of the file with the palettes.
pub const PALETTES_FILE: &'static str = "palettes.toml";

#[derive(Debug, Clone, Copy)]
pub struct AnalyzerSettings {
    /// Threshold per band in standard deviations above the mean flux; lower gives more beats.
    pub sensitivity: [Single; 4],
    pub min_interval_ms: [Single; 4],
    /// Only detect beats in the low band.
    pub low_only: bool,
    /// Adaptive or fixed beat threshold.
    pub threshold_mode: ThresholdMode,
    /// Fixed threshold per band in raw flux units, for the manual mode; a value that is not above
    /// zero is unset.
    pub manual_threshold: [Single; 4],
}

impl AnalyzerSettings {
    /// The settings where none are given.
    pub open spec fn is_usual(self) -> bool {
        &&& self.sensitivity@ == seq![
            Single::fraction(22, 10),
            Single::fraction(24, 10),
            Single::fraction(24, 10),
            Single::fraction(24, 10),
        ]
        &&& self.min_interval_ms@ == seq![
            Single::of_whole(150),
            Single::of_whole(100),
            Single::of_whole(100),
            Single::of_whole(80),
        ]
        &&& !self.low_only
        &&& self.threshold_mode == ThresholdMode::Auto
        &&& self.manual_threshold@ == seq![
            Single::of_whole(0),
            Single::of_whole(0),
            Single::of_whole(0),
            Single::of_whole(0),
        ]
    }
}

impl Default for AnalyzerSettings {
    fn default() -> (s: AnalyzerSettings)
        ensures
            s.is_usual(),
    {
        let d = AnalyzerConfig::default();
        AnalyzerSettings {
            sensitivity: d.sensitivity,
            min_interval_ms: d.min_interval_ms,
            low_only: d.low_only,
            threshold_mode: d.threshold_mode,
            manual_threshold: d.manual_threshold,
        }
    }
}

impl AnalyzerSettings {
    /// The settings of an analyzer with the usual bands.
    pub fn to_analyzer_config(&self) -> (c: AnalyzerConfig)
        ensures
            c.bands.edges@ == seq![
                Single::of_whole(20),
                Single::of_whole(150),
                Single::of_whole(800),
                Single::of_whole(4000),
                Single::of_whole(16000),
            ],
            c.sensitivity == self.sensitivity,
            c.min_interval_ms == self.min_interval_ms,
            c.low_only == self.low_only,
            c.threshold_mode == self.threshold_mode,
            c.manual_threshold == self.manual_threshold,
    {
        AnalyzerConfig {
            bands: BandConfig::default(),
            sensitivity: self.sensitivity,
            min_interval_ms: self.min_interval_ms,
            low_only: self.low_only,
            threshold_mode: self.threshold_mode,
            manual_threshold: self.manual_threshold,
        }
    }
}

#[derive(Debug)]
pub struct AppConfig {
    pub bridge: Option<PairedBridge>,
    pub entertainment_config_id: Option<String>,
    /// The identifier of an audio device; none for the default loopback device.
    pub audio_device: Option<String>,
    /// Host and port that OSC output goes to; none for no output.
    pub osc_target: Option<String>,
    pub effects: EffectSettings,
    pub analyzer: AnalyzerSettings,
    /// The identifier of a genre whose palette is forced, so that the genre does not switch by
    /// itself.
    pub palette_override: Option<String>,
}

impl Default for AppConfig {
    fn default() -> (c: AppConfig)
        ensures
            c.bridge is None,
            c.entertainment_config_id is None,
            c.audio_device is None,
            c.osc_target is None,
            c.palette_override is None,
            c.effects@ == SettingsModel::usual(),
            c.analyzer.is_usual(),
    {
        AppConfig {
            bridge: None,
            entertainment_config_id: None,
            audio_device: None,
            osc_target: None,
            effects: EffectSettings::default(),
            analyzer: AnalyzerSettings::default(),
            palette_override: None,
        }
    }
}

} // verus!
