//! The configuration's types, their defaults, and what makes a configuration usable.

use vstd::prelude::*;

use crate::float;
use crate::float::F32;

verus! {

/// The most LEDs that the firmware's receive buffer takes in one stream message.
pub const MAX_ZONES: usize = 510;

/// The pattern of 5.0.
pub const FIVE: u32 = 0x40A0_0000;

/// The pattern of 10.0.
pub const TEN: u32 = 0x4120_0000;

/// The pattern of 50.0.
pub const FIFTY: u32 = 0x4248_0000;

/// The pattern of 10000.0.
pub const TEN_THOUSAND: u32 = 0x461C_4000;

/// The pattern of 2.2.
pub const TWO_POINT_TWO: u32 = 0x400C_CCCD;

/// Everything that the agent reads from its configuration file.
#[derive(Clone, Debug, PartialEq)]
pub struct Config {
    pub general: GeneralConfig,
    pub capture: CaptureConfig,
    pub led_matrix: LedMatrixConfig,
    pub color: ColorConfig,
    pub smoothing: SmoothingConfig,
    pub mqtt: MqttConfig,
    pub power: PowerConfig,
}

/// Naming and logging.
#[derive(Clone, Debug, PartialEq)]
pub struct GeneralConfig {
    pub device_name: String,
    /// Log filter directive applied at startup when neither the environment nor the command
    /// line gives one.
    pub log_level: Option<String>,
}

/// Where frames come from.
#[derive(Clone, Copy, Debug, PartialEq, Eq, Structural)]
pub enum CaptureBackend {
    /// The desktop portal's screen cast.
    Portal,
    /// Direct scan-out capture through the KMS helper.
    Kms,
}

/// How the screen is captured.
#[derive(Clone, Debug, PartialEq)]
pub struct CaptureConfig {
    pub target_fps: u32,
    pub monitor_index: Option<u32>,
    /// Read every Nth pixel in both axes inside each zone; 1 is full quality.
    pub subsample: u32,
    pub backend: CaptureBackend,
    /// The card to capture with the KMS backend; detected when absent.
    pub kms_card: Option<String>,
}

/// The part of the screen that one LED shows, in reference pixels.
#[derive(Clone, Copy, Debug, PartialEq, Eq, Structural)]
pub struct LedZone {
    pub x: u32,
    pub y: u32,
    pub w: u32,
    pub h: u32,
}

/// The strip's zones, against a reference resolution.
#[derive(Clone, Debug, PartialEq)]
pub struct LedMatrixConfig {
    pub reference_width: u32,
    pub reference_height: u32,
    pub zones: Vec<LedZone>,
    /// Rotate the published colours so that `zones[start_offset]` lands on the strip's first
    /// LED.
    pub start_offset: u32,
    /// Reverse the published colours, for a strip wired against the order of the zones.
    pub reverse: bool,
}

/// Offsets in hue, saturation and lightness.
#[derive(Clone, Copy, Debug, PartialEq, Eq, Structural)]
pub struct HslOffsets {
    pub h: F32,
    pub s: F32,
    pub l: F32,
}

/// How a zone's pixels become one colour.
#[derive(Clone, Copy, Debug, PartialEq, Eq, Structural)]
pub enum AveragingMode {
    /// The arithmetic average in linear light.
    Mean,
    /// The root mean square in linear light, which leans to the bright pixels.
    MeanSquared,
    /// The most represented colour cluster.
    DominantAdv,
}

/// Colour correction.
#[derive(Clone, Debug, PartialEq)]
pub struct ColorConfig {
    pub gamma: F32,
    pub white_balance_kelvin: u32,
    pub night_light_strength: F32,
    pub brightness_max: u8,
    /// Multiplier applied to every channel before the brightness limit; a channel that would
    /// pass 255 scales its LED uniformly, to keep the hue.
    pub brightness_gain: F32,
    pub hsl_offsets: HslOffsets,
    /// The least brightness, from zero to one, that an LED is left with after gamma.
    pub luminosity_floor: F32,
    pub averaging: AveragingMode,
}

/// Temporal smoothing.
#[derive(Clone, Debug, PartialEq)]
pub struct SmoothingConfig {
    /// The time, in milliseconds, in which the strip closes about 63 % of the gap to a new
    /// colour. Zero disables smoothing.
    pub time_constant_ms: F32,
}

/// The broker and the topics.
#[derive(Clone, Debug, PartialEq)]
pub struct MqttConfig {
    pub broker_url: String,
    pub username: Option<String>,
    pub password: Option<String>,
    /// The topic under which the firmware listens.
    pub topic_base: String,
    /// The device's MAC address, announced with the state when given.
    pub device_mac: Option<String>,
}

/// When the strip goes dark by itself.
#[derive(Clone, Debug, PartialEq)]
pub struct PowerConfig {
    pub idle_pause_after_secs: Option<u64>,
    pub respect_screensaver: bool,
}

impl Default for GeneralConfig {
    fn default() -> (r: GeneralConfig)
        ensures
            r.device_name@ == "rustiferin"@,
            r.log_level is None,
    {
        GeneralConfig { device_name: "rustiferin".to_owned(), log_level: None }
    }
}

impl Default for CaptureConfig {
    fn default() -> (r: CaptureConfig)
        ensures
            r == (CaptureConfig {
                target_fps: 30,
                monitor_index: None,
                subsample: 4,
                backend: CaptureBackend::Portal,
                kms_card: None,
            }),
    {
        CaptureConfig {
            target_fps: 30,
            monitor_index: None,
            subsample: 4,
            backend: CaptureBackend::Portal,
            kms_card: None,
        }
    }
}

/// The four quarters of a 1920 by 1080 screen, clockwise from the top left.
pub open spec fn quarters() -> Seq<LedZone> {
    seq![
        LedZone { x: 0, y: 0, w: 960, h: 540 },
        LedZone { x: 960, y: 0, w: 960, h: 540 },
        LedZone { x: 960, y: 540, w: 960, h: 540 },
        LedZone { x: 0, y: 540, w: 960, h: 540 },
    ]
}

impl Default for LedMatrixConfig {
    fn default() -> (r: LedMatrixConfig)
        ensures
            r.reference_width == 1920,
            r.reference_height == 1080,
            r.zones@ == quarters(),
            r.start_offset == 0,
            !r.reverse,
    {
        let mut zones: Vec<LedZone> = Vec::new();
        zones.push(LedZone { x: 0, y: 0, w: 960, h: 540 });
        zones.push(LedZone { x: 960, y: 0, w: 960, h: 540 });
        zones.push(LedZone { x: 960, y: 540, w: 960, h: 540 });
        zones.push(LedZone { x: 0, y: 540, w: 960, h: 540 });
        LedMatrixConfig {
            reference_width: 1920,
            reference_height: 1080,
            zones,
            start_offset: 0,
            reverse: false,
        }
    }
}

impl Default for HslOffsets {
    fn default() -> (r: HslOffsets)
        ensures
            r == (HslOffsets { h: F32 { bits: 0 }, s: F32 { bits: 0 }, l: F32 { bits: 0 } }),
    {
        HslOffsets { h: F32 { bits: 0 }, s: F32 { bits: 0 }, l: F32 { bits: 0 } }
    }
}

impl Default for AveragingMode {
    fn default() -> (r: AveragingMode)
        ensures
            r == AveragingMode::Mean,
    {
        AveragingMode::Mean
    }
}

impl Default for ColorConfig {
    fn default() -> (r: ColorConfig)
        ensures
            r.gamma == (F32 { bits: TWO_POINT_TWO }),
            r.white_balance_kelvin == 6500,
            r.night_light_strength == (F32 { bits: 0 }),
            r.brightness_max == 255,
            r.brightness_gain == (F32 { bits: float::ONE }),
            r.hsl_offsets == (HslOffsets {
                h: F32 { bits: 0 },
                s: F32 { bits: 0 },
                l: F32 { bits: 0 },
            }),
            r.luminosity_floor == (F32 { bits: 0 }),
            r.averaging == AveragingMode::Mean,
    {
        ColorConfig {
            gamma: F32 { bits: TWO_POINT_TWO },
            white_balance_kelvin: 6500,
            night_light_strength: F32 { bits: 0 },
            brightness_max: 255,
            brightness_gain: F32 { bits: float::ONE },
            hsl_offsets: HslOffsets::default(),
            luminosity_floor: F32 { bits: 0 },
            averaging: AveragingMode::default(),
        }
    }
}

impl Default for SmoothingConfig {
    fn default() -> (r: SmoothingConfig)
        ensures
            r.time_constant_ms == (F32 { bits: FIFTY }),
    {
        SmoothingConfig { time_constant_ms: F32 { bits: FIFTY } }
    }
}

impl Default for MqttConfig {
    fn default() -> (r: MqttConfig)
        ensures
            r.broker_url@ == "mqtt://127.0.0.1:1883"@,
            r.username is None,
            r.password is None,
            r.topic_base@ == "lights/glowwormluciferin"@,
            r.device_mac is None,
    {
        MqttConfig {
            broker_url: "mqtt://127.0.0.1:1883".to_owned(),
            username: None,
            password: None,
            topic_base: "lights/glowwormluciferin".to_owned(),
            device_mac: None,
        }
    }
}

impl Default for PowerConfig {
    fn default() -> (r: PowerConfig)
        ensures
            r.idle_pause_after_secs is None,
            r.respect_screensaver,
    {
        PowerConfig { idle_pause_after_secs: None, respect_screensaver: true }
    }
}

impl Config {
    /// Whether every field holds its default.
    pub open spec fn is_default(self) -> bool {
        &&& call_ensures(GeneralConfig::default, (), self.general)
        &&& call_ensures(CaptureConfig::default, (), self.capture)
        &&& call_ensures(LedMatrixConfig::default, (), self.led_matrix)
        &&& call_ensures(ColorConfig::default, (), self.color)
        &&& call_ensures(SmoothingConfig::default, (), self.smoothing)
        &&& call_ensures(MqttConfig::default, (), self.mqtt)
        &&& call_ensures(PowerConfig::default, (), self.power)
    }
}

impl Default for Config {
    fn default() -> (r: Config)
        ensures
            r.is_default(),
    {
        Config {
            general: GeneralConfig::default(),
            capture: CaptureConfig::default(),
            led_matrix: LedMatrixConfig::default(),
            color: ColorConfig::default(),
            smoothing: SmoothingConfig::default(),
            mqtt: MqttConfig::default(),
            power: PowerConfig::default(),
        }
    }
}

/// Why a configuration is refused.
#[derive(Debug)]
pub enum ConfigError {
    EmptyZones,
    ZoneOutOfBounds { index: usize, x: u32, y: u32, w: u32, h: u32, rw: u32, rh: u32 },
    InvalidGamma(F32),
    InvalidTimeConstant(F32),
    InvalidNightLightStrength(F32),
    InvalidLuminosityFloor(F32),
    InvalidBrightnessGain(F32),
    InvalidBrokerUrl(String),
    InvalidBrokerScheme(String),
    MissingBrokerHost,
    TooManyZones { count: usize, max: usize },
}

/// What a [`ConfigError`] says.
pub enum Fault {
    EmptyZones,
    ZoneOutOfBounds { index: int, zone: LedZone, rw: u32, rh: u32 },
    InvalidGamma(F32),
    InvalidTimeConstant(F32),
    InvalidNightLightStrength(F32),
    InvalidLuminosityFloor(F32),
    InvalidBrightnessGain(F32),
    InvalidBrokerUrl(Seq<char>),
    InvalidBrokerScheme(Seq<char>),
    MissingBrokerHost,
    TooManyZones { count: int, max: int },
}

impl View for ConfigError {
    type V = Fault;

    open spec fn view(&self) -> Fault {
        match *self {
            ConfigError::EmptyZones => Fault::EmptyZones,
            ConfigError::ZoneOutOfBounds { index, x, y, w, h, rw, rh } => Fault::ZoneOutOfBounds {
                index: index as int,
                zone: LedZone { x, y, w, h },
                rw,
                rh,
            },
            ConfigError::InvalidGamma(v) => Fault::InvalidGamma(v),
            ConfigError::InvalidTimeConstant(v) => Fault::InvalidTimeConstant(v),
            ConfigError::InvalidNightLightStrength(v) => Fault::InvalidNightLightStrength(v),
            ConfigError::InvalidLuminosityFloor(v) => Fault::InvalidLuminosityFloor(v),
            ConfigError::InvalidBrightnessGain(v) => Fault::InvalidBrightnessGain(v),
            ConfigError::InvalidBrokerUrl(s) => Fault::InvalidBrokerUrl(s@),
            ConfigError::InvalidBrokerScheme(s) => Fault::InvalidBrokerScheme(s@),
            ConfigError::MissingBrokerHost => Fault::MissingBrokerHost,
            ConfigError::TooManyZones { count, max } => Fault::TooManyZones {
                count: count as int,
                max: max as int,
            },
        }
    }
}

} // verus!
