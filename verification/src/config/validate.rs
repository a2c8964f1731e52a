//! What makes a configuration usable, and in which order faults are reported.

use vstd::prelude::*;
use vstd::arithmetic::power2::*;

use crate::float;
use crate::float::round;
use crate::float::F32;

use super::broker;
use super::broker::{parse_url, BrokerUrl};
use super::schema;
use super::schema::{Config, ConfigError, LedZone, FIVE, MAX_ZONES, TEN, TEN_THOUSAND};

verus! {

/// Whether a zone is not empty and lies inside the reference frame.
pub open spec fn zone_fits(z: LedZone, rw: u32, rh: u32) -> bool {
    z.w > 0 && z.h > 0 && z.x + z.w <= rw && z.y + z.h <= rh
}

/// Whether zone `i` is the first that does not fit.
pub open spec fn first_misfit(zones: Seq<LedZone>, rw: u32, rh: u32, i: int) -> bool {
    &&& 0 <= i < zones.len()
    &&& !zone_fits(zones[i], rw, rh)
    &&& forall|j: int| 0 <= j < i ==> zone_fits(#[trigger] zones[j], rw, rh)
}

/// Whether `v` is a number with `0 < v <= most`.
pub open spec fn positive_up_to(v: F32, most: int) -> bool {
    !v.nan() && 0 < v.value() <= most * float::unit()
}

/// Whether `v` is a number with `0 <= v <= most`.
pub open spec fn between_zero_and(v: F32, most: int) -> bool {
    !v.nan() && 0 <= v.value() <= most * float::unit()
}

/// The fault of a broker URL, given what the URL parser made of it.
pub open spec fn broker_fault(
    parsed: Result<broker::UrlParts, Seq<char>>,
) -> Option<schema::Fault> {
    match parsed {
        Err(message) => Some(schema::Fault::InvalidBrokerUrl(message)),
        Ok(parts) => if parts.scheme != "mqtt"@ && parts.scheme != "mqtts"@ {
            Some(schema::Fault::InvalidBrokerScheme(parts.scheme))
        } else if parts.host is None {
            Some(schema::Fault::MissingBrokerHost)
        } else {
            None
        },
    }
}

/// The first fault of a configuration, given what the URL parser made of its broker URL.
pub open spec fn fault(
    cfg: Config,
    parsed: Result<broker::UrlParts, Seq<char>>,
) -> Option<schema::Fault> {
    let zones = cfg.led_matrix.zones@;
    let rw = cfg.led_matrix.reference_width;
    let rh = cfg.led_matrix.reference_height;
    if zones.len() == 0 {
        Some(schema::Fault::EmptyZones)
    } else if zones.len() > MAX_ZONES {
        Some(schema::Fault::TooManyZones { count: zones.len() as int, max: MAX_ZONES as int })
    } else if exists|i: int| first_misfit(zones, rw, rh, i) {
        let i = choose|i: int| first_misfit(zones, rw, rh, i);
        Some(schema::Fault::ZoneOutOfBounds { index: i, zone: zones[i], rw, rh })
    } else if !positive_up_to(cfg.color.gamma, 5) {
        Some(schema::Fault::InvalidGamma(cfg.color.gamma))
    } else if !between_zero_and(cfg.smoothing.time_constant_ms, 10000) {
        Some(schema::Fault::InvalidTimeConstant(cfg.smoothing.time_constant_ms))
    } else if !between_zero_and(cfg.color.night_light_strength, 1) {
        Some(schema::Fault::InvalidNightLightStrength(cfg.color.night_light_strength))
    } else if !between_zero_and(cfg.color.luminosity_floor, 1) {
        Some(schema::Fault::InvalidLuminosityFloor(cfg.color.luminosity_floor))
    } else if !positive_up_to(cfg.color.brightness_gain, 10) {
        Some(schema::Fault::InvalidBrightnessGain(cfg.color.brightness_gain))
    } else {
        broker_fault(parsed)
    }
}

/// Whether a result reports the given fault, and success exactly when there is none.
pub open spec fn reports(r: Result<(), ConfigError>, f: Option<schema::Fault>) -> bool {
    match r {
        Ok(()) => f is None,
        Err(e) => f == Some(e@),
    }
}

proof fn lemma_first_misfit_unique(zones: Seq<LedZone>, rw: u32, rh: u32, i: int, j: int)
    requires
        first_misfit(zones, rw, rh, i),
        first_misfit(zones, rw, rh, j),
    ensures
        i == j,
{
    if i < j {
        assert(zone_fits(zones[i], rw, rh));
    } else if j < i {
        assert(zone_fits(zones[j], rw, rh));
    }
}

/// The bounds' patterns hold the numbers that they are named after.
pub proof fn lemma_bounds()
    ensures
        (F32 { bits: 0 }).value() == 0,
        (F32 { bits: float::ONE }).value() == float::unit(),
        (F32 { bits: FIVE }).value() == 5 * float::unit(),
        (F32 { bits: TEN }).value() == 10 * float::unit(),
        (F32 { bits: TEN_THOUSAND }).value() == 10000 * float::unit(),
{
    lemma2_to64();
    round::lemma_form(0, 0);
    round::lemma_form(126, 0x80_0000);
    round::lemma_form(128, 0xA0_0000);
    round::lemma_form(129, 0xA0_0000);
    round::lemma_form(139, 0x9C_4000);
    lemma_pow2_adds(23, 126);
    lemma_pow2_adds(21, 128);
    lemma_pow2_adds(20, 129);
    lemma_pow2_adds(10, 139);
}

/// Whether `v` is a number with `0 < v` and `v` not above the number with the given pattern.
fn in_positive_range(v: F32, most: u32) -> (r: bool)
    requires
        most < float::INFINITY,
    ensures
        r == (!v.nan() && 0 < v.value() <= (F32 { bits: most }).value()),
{
    proof {
        lemma_bounds();
    }
    F32 { bits: 0 }.lt(v) && v.le(F32 { bits: most })
}

/// Whether `v` is a number with `0 <= v` and `v` not above the number with the given pattern.
fn in_closed_range(v: F32, most: u32) -> (r: bool)
    requires
        most < float::INFINITY,
    ensures
        r == (!v.nan() && 0 <= v.value() <= (F32 { bits: most }).value()),
{
    proof {
        lemma_bounds();
    }
    F32 { bits: 0 }.le(v) && v.le(F32 { bits: most })
}

/// Checks a broker URL, given what the URL parser made of it.
pub fn check_broker(parsed: &Result<BrokerUrl, String>) -> (r: Result<(), ConfigError>)
    ensures
        reports(r, broker_fault(broker::outcome(*parsed))),
{
    match parsed {
        Err(message) => Err(ConfigError::InvalidBrokerUrl(message.clone())),
        Ok(url) => {
            let plain: String = "mqtt".to_owned();
            let secure: String = "mqtts".to_owned();
            if url.scheme != plain && url.scheme != secure {
                return Err(ConfigError::InvalidBrokerScheme(url.scheme.clone()));
            }
            if url.host.is_none() {
                return Err(ConfigError::MissingBrokerHost);
            }
            Ok(())
        },
    }
}

impl Config {
    /// Whether the configuration has no fault.
    pub open spec fn valid(self) -> bool {
        fault(self, broker::url_parts(self.mqtt.broker_url@)) is None
    }

    /// Checks the zones: that there are some, not too many, and that each lies inside the
    /// reference frame.
    fn validate_zones(&self) -> (r: Result<(), ConfigError>)
        ensures
            ({
                let zones = self.led_matrix.zones@;
                let rw = self.led_matrix.reference_width;
                let rh = self.led_matrix.reference_height;
                match r {
                    Ok(()) => 0 < zones.len() <= MAX_ZONES && forall|i: int|
                        0 <= i < zones.len() ==> zone_fits(#[trigger] zones[i], rw, rh),
                    Err(e) => forall|parsed: Result<broker::UrlParts, Seq<char>>|
                        #[trigger] fault(*self, parsed) == Some(e@),
                }
            }),
    {
        let count: usize = self.led_matrix.zones.len();
        if count == 0 {
            return Err(ConfigError::EmptyZones);
        }
        if count > MAX_ZONES {
            return Err(ConfigError::TooManyZones { count, max: MAX_ZONES });
        }
        let rw: u32 = self.led_matrix.reference_width;
        let rh: u32 = self.led_matrix.reference_height;
        let mut index: usize = 0;
        while index < count
            invariant
                index <= count,
                count == self.led_matrix.zones@.len(),
                0 < count <= MAX_ZONES,
                rw == self.led_matrix.reference_width,
                rh == self.led_matrix.reference_height,
                forall|j: int|
                    0 <= j < index ==> zone_fits(#[trigger] self.led_matrix.zones@[j], rw, rh),
            decreases count - index,
        {
            let z: LedZone = self.led_matrix.zones[index];
            let x_end: u64 = z.x as u64 + z.w as u64;
            let y_end: u64 = z.y as u64 + z.h as u64;
            if !(z.w > 0 && z.h > 0 && x_end <= rw as u64 && y_end <= rh as u64) {
                proof {
                    let zones = self.led_matrix.zones@;
                    assert(first_misfit(zones, rw, rh, index as int));
                    let c = choose|i: int| first_misfit(zones, rw, rh, i);
                    lemma_first_misfit_unique(zones, rw, rh, index as int, c);
                }
                return Err(
                    ConfigError::ZoneOutOfBounds { index, x: z.x, y: z.y, w: z.w, h: z.h, rw, rh },
                );
            }
            index += 1;
        }
        Ok(())
    }

    /// Checks the configuration, given what the URL parser made of its broker URL.
    ///
    /// Faults are reported in a fixed order: the zones, then the numeric settings, then the
    /// broker.
    pub fn validate_with(&self, parsed: &Result<BrokerUrl, String>) -> (r: Result<(), ConfigError>)
        ensures
            reports(r, fault(*self, broker::outcome(*parsed))),
    {
        proof {
            lemma_bounds();
        }
        match self.validate_zones() {
            Ok(()) => {},
            Err(e) => {
                return Err(e);
            },
        }
        if !in_positive_range(self.color.gamma, FIVE) {
            return Err(ConfigError::InvalidGamma(self.color.gamma));
        }
        if !in_closed_range(self.smoothing.time_constant_ms, TEN_THOUSAND) {
            return Err(ConfigError::InvalidTimeConstant(self.smoothing.time_constant_ms));
        }
        if !in_closed_range(self.color.night_light_strength, float::ONE) {
            return Err(ConfigError::InvalidNightLightStrength(self.color.night_light_strength));
        }
        if !in_closed_range(self.color.luminosity_floor, float::ONE) {
            return Err(ConfigError::InvalidLuminosityFloor(self.color.luminosity_floor));
        }
        if !in_positive_range(self.color.brightness_gain, TEN) {
            return Err(ConfigError::InvalidBrightnessGain(self.color.brightness_gain));
        }
        check_broker(parsed)
    }

    /// Checks the configuration.
    pub fn validate(&self) -> (r: Result<(), ConfigError>)
        ensures
            reports(r, fault(*self, broker::url_parts(self.mqtt.broker_url@))),
            r is Ok <==> self.valid(),
    {
        let parsed = parse_url(self.mqtt.broker_url.as_str());
        self.validate_with(&parsed)
    }

    /// The configuration with another brightness gain, if it is then still usable.
    ///
    /// Nothing but the gain changes, so what is written back holds the rest as it was read.
    pub fn with_brightness_gain(self, value: F32) -> (r: Result<Config, ConfigError>)
        ensures
            ({
                let next = Config {
                    color: schema::ColorConfig { brightness_gain: value, ..self.color },
                    ..self
                };
                let f = fault(next, broker::url_parts(self.mqtt.broker_url@));
                match r {
                    Ok(c) => c == next && f is None,
                    Err(e) => f == Some(e@),
                }
            }),
    {
        let mut next = self;
        next.color.brightness_gain = value;
        match next.validate() {
            Ok(()) => Ok(next),
            Err(e) => Err(e),
        }
    }
}

/// The default configuration has no fault, wherever its broker URL parses to a host under the
/// plain scheme.
pub proof fn default_is_valid(cfg: Config, parsed: Result<broker::UrlParts, Seq<char>>)
    requires
        cfg.is_default(),
        parsed is Ok,
        parsed->Ok_0.scheme == "mqtt"@,
        parsed->Ok_0.host is Some,
    ensures
        fault(cfg, parsed) is None,
{
    lemma_bounds();
    let zones = cfg.led_matrix.zones@;
    assert forall|i: int| !first_misfit(zones, 1920, 1080, i) by {
        if 0 <= i < zones.len() {
            assert(zone_fits(zones[i], 1920, 1080));
        }
    }
    // 2.2 lies below 5, and 50 below 10000.
    round::lemma_monotone(schema::TWO_POINT_TWO as int, FIVE as int);
    round::lemma_monotone(0, schema::TWO_POINT_TWO as int);
    round::lemma_monotone(schema::FIFTY as int, TEN_THOUSAND as int);
    round::lemma_monotone(0, schema::FIFTY as int);
    lemma_pow2_pos(149);
}

/// Changing the gain of a usable configuration can only fail on the gain.
pub proof fn gain_change_fails_on_gain_only(
    cfg: Config,
    value: F32,
    parsed: Result<broker::UrlParts, Seq<char>>,
)
    requires
        fault(cfg, parsed) is None,
    ensures
        ({
            let next = Config {
                color: schema::ColorConfig { brightness_gain: value, ..cfg.color },
                ..cfg
            };
            fault(next, parsed) == if positive_up_to(value, 10) {
                None
            } else {
                Some(schema::Fault::InvalidBrightnessGain(value))
            }
        }),
{
}

} // verus!
