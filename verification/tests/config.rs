use rustiferin::config::file::default_file;
use rustiferin::config::paths::{
    resolve_default_path, restore_token_path, xdg_state_home, PathError,
};
use rustiferin::config::schema::{AveragingMode, CaptureBackend, Config, ConfigError, LedZone};
use rustiferin::float::F32;

fn f(x: f32) -> F32 {
    F32 { bits: x.to_bits() }
}

#[test]
fn validate_accepts_default() {
    Config::default().validate().expect("default is valid");
}

#[test]
fn defaults_have_their_documented_values() {
    let c = Config::default();
    assert_eq!(c.color.gamma, f(2.2));
    assert_eq!(c.color.white_balance_kelvin, 6500);
    assert_eq!(c.color.brightness_max, 255);
    assert_eq!(c.capture.backend, CaptureBackend::Portal);
    assert_eq!(c.mqtt.broker_url, "mqtt://127.0.0.1:1883");
}

#[test]
fn validate_rejects_out_of_bounds_zone() {
    let mut cfg = Config::default();
    cfg.led_matrix.reference_width = 100;
    cfg.led_matrix.reference_height = 100;
    cfg.led_matrix.zones = vec![LedZone {
        x: 80,
        y: 0,
        w: 40,
        h: 10,
    }];
    let err = cfg.validate().expect_err("out-of-bounds zone");
    assert!(matches!(err, ConfigError::ZoneOutOfBounds { .. }));
}

#[test]
fn the_first_misfit_is_reported() {
    let mut cfg = Config::default();
    cfg.led_matrix.reference_width = 100;
    cfg.led_matrix.reference_height = 100;
    let good = LedZone {
        x: 0,
        y: 0,
        w: 100,
        h: 100,
    };
    let overflowing = LedZone {
        x: u32::MAX,
        y: 0,
        w: 2,
        h: 1,
    };
    let low = LedZone {
        x: 0,
        y: 99,
        w: 1,
        h: 2,
    };
    cfg.led_matrix.zones = vec![good, low, overflowing];
    assert!(matches!(
        cfg.validate(),
        Err(ConfigError::ZoneOutOfBounds {
            index: 1,
            x: 0,
            y: 99,
            w: 1,
            h: 2,
            rw: 100,
            rh: 100
        })
    ));
    cfg.led_matrix.zones = vec![overflowing];
    assert!(matches!(
        cfg.validate(),
        Err(ConfigError::ZoneOutOfBounds { index: 0, .. })
    ));
}

#[test]
fn validate_rejects_empty_zones() {
    let mut cfg = Config::default();
    cfg.led_matrix.zones = vec![];
    let err = cfg.validate().expect_err("empty zones");
    assert!(matches!(err, ConfigError::EmptyZones));
}

#[test]
fn validate_rejects_gamma_zero() {
    let mut cfg = Config::default();
    cfg.color.gamma = f(0.0);
    let err = cfg.validate().expect_err("gamma zero");
    assert!(matches!(err, ConfigError::InvalidGamma(_)));
}

#[test]
fn validate_rejects_gamma_too_high() {
    let mut cfg = Config::default();
    cfg.color.gamma = f(5.5);
    let err = cfg.validate().expect_err("gamma too high");
    assert!(matches!(err, ConfigError::InvalidGamma(_)));
}

#[test]
fn numbers_that_are_none_are_rejected() {
    let nan = f(f32::NAN);
    let mut cfg = Config::default();
    cfg.color.gamma = nan;
    assert!(matches!(cfg.validate(), Err(ConfigError::InvalidGamma(_))));
    let mut cfg = Config::default();
    cfg.color.night_light_strength = nan;
    assert!(matches!(
        cfg.validate(),
        Err(ConfigError::InvalidNightLightStrength(_))
    ));
    let mut cfg = Config::default();
    cfg.color.luminosity_floor = f(f32::INFINITY);
    assert!(matches!(
        cfg.validate(),
        Err(ConfigError::InvalidLuminosityFloor(_))
    ));
}

#[test]
fn time_constants_are_bounded() {
    let mut cfg = Config::default();
    for good in [0.0, 50.0, 10000.0] {
        cfg.smoothing.time_constant_ms = f(good);
        cfg.validate().expect("valid");
    }
    for bad in [-1.0, 10000.1, f32::NAN] {
        cfg.smoothing.time_constant_ms = f(bad);
        assert!(matches!(
            cfg.validate(),
            Err(ConfigError::InvalidTimeConstant(_))
        ));
    }
}

#[test]
fn a_new_gain_changes_nothing_else() {
    let cfg = Config::default()
        .with_brightness_gain(f(2.5))
        .expect("valid gain");
    assert_eq!(cfg.color.brightness_gain, f(2.5));
    assert_eq!(cfg.color.gamma, f(2.2));
    let mut want = Config::default();
    want.color.brightness_gain = f(2.5);
    assert_eq!(cfg, want);
}

#[test]
fn an_invalid_gain_is_refused() {
    assert!(matches!(
        Config::default().with_brightness_gain(f(0.0)),
        Err(ConfigError::InvalidBrightnessGain(_))
    ));
}

#[test]
fn validate_rejects_brightness_gain_zero() {
    let mut cfg = Config::default();
    cfg.color.brightness_gain = f(0.0);
    let err = cfg.validate().expect_err("brightness_gain zero");
    assert!(matches!(err, ConfigError::InvalidBrightnessGain(_)));
}

#[test]
fn validate_rejects_brightness_gain_too_high() {
    let mut cfg = Config::default();
    cfg.color.brightness_gain = f(11.0);
    let err = cfg.validate().expect_err("brightness_gain too high");
    assert!(matches!(err, ConfigError::InvalidBrightnessGain(_)));
}

#[test]
fn validate_accepts_brightness_gain_default() {
    let cfg = Config::default();
    assert_eq!(cfg.color.brightness_gain, f(1.0));
    cfg.validate().expect("default brightness_gain valid");
}

#[test]
fn validate_rejects_night_light_strength_negative() {
    let mut cfg = Config::default();
    cfg.color.night_light_strength = f(-0.1);
    let err = cfg.validate().expect_err("night_light_strength < 0");
    assert!(matches!(err, ConfigError::InvalidNightLightStrength(_)));
}

#[test]
fn validate_rejects_night_light_strength_above_one() {
    let mut cfg = Config::default();
    cfg.color.night_light_strength = f(1.5);
    let err = cfg.validate().expect_err("night_light_strength > 1");
    assert!(matches!(err, ConfigError::InvalidNightLightStrength(_)));
}

#[test]
fn validate_accepts_night_light_bounds() {
    let mut cfg = Config::default();
    cfg.color.night_light_strength = f(0.0);
    cfg.validate().expect("0.0 valid");
    cfg.color.night_light_strength = f(1.0);
    cfg.validate().expect("1.0 valid");
}

#[test]
fn validate_rejects_non_mqtt_scheme() {
    let mut cfg = Config::default();
    cfg.mqtt.broker_url = "http://broker.local:1883".into();
    let err = cfg.validate().expect_err("wrong scheme");
    assert!(matches!(err, ConfigError::InvalidBrokerScheme(_)));
}

#[test]
fn validate_rejects_malformed_url() {
    let mut cfg = Config::default();
    cfg.mqtt.broker_url = "::not a url".into();
    let err = cfg.validate().expect_err("malformed url");
    assert!(matches!(err, ConfigError::InvalidBrokerUrl(_)));
}

#[test]
fn validate_rejects_missing_broker_host() {
    let mut cfg = Config::default();
    cfg.mqtt.broker_url = "mqtt:///path".into();
    let err = cfg.validate().expect_err("missing host");
    assert!(matches!(err, ConfigError::MissingBrokerHost));
}

#[test]
fn validate_accepts_mqtts_scheme() {
    let mut cfg = Config::default();
    cfg.mqtt.broker_url = "mqtts://broker.local:8883".into();
    cfg.validate().expect("mqtts is valid");
}

#[test]
fn scheme_errors_name_the_scheme() {
    let mut cfg = Config::default();
    cfg.mqtt.broker_url = "HTTP://broker.local".into();
    match cfg.validate() {
        Err(ConfigError::InvalidBrokerScheme(s)) => assert_eq!(s, "http"),
        other => panic!("expected a scheme error, got {other:?}"),
    }
}

#[test]
fn resolve_default_path_prefers_xdg() {
    let p = resolve_default_path(Some("/x".into()), Some("/h".into())).expect("ok");
    assert_eq!(p, b"/x/rustiferin/config.yaml".to_vec());
}

#[test]
fn resolve_default_path_falls_back_to_home_dot_config() {
    let p = resolve_default_path(None, Some("/h".into())).expect("ok");
    assert_eq!(p, b"/h/.config/rustiferin/config.yaml".to_vec());
}

#[test]
fn resolve_default_path_treats_empty_xdg_as_unset() {
    let p = resolve_default_path(Some(Vec::new()), Some("/h".into())).expect("ok");
    assert_eq!(p, b"/h/.config/rustiferin/config.yaml".to_vec());
}

#[test]
fn resolve_default_path_errors_when_neither_is_set() {
    let err = resolve_default_path(None, None).expect_err("no fallback");
    assert!(err.message().contains("XDG_CONFIG_HOME"));
}

#[test]
fn state_home_falls_back_to_home() {
    assert_eq!(
        xdg_state_home(Some("/s".into()), Some("/h".into())),
        Ok(b"/s".to_vec())
    );
    assert_eq!(
        xdg_state_home(None, Some("/h/".into())),
        Ok(b"/h/.local/state".to_vec())
    );
    let err = xdg_state_home(None, None).expect_err("no fallback");
    assert_eq!(err, PathError::NoStateHome);
    assert!(err.message().contains("XDG_STATE_HOME"));
    assert_eq!(
        restore_token_path("/s".into()),
        b"/s/rustiferin/restore_token".to_vec()
    );
}

#[test]
fn validate_rejects_more_than_510_zones() {
    let mut cfg = Config::default();
    cfg.led_matrix.reference_width = 10000;
    cfg.led_matrix.zones = (0..511)
        .map(|i| LedZone {
            x: i,
            y: 0,
            w: 1,
            h: 1,
        })
        .collect();
    let err = cfg.validate().expect_err("over the limit");
    assert!(matches!(
        err,
        ConfigError::TooManyZones {
            count: 511,
            max: 510
        }
    ));
}

#[test]
fn averaging_mode_default_is_mean() {
    assert_eq!(Config::default().color.averaging, AveragingMode::Mean);
}

#[test]
fn validate_accepts_exactly_510_zones() {
    let mut cfg = Config::default();
    cfg.led_matrix.reference_width = 10000;
    cfg.led_matrix.zones = (0..510)
        .map(|i| LedZone {
            x: i,
            y: 0,
            w: 1,
            h: 1,
        })
        .collect();
    cfg.validate().expect("at the limit");
}

#[test]
fn a_fresh_file_starts_with_the_comment() {
    let text = default_file("general: {}\n");
    assert!(text.starts_with("# Rustiferin configuration.\n"));
    assert!(text.ends_with("remap.\ngeneral: {}\n"));
}
