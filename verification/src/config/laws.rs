//! Which configurations are usable, what is said of the others, and where files are looked for.

use vstd::prelude::*;
use vstd::utf8::*;

use crate::float;
use crate::float::F32;

use super::broker;
use super::paths;
use super::paths::{PathError, SLASH};
use super::schema;
use super::schema::{Config, ConfigError, LedZone};
use super::validate;

verus! {

/// Whether every zone has an extent and ends inside the reference frame.
pub open spec fn zones_are_inside(zones: Seq<LedZone>, width: u32, height: u32) -> bool {
    forall|i: int|
        #![trigger zones[i]]
        0 <= i < zones.len() ==> {
            &&& zones[i].w > 0
            &&& zones[i].h > 0
            &&& zones[i].x + zones[i].w <= width
            &&& zones[i].y + zones[i].h <= height
        }
}

/// A configuration is usable exactly where it has 1 to 510 zones, all of them inside the reference
/// frame, a gamma above 0 and up to 5, a time constant of 0 to 10000, a night light and a
/// luminosity floor of 0 to 1, a gain above 0 and up to 10, and a broker URL with a host under one
/// of the two schemes.
pub proof fn usable_configurations(cfg: Config, parsed: Result<broker::UrlParts, Seq<char>>)
    ensures
        validate::fault(cfg, parsed) is None <==> {
            let u = float::unit();
            &&& 1 <= cfg.led_matrix.zones@.len() <= 510
            &&& zones_are_inside(
                cfg.led_matrix.zones@,
                cfg.led_matrix.reference_width,
                cfg.led_matrix.reference_height,
            )
            &&& !cfg.color.gamma.nan() && 0 < cfg.color.gamma.value() <= 5 * u
            &&& !cfg.smoothing.time_constant_ms.nan() && 0
                <= cfg.smoothing.time_constant_ms.value() <= 10_000 * u
            &&& !cfg.color.night_light_strength.nan() && 0 <= cfg.color.night_light_strength.value()
                <= u
            &&& !cfg.color.luminosity_floor.nan() && 0 <= cfg.color.luminosity_floor.value() <= u
            &&& !cfg.color.brightness_gain.nan() && 0 < cfg.color.brightness_gain.value() <= 10 * u
            &&& parsed is Ok
            &&& parsed->Ok_0.scheme == "mqtt"@ || parsed->Ok_0.scheme == "mqtts"@
            &&& parsed->Ok_0.host is Some
        },
{
    let zones = cfg.led_matrix.zones@;
    let rw = cfg.led_matrix.reference_width;
    let rh = cfg.led_matrix.reference_height;
    if exists|i: int| validate::first_misfit(zones, rw, rh, i) {
        let i = choose|i: int| validate::first_misfit(zones, rw, rh, i);
        assert(!validate::zone_fits(zones[i], rw, rh));
    } else {
        assert forall|i: int| 0 <= i < zones.len() implies validate::zone_fits(
            #[trigger] zones[i],
            rw,
            rh,
        ) by {
            if !validate::zone_fits(zones[i], rw, rh) {
                lemma_some_misfit_is_first(zones, rw, rh, i);
            }
        }
    }
}

proof fn lemma_some_misfit_is_first(zones: Seq<LedZone>, rw: u32, rh: u32, i: int)
    requires
        0 <= i < zones.len(),
        !validate::zone_fits(zones[i], rw, rh),
    ensures
        exists|k: int| validate::first_misfit(zones, rw, rh, k),
    decreases i,
{
    if forall|j: int| 0 <= j < i ==> validate::zone_fits(#[trigger] zones[j], rw, rh) {
        assert(validate::first_misfit(zones, rw, rh, i));
    } else {
        let j = choose|j: int|
            0 <= j < i && !validate::zone_fits(#[trigger] zones[j], rw, rh);
        lemma_some_misfit_is_first(zones, rw, rh, j);
    }
}

/// Of a configuration without zones, with more than 510, or with some outside the reference frame,
/// that is what is said, whatever else is wrong with it. Of several zones outside, the first is
/// named.
pub proof fn zones_are_looked_at_first(
    cfg: Config,
    parsed: Result<broker::UrlParts, Seq<char>>,
    i: int,
)
    ensures
        ({
            let zones = cfg.led_matrix.zones@;
            let rw = cfg.led_matrix.reference_width;
            let rh = cfg.led_matrix.reference_height;
            let f = validate::fault(cfg, parsed);
            &&& zones.len() == 0 ==> f == Some(schema::Fault::EmptyZones)
            &&& zones.len() > 510 ==> f == Some(
                schema::Fault::TooManyZones { count: zones.len() as int, max: 510 },
            )
            &&& zones.len() <= 510 && 0 <= i < zones.len() && zones_are_inside(
                zones.take(i),
                rw,
                rh,
            ) && !zones_are_inside(zones.take(i + 1), rw, rh) ==> f == Some(
                schema::Fault::ZoneOutOfBounds { index: i, zone: zones[i], rw, rh },
            )
        }),
{
    let zones = cfg.led_matrix.zones@;
    let rw = cfg.led_matrix.reference_width;
    let rh = cfg.led_matrix.reference_height;
    if 0 <= i < zones.len() && zones_are_inside(zones.take(i), rw, rh) && !zones_are_inside(
        zones.take(i + 1),
        rw,
        rh,
    ) {
        assert forall|j: int| 0 <= j < i implies validate::zone_fits(#[trigger] zones[j], rw, rh) by {
            assert(zones.take(i)[j] == zones[j]);
        }
        assert(!validate::zone_fits(zones[i], rw, rh)) by {
            if validate::zone_fits(zones[i], rw, rh) {
                let s = zones.take(i + 1);
                assert forall|j: int| #![trigger s[j]] 0 <= j < s.len() implies {
                    &&& s[j].w > 0
                    &&& s[j].h > 0
                    &&& s[j].x + s[j].w <= rw
                    &&& s[j].y + s[j].h <= rh
                } by {
                    assert(validate::zone_fits(zones[j], rw, rh));
                }
            }
        }
        assert(validate::first_misfit(zones, rw, rh, i));
        let k = choose|k: int| validate::first_misfit(zones, rw, rh, k);
        if k < i {
            assert(validate::zone_fits(zones[k], rw, rh));
        } else if i < k {
            assert(validate::zone_fits(zones[i], rw, rh));
        }
    }
}

/// Whether a number is above zero and up to a bound.
pub open spec fn is_above_zero(v: F32, most: int) -> bool {
    !v.nan() && 0 < v.value() <= most * float::unit()
}

/// Whether a number is from zero up to a bound.
pub open spec fn is_from_zero(v: F32, most: int) -> bool {
    !v.nan() && 0 <= v.value() <= most * float::unit()
}

/// With its zones in order, what is said of a configuration is the first of: its gamma, its time
/// constant, its night light, its luminosity floor, its gain, its URL, the scheme and the host.
pub proof fn settings_are_looked_at_in_order(
    cfg: Config,
    parsed: Result<broker::UrlParts, Seq<char>>,
)
    requires
        1 <= cfg.led_matrix.zones@.len() <= 510,
        zones_are_inside(
            cfg.led_matrix.zones@,
            cfg.led_matrix.reference_width,
            cfg.led_matrix.reference_height,
        ),
    ensures
        ({
            let f = validate::fault(cfg, parsed);
            let gamma = is_above_zero(cfg.color.gamma, 5);
            let time = gamma && is_from_zero(cfg.smoothing.time_constant_ms, 10_000);
            let night = time && is_from_zero(cfg.color.night_light_strength, 1);
            let floor = night && is_from_zero(cfg.color.luminosity_floor, 1);
            let gain = floor && is_above_zero(cfg.color.brightness_gain, 10);
            let url = gain && parsed is Ok;
            let scheme = url && (parsed->Ok_0.scheme == "mqtt"@ || parsed->Ok_0.scheme == "mqtts"@);
            &&& f == Some(schema::Fault::InvalidGamma(cfg.color.gamma)) <==> !gamma
            &&& f == Some(schema::Fault::InvalidTimeConstant(cfg.smoothing.time_constant_ms))
                <==> gamma && !time
            &&& f == Some(schema::Fault::InvalidNightLightStrength(cfg.color.night_light_strength))
                <==> time && !night
            &&& f == Some(schema::Fault::InvalidLuminosityFloor(cfg.color.luminosity_floor))
                <==> night && !floor
            &&& f == Some(schema::Fault::InvalidBrightnessGain(cfg.color.brightness_gain))
                <==> floor && !gain
            &&& gain && !url ==> f == Some(schema::Fault::InvalidBrokerUrl(parsed->Err_0))
            &&& url && !scheme ==> f == Some(
                schema::Fault::InvalidBrokerScheme(parsed->Ok_0.scheme),
            )
            &&& scheme && parsed->Ok_0.host is None ==> f == Some(schema::Fault::MissingBrokerHost)
        }),
{
    let zones = cfg.led_matrix.zones@;
    let rw = cfg.led_matrix.reference_width;
    let rh = cfg.led_matrix.reference_height;
    assert forall|i: int| !validate::first_misfit(zones, rw, rh, i) by {
        if 0 <= i < zones.len() {
            assert(validate::zone_fits(zones[i], rw, rh));
        }
    }
}

/// The bytes of a text of plain characters, one for one.
pub open spec fn plain(t: Seq<char>) -> Seq<u8> {
    t.map_values(|c: char| c as u8)
}

proof fn lemma_plain(t: Seq<char>)
    requires
        is_ascii_chars(t),
    ensures
        encode_utf8(t) == plain(t),
{
    is_ascii_chars_encode_utf8(t);
    assert(encode_utf8(t) =~= plain(t));
}

proof fn lemma_names()
    ensures
        encode_utf8("rustiferin"@) == plain("rustiferin"@),
        encode_utf8("config.yaml"@) == plain("config.yaml"@),
        encode_utf8("restore_token"@) == plain("restore_token"@),
        encode_utf8(".config"@) == plain(".config"@),
        encode_utf8(".local"@) == plain(".local"@),
        encode_utf8("state"@) == plain("state"@),
        plain("rustiferin"@).len() == 10 && plain("rustiferin"@).last() != SLASH,
        plain(".config"@).len() == 7 && plain(".config"@).last() != SLASH,
        plain(".local"@).len() == 6 && plain(".local"@).last() != SLASH,
{
    reveal_strlit("rustiferin");
    reveal_strlit("config.yaml");
    reveal_strlit("restore_token");
    reveal_strlit(".config");
    reveal_strlit(".local");
    reveal_strlit("state");
    lemma_plain("rustiferin"@);
    lemma_plain("config.yaml"@);
    lemma_plain("restore_token"@);
    lemma_plain(".config"@);
    lemma_plain(".local"@);
    lemma_plain("state"@);
}

proof fn lemma_texts()
    ensures
        plain("/rustiferin/config.yaml"@) == seq![SLASH] + plain("rustiferin"@) + seq![SLASH]
            + plain("config.yaml"@),
        plain("/.config/rustiferin/config.yaml"@) == seq![SLASH] + plain(".config"@) + seq![SLASH]
            + plain("rustiferin"@) + seq![SLASH] + plain("config.yaml"@),
        plain("/rustiferin/restore_token"@) == seq![SLASH] + plain("rustiferin"@) + seq![SLASH]
            + plain("restore_token"@),
        plain("/.local/state"@) == seq![SLASH] + plain(".local"@) + seq![SLASH] + plain("state"@),
{
    reveal_strlit("rustiferin");
    reveal_strlit("config.yaml");
    reveal_strlit("restore_token");
    reveal_strlit(".config");
    reveal_strlit(".local");
    reveal_strlit("state");
    reveal_strlit("/rustiferin/config.yaml");
    reveal_strlit("/.config/rustiferin/config.yaml");
    reveal_strlit("/rustiferin/restore_token");
    reveal_strlit("/.local/state");
    assert(plain("/rustiferin/config.yaml"@) =~= seq![SLASH] + plain("rustiferin"@) + seq![SLASH]
        + plain("config.yaml"@));
    assert(plain("/.config/rustiferin/config.yaml"@) =~= seq![SLASH] + plain(".config"@) + seq![
        SLASH,
    ] + plain("rustiferin"@) + seq![SLASH] + plain("config.yaml"@));
    assert(plain("/rustiferin/restore_token"@) =~= seq![SLASH] + plain("rustiferin"@) + seq![SLASH]
        + plain("restore_token"@));
    assert(plain("/.local/state"@) =~= seq![SLASH] + plain(".local"@) + seq![SLASH] + plain(
        "state"@,
    ));
}

/// Files lie at fixed places below the directories that the environment names, whether or not
/// these end in a separator. What a variable of its own names is taken before the home directory.
pub proof fn files_lie_at_fixed_places(stem: Seq<u8>, slash: bool, home: Option<Seq<u8>>)
    requires
        stem.len() > 0,
        stem.last() != SLASH,
    ensures
        ({
            let dir = if slash {
                stem.push(SLASH)
            } else {
                stem
            };
            &&& paths::config_path(Some(dir), home) == Some(
                stem + plain("/rustiferin/config.yaml"@),
            )
            &&& paths::config_path(None, Some(dir)) == Some(
                stem + plain("/.config/rustiferin/config.yaml"@),
            )
            &&& paths::config_path(None, None) is None
            &&& paths::state_home(Some(dir), home) == Some(dir)
            &&& paths::state_home(None, Some(dir)) == Some(stem + plain("/.local/state"@))
            &&& paths::state_home(None, None) is None
            &&& paths::below(paths::below(dir, "rustiferin"@), "restore_token"@) == stem + plain(
                "/rustiferin/restore_token"@,
            )
        }),
{
    lemma_names();
    lemma_texts();
    let dir = if slash {
        stem.push(SLASH)
    } else {
        stem
    };
    lemma_below(stem, slash, "rustiferin"@);
    lemma_below(stem, slash, ".config"@);
    lemma_below(stem, slash, ".local"@);
    let own = paths::below(dir, "rustiferin"@);
    let config = paths::below(dir, ".config"@);
    let local = paths::below(dir, ".local"@);
    lemma_below(own, false, "config.yaml"@);
    lemma_below(own, false, "restore_token"@);
    lemma_below(config, false, "rustiferin"@);
    lemma_below(local, false, "state"@);
    let below = paths::below(config, "rustiferin"@);
    lemma_below(below, false, "config.yaml"@);
    assert(paths::below(own, "config.yaml"@) =~= stem + plain("/rustiferin/config.yaml"@));
    assert(paths::below(own, "restore_token"@) =~= stem + plain("/rustiferin/restore_token"@));
    assert(paths::below(local, "state"@) =~= stem + plain("/.local/state"@));
    assert(paths::below(below, "config.yaml"@) =~= stem + plain(
        "/.config/rustiferin/config.yaml"@,
    ));
}

proof fn lemma_below(stem: Seq<u8>, slash: bool, name: Seq<char>)
    requires
        stem.len() > 0,
        stem.last() != SLASH,
        encode_utf8(name) == plain(name),
    ensures
        ({
            let dir = if slash {
                stem.push(SLASH)
            } else {
                stem
            };
            let path = paths::below(dir, name);
            &&& path == stem + seq![SLASH] + plain(name)
            &&& name.len() > 0 ==> path.len() > 0 && path.last() == plain(name).last()
        }),
{
    let dir = if slash {
        stem.push(SLASH)
    } else {
        stem
    };
    assert(paths::below(dir, name) =~= stem + seq![SLASH] + plain(name));
}

/// A check succeeds exactly where there is no fault, and else reports it.
pub proof fn checks_report_their_fault(r: Result<(), ConfigError>, f: Option<schema::Fault>)
    requires
        validate::reports(r, f),
    ensures
        r is Ok <==> f is None,
        r matches Err(e) ==> f == Some(e@),
{
}

/// Errors hold what they are about, each in its place.
pub proof fn errors_hold_what_they_are_about(
    index: usize,
    zone: LedZone,
    rw: u32,
    rh: u32,
    v: F32,
    said: String,
    count: usize,
    max: usize,
)
    ensures
        (ConfigError::ZoneOutOfBounds {
            index,
            x: zone.x,
            y: zone.y,
            w: zone.w,
            h: zone.h,
            rw,
            rh,
        })@ == (schema::Fault::ZoneOutOfBounds { index: index as int, zone, rw, rh }),
        ConfigError::InvalidGamma(v)@ == schema::Fault::InvalidGamma(v),
        ConfigError::InvalidTimeConstant(v)@ == schema::Fault::InvalidTimeConstant(v),
        ConfigError::InvalidNightLightStrength(v)@ == schema::Fault::InvalidNightLightStrength(v),
        ConfigError::InvalidLuminosityFloor(v)@ == schema::Fault::InvalidLuminosityFloor(v),
        ConfigError::InvalidBrightnessGain(v)@ == schema::Fault::InvalidBrightnessGain(v),
        ConfigError::InvalidBrokerUrl(said)@ == schema::Fault::InvalidBrokerUrl(said@),
        ConfigError::InvalidBrokerScheme(said)@ == schema::Fault::InvalidBrokerScheme(said@),
        (ConfigError::TooManyZones { count, max })@ == (schema::Fault::TooManyZones {
            count: count as int,
            max: max as int,
        }),
{
}

/// A variable that is not set, or set to nothing, names no directory; any other names its own. A
/// path is given exactly where there is one.
pub proof fn empty_variables_count_as_unset(
    v: Vec<u8>,
    r: Result<Vec<u8>, PathError>,
    path: Option<Seq<u8>>,
    missing: PathError,
)
    ensures
        paths::set_value(None) is None,
        v@.len() == 0 ==> paths::set_value(Some(v)) is None,
        v@.len() > 0 ==> paths::set_value(Some(v)) == Some(v@),
        paths::yields(r, path, missing) ==> (r is Ok <==> path is Some),
        paths::yields(r, path, missing) && r is Ok ==> path == Some(r->Ok_0@),
        paths::yields(r, path, missing) && r is Err ==> r->Err_0 == missing,
{
}

} // verus!
