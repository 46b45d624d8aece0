use raspi::config::{Bme280Address, Bme280Config, Ds18b20Config, OpenWeatherMapConfig, SensorConfig};
use raspi::sensors::{detect_ds18b20, parse_millidegrees, DetectSensorError, Ds18b20, Measurement};

fn bme(temp: Option<&str>, hum: Option<&str>, press: Option<&str>) -> SensorConfig {
    SensorConfig::Bme280(Bme280Config {
        path: Bme280Config::default_path(),
        address: Bme280Address::SdoGnd,
        temperature_series: temp.map(|s| s.to_owned()),
        humidity_series: hum.map(|s| s.to_owned()),
        pressure_series: press.map(|s| s.to_owned()),
    })
}

#[test]
fn declared_series_follows_configuration() {
    let cfg = bme(Some("t"), None, Some("p"));
    assert_eq!(cfg.declared_series(), vec!["t".to_owned(), "p".to_owned()]);

    let owm = SensorConfig::OpenWeatherMap(OpenWeatherMapConfig {
        api_key: "demo-key".to_owned(),
        lat_bits: f64::to_bits(48.85),
        lon_bits: f64::to_bits(2.35),
        temperature_series: Some("temp_out".to_owned()),
    });
    assert_eq!(owm.declared_series(), vec!["temp_out".to_owned()]);

    let silent = bme(None, None, None);
    assert!(silent.declared_series().is_empty());
}

#[test]
fn measurement_dispatch_matches_the_declared_name() {
    let cfg = bme(Some("t"), Some("h"), Some("p"));
    assert_eq!(cfg.measurement_for("t"), Some(Measurement::Temperature));
    assert_eq!(cfg.measurement_for("h"), Some(Measurement::Humidity));
    assert_eq!(cfg.measurement_for("p"), Some(Measurement::Pressure));
    assert_eq!(cfg.measurement_for("nope"), None, "no series configured with this name");
}

#[test]
fn single_probe_is_detected() {
    let names = vec!["w1_bus_master1".to_owned(), "28-041469f3eeff".to_owned()];
    assert_eq!(detect_ds18b20(names).unwrap(), "28-041469f3eeff");
}

#[test]
fn no_probe_is_a_distinct_error() {
    let names = vec!["w1_bus_master1".to_owned()];
    match detect_ds18b20(names).unwrap_err() {
        DetectSensorError::NoSensorDetected => {},
        _ => panic!("wrong error variant"),
    }
}

#[test]
fn several_probes_are_all_reported() {
    let names = vec!["28-aaa".to_owned(), "28-bbb".to_owned()];
    match detect_ds18b20(names).unwrap_err() {
        DetectSensorError::SeveralSensorsDetected(list) => {
            assert_eq!(list, vec!["28-aaa".to_owned(), "28-bbb".to_owned()]);
        },
        _ => panic!("wrong error variant"),
    }
}

#[test]
fn configured_serial_number_wins_over_detection() {
    let cfg = Ds18b20Config {
        serial_number: Some("28-custom".to_owned()),
        temperature_series: Some("temp_in".to_owned()),
    };
    let probe = Ds18b20::new(cfg, vec![]).unwrap();
    assert_eq!(probe.serial_number, "28-custom");
    assert_eq!(probe.series(), vec!["temp_in".to_owned()]);
    assert_eq!(probe.temperature_path(), "/sys/bus/w1/devices/28-custom/temperature");
}

#[test]
fn probe_construction_detects_when_unconfigured() {
    let cfg = Ds18b20Config { serial_number: None, temperature_series: None };
    let probe = Ds18b20::new(cfg, vec!["28-xyz".to_owned()]).unwrap();
    assert_eq!(probe.serial_number, "28-xyz");
    assert!(probe.series().is_empty());
}

#[test]
fn raw_probe_readings_parse_as_millidegrees() {
    assert_eq!(parse_millidegrees("19312\n"), Some(19312));
    assert_eq!(parse_millidegrees("  -1062 \n"), Some(-1062));
    assert_eq!(parse_millidegrees("+19312\n"), Some(19312));
    assert_eq!(parse_millidegrees("\u{a0}19312\u{2009}"), Some(19312));
    assert_eq!(parse_millidegrees("0"), Some(0));
    assert_eq!(parse_millidegrees("2147483647"), Some(i32::MAX));
    assert_eq!(parse_millidegrees("-2147483648"), Some(i32::MIN));
    assert_eq!(parse_millidegrees("2147483648"), None);
    assert_eq!(parse_millidegrees(""), None);
    assert_eq!(parse_millidegrees("-"), None);
    assert_eq!(parse_millidegrees("19.3"), None);
    assert_eq!(parse_millidegrees("warm"), None);
}
