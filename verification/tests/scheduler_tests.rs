use raspi::config::{Ds18b20Config, Recorder as RecorderConfig, Sensor, SensorConfig, SeriesConfig};
use raspi::errors::ConfigError;
use raspi::series::SeriesState;
use raspi::timestamp::Timestamp;
use raspi::Recorder;

fn series_cfg(id: &str, interval: &str) -> SeriesConfig {
    SeriesConfig {
        id: id.to_owned(),
        name: id.to_owned(),
        category: "temperature".to_owned(),
        unit: "C".to_owned(),
        color: "#00ff00".to_owned(),
        sampling_interval: interval.to_owned(),
    }
}

fn probe_sensor(id: &str, series: &str) -> Sensor {
    Sensor {
        id: id.to_owned(),
        config: SensorConfig::Ds18b20(Ds18b20Config {
            serial_number: Some("28-041469f3eeff".to_owned()),
            temperature_series: Some(series.to_owned()),
        }),
    }
}

fn two_series_config() -> RecorderConfig {
    RecorderConfig {
        sensors: vec![probe_sensor("probe_in", "temp_in"), probe_sensor("probe_out", "temp_out")],
        series: vec![series_cfg("temp_in", "1s"), series_cfg("temp_out", "2s")],
    }
}

#[test]
fn interval_string_is_parsed_to_seconds() {
    let st = SeriesState::new(&series_cfg("a", "2min")).unwrap();
    assert_eq!(st.sampling_interval, 120);
    assert_eq!(st.id, "a");
    assert!(st.last_measure_instant.is_none());
    let hour = SeriesState::new(&series_cfg("b", "1h 30min")).unwrap();
    assert_eq!(hour.sampling_interval, 5400);
}

#[test]
fn unparsable_interval_is_a_fatal_config_error() {
    let err = SeriesState::new(&series_cfg("a", "every now and then")).unwrap_err();
    match err {
        ConfigError::InvalidInterval { series } => assert_eq!(series, "a"),
        _ => panic!("wrong error variant"),
    }
}

#[test]
fn sub_second_or_fractional_intervals_are_rejected_not_parsed() {
    // Sampling cadence has one-second resolution; sub-second and fractional
    // spans are refused as invalid intervals rather than truncated.
    for bad in ["500ms", "1s 500ms", "1.5h", "2500000000ns", "3us", "4 millis", "5nanos"] {
        match SeriesState::new(&series_cfg("a", bad)) {
            Err(ConfigError::InvalidInterval { series }) => assert_eq!(series, "a"),
            _ => panic!("interval {:?} should be refused", bad),
        }
    }
}

#[test]
fn pathological_overflow_interval_is_an_error_not_an_abort() {
    // This exact shape would drive the duration parser into its one
    // aborting carry; the scheduler must answer with the interval error.
    let err = SeriesState::new(&series_cfg("a", "18446744073709551615s 1000000000ns"));
    match err {
        Err(ConfigError::InvalidInterval { series }) => assert_eq!(series, "a"),
        _ => panic!("wrong outcome"),
    }
    // A huge but whole-second interval still overflows to a clean error.
    match SeriesState::new(&series_cfg("a", "99999999999999999999y")) {
        Err(ConfigError::InvalidInterval { series }) => assert_eq!(series, "a"),
        _ => panic!("wrong outcome"),
    }
}

#[test]
fn valid_config_builds_and_seeds_catalog() {
    let rec = Recorder::new(two_series_config()).unwrap();
    let listed = rec.store().series();
    assert_eq!(listed.len(), 2);
    assert_eq!(listed[0].id, "temp_in");
    assert_eq!(listed[1].id, "temp_out");
    assert_eq!(rec.sensor_for("temp_in").unwrap().as_str(), "probe_in");
    assert_eq!(rec.sensor_for("temp_out").unwrap().as_str(), "probe_out");
    assert!(rec.sensor_for("other").is_none());
}

#[test]
fn duplicate_series_id_is_fatal() {
    let cfg = RecorderConfig {
        sensors: vec![probe_sensor("p", "a")],
        series: vec![series_cfg("a", "1s"), series_cfg("a", "2s")],
    };
    let err = Recorder::new(cfg).unwrap_err();
    match &err {
        ConfigError::DuplicateSeries { series } => assert_eq!(series, "a"),
        _ => panic!("wrong error variant"),
    }
    assert!(err.message().contains("defined twice"));
}

#[test]
fn sensor_claiming_unknown_series_is_fatal() {
    let cfg = RecorderConfig {
        sensors: vec![probe_sensor("p", "ghost")],
        series: vec![series_cfg("a", "1s")],
    };
    let err = Recorder::new(cfg).unwrap_err();
    match &err {
        ConfigError::UnknownSeries { series, sensor } => {
            assert_eq!(series, "ghost");
            assert_eq!(sensor, "p");
        },
        _ => panic!("wrong error variant"),
    }
    assert!(err.message().contains("does not exist"));
}

#[test]
fn series_claimed_by_two_sensors_is_fatal() {
    let cfg = RecorderConfig {
        sensors: vec![probe_sensor("p1", "a"), probe_sensor("p2", "a")],
        series: vec![series_cfg("a", "1s")],
    };
    let err = Recorder::new(cfg).unwrap_err();
    match &err {
        ConfigError::SeriesClaimedTwice { series, first_sensor, second_sensor } => {
            assert_eq!(series, "a");
            assert_eq!(first_sensor, "p1");
            assert_eq!(second_sensor, "p2");
        },
        _ => panic!("wrong error variant"),
    }
}

#[test]
fn orphan_series_is_fatal() {
    let cfg = RecorderConfig {
        sensors: vec![probe_sensor("p", "a")],
        series: vec![series_cfg("a", "1s"), series_cfg("lonely", "1s")],
    };
    let err = Recorder::new(cfg).unwrap_err();
    match &err {
        ConfigError::OrphanSeries { series } => assert_eq!(series, "lonely"),
        _ => panic!("wrong error variant"),
    }
    assert!(err.message().contains("not associated"));
}

#[test]
fn next_due_is_now_before_first_attempt_then_last_plus_interval() {
    let mut st = SeriesState::new(&series_cfg("a", "10s")).unwrap();
    let now = Timestamp::from_secs(500);
    assert_eq!(st.next_measure_instant(now).secs, 500);
    st.notify_measured(now, Err("down".to_owned()));
    assert_eq!(st.next_measure_instant(Timestamp::from_secs(501)).secs, 510);
    st.notify_measured(Timestamp::from_secs(510), Err("down".to_owned()));
    assert_eq!(st.next_measure_instant(Timestamp::from_secs(511)).secs, 520);
}

#[test]
fn next_measure_instant_is_minimum_over_series() {
    let mut rec = Recorder::new(two_series_config()).unwrap();
    let t0 = Timestamp::from_secs(100);
    assert_eq!(rec.next_measure_instant(t0).unwrap().secs, 100);
    for id in rec.due_series(t0) {
        rec.record_attempt(&id, t0, Ok(f64::to_bits(1.0))).unwrap();
    }
    let next = rec.next_measure_instant(Timestamp::from_secs(100)).unwrap();
    assert_eq!(next.secs, 101);
}

#[test]
fn empty_series_set_has_no_next_instant() {
    let rec = Recorder::new(RecorderConfig { sensors: vec![], series: vec![] }).unwrap();
    assert!(rec.next_measure_instant(Timestamp::from_secs(0)).is_none());
    assert!(rec.due_series(Timestamp::from_secs(0)).is_empty());
}

#[test]
fn two_series_scenario_simulated_clock() {
    let mut rec = Recorder::new(two_series_config()).unwrap();
    let mut in_count = 0u32;
    let mut out_count = 0u32;
    for t in 0u64..=3 {
        let now = Timestamp::from_secs(t);
        for id in rec.due_series(now) {
            let value = f64::to_bits(20.0 + t as f64);
            rec.record_attempt(&id, now, Ok(value)).unwrap();
            if id == "temp_in" {
                in_count += 1;
            } else {
                out_count += 1;
            }
        }
    }
    assert!(in_count >= 3);
    assert!(out_count >= 1);
    for series in ["temp_in", "temp_out"] {
        let got = rec.store().fetch(series, 0, 10).unwrap();
        for pair in got.windows(2) {
            assert!(pair[0].timestamp <= pair[1].timestamp);
        }
    }
}

#[test]
fn failing_sensor_leaves_other_series_untouched() {
    let mut rec = Recorder::new(two_series_config()).unwrap();
    for t in 0u64..5 {
        let now = Timestamp::from_secs(t);
        for id in rec.due_series(now) {
            if id == "temp_out" {
                rec.record_attempt(&id, now, Err("sensor unreadable".to_owned())).unwrap();
            } else {
                rec.record_attempt(&id, now, Ok(f64::to_bits(21.5))).unwrap();
            }
        }
    }
    assert!(rec.store().latest("temp_out").is_none());
    let latest_in = rec.store().latest("temp_in").unwrap();
    assert_eq!(f64::from_bits(latest_in.value_bits), 21.5);
}

#[test]
fn failure_in_one_series_does_not_skip_the_other_in_same_cycle() {
    let mut rec = Recorder::new(two_series_config()).unwrap();
    let now = Timestamp::from_secs(0);
    let due = rec.due_series(now);
    assert!(due.contains(&"temp_in".to_owned()));
    assert!(due.contains(&"temp_out".to_owned()));
    // Attempt the first (and fail it); the second must still be due.
    rec.record_attempt("temp_in", now, Err("boom".to_owned())).unwrap();
    let due_after = rec.due_series(now);
    assert!(due_after.contains(&"temp_out".to_owned()));
    rec.record_attempt("temp_out", now, Ok(f64::to_bits(3.5))).unwrap();
    assert_eq!(rec.store().latest("temp_out").unwrap().timestamp, 0);
}

#[test]
fn wall_clock_reads_a_plausible_time() {
    let now = Timestamp::now();
    assert!(now.secs > 1_600_000_000);
    let later = Timestamp::now();
    assert!(later.secs >= now.secs);
    assert_eq!(later.since(now), later.secs - now.secs);
}
