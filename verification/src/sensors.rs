//! The pure half of the sensor layer.
//!
//! A sensor's device or network I/O lives in the driver layer; what is
//! decided here — which series a configured sensor declares, which
//! measurement a series name selects, and which one-wire device is the
//! probe — is plain logic on the configuration.
use vstd::prelude::*;

use crate::config::{Ds18b20Config, SensorConfig};
use crate::digits::{all_digits, digits_value, parse_u64};

verus! {

/// The whitespace a sensor's raw file content may carry around the number:
/// the Unicode White_Space code points.
pub open spec fn is_space(c: char) -> bool {
    ('\u{9}' <= c && c <= '\u{D}') || c == ' ' || c == '\u{85}' || c == '\u{A0}' || c == '\u{1680}'
        || ('\u{2000}' <= c && c <= '\u{200A}') || c == '\u{2028}' || c == '\u{2029}' || c
        == '\u{202F}' || c == '\u{205F}' || c == '\u{3000}'
}

/// `s` with its leading whitespace removed.
pub open spec fn trim_front(s: Seq<char>) -> Seq<char>
    decreases s.len(),
{
    if s.len() > 0 && is_space(s[0]) {
        trim_front(s.drop_first())
    } else {
        s
    }
}

/// `s` with its trailing whitespace removed.
pub open spec fn trim_back(s: Seq<char>) -> Seq<char>
    decreases s.len(),
{
    if s.len() > 0 && is_space(s.last()) {
        trim_back(s.drop_last())
    } else {
        s
    }
}

/// `s` with whitespace removed on both ends.
pub open spec fn trim_spec(s: Seq<char>) -> Seq<char> {
    trim_back(trim_front(s))
}

proof fn lemma_trim_front_at(s: Seq<char>, a: int)
    requires
        0 <= a <= s.len(),
        forall|j: int| 0 <= j < a ==> is_space(#[trigger] s[j]),
        a < s.len() ==> !is_space(s[a]),
    ensures
        trim_front(s) == s.skip(a),
    decreases a,
{
    if a == 0 {
        assert(s.skip(0) =~= s);
    } else {
        assert(is_space(s[0]));
        assert forall|j: int| 0 <= j < a - 1 implies is_space(#[trigger] s.drop_first()[j]) by {
            assert(s.drop_first()[j] == s[j + 1]);
        }
        lemma_trim_front_at(s.drop_first(), a - 1);
        assert(s.drop_first().skip(a - 1) =~= s.skip(a));
    }
}

proof fn lemma_trim_back_at(s: Seq<char>, b: int)
    requires
        0 <= b <= s.len(),
        forall|j: int| b <= j < s.len() ==> is_space(#[trigger] s[j]),
        b > 0 ==> !is_space(s[b - 1]),
    ensures
        trim_back(s) == s.take(b),
    decreases s.len(),
{
    if b == s.len() {
        assert(s.take(b) =~= s);
        if s.len() > 0 {
            assert(!is_space(s.last()));
        }
    } else {
        assert(is_space(s.last()));
        assert forall|j: int| b <= j < s.drop_last().len() implies is_space(
            #[trigger] s.drop_last()[j],
        ) by {
            assert(s.drop_last()[j] == s[j]);
        }
        lemma_trim_back_at(s.drop_last(), b);
        assert(s.drop_last().take(b) =~= s.take(b));
    }
}

fn is_space_char(c: char) -> (r: bool)
    ensures
        r == is_space(c),
{
    ('\u{9}' <= c && c <= '\u{D}') || c == ' ' || c == '\u{85}' || c == '\u{A0}' || c == '\u{1680}'
        || ('\u{2000}' <= c && c <= '\u{200A}') || c == '\u{2028}' || c == '\u{2029}' || c
        == '\u{202F}' || c == '\u{205F}' || c == '\u{3000}'
}

/// Strips whitespace on both ends.
fn trim_spaces(s: &str) -> (r: String)
    ensures
        r@ == trim_spec(s@),
{
    let n = s.unicode_len();
    let mut a: usize = 0;
    while a < n && is_space_char(s.get_char(a))
        invariant
            n == s@.len(),
            0 <= a <= n,
            forall|j: int| 0 <= j < a ==> is_space(#[trigger] s@[j]),
        decreases n - a,
    {
        a += 1;
    }
    proof {
        lemma_trim_front_at(s@, a as int);
    }
    if a == n {
        proof {
            assert(s@.skip(n as int) =~= Seq::<char>::empty());
            assert(trim_spec(s@) =~= Seq::<char>::empty());
        }
        return String::new();
    }
    let mut b: usize = n;
    while b > a + 1 && is_space_char(s.get_char(b - 1))
        invariant
            n == s@.len(),
            0 <= a < b <= n,
            forall|j: int| b <= j < n ==> is_space(#[trigger] s@[j]),
        decreases b,
    {
        b -= 1;
    }
    proof {
        assert(!is_space(s@[b - 1 as int])) by {
            if b == a + 1 {
                assert(!is_space(s@[a as int]));
            }
        }
    }
    proof {
        let t = s@.skip(a as int);
        assert forall|j: int| b - a <= j < t.len() implies is_space(#[trigger] t[j]) by {
            assert(t[j] == s@[j + a]);
        }
        assert(t[b - a - 1] == s@[b - 1 as int]);
        lemma_trim_back_at(t, b - a as int);
        assert(t.take(b - a) =~= s@.subrange(a as int, b as int));
    }
    s.substring_char(a, b).to_owned()
}

/// A trimmed reading is well-formed when it is a digit run, optionally
/// behind one sign character.
pub open spec fn signed_ok(s: Seq<char>) -> bool {
    if s.len() > 0 && (s[0] == '-' || s[0] == '+') {
        s.len() > 1 && all_digits(s.skip(1))
    } else {
        s.len() > 0 && all_digits(s)
    }
}

/// The integer a well-formed reading denotes.
pub open spec fn signed_value(s: Seq<char>) -> int {
    if s.len() > 0 && s[0] == '-' {
        -digits_value(s.skip(1))
    } else if s.len() > 0 && s[0] == '+' {
        digits_value(s.skip(1))
    } else {
        digits_value(s)
    }
}

/// Reads a one-wire probe's raw file content as millidegrees: the content,
/// with surrounding whitespace ignored, must be an optionally signed
/// decimal integer that fits the result type.
pub fn parse_millidegrees(raw: &str) -> (r: Option<i32>)
    ensures
        r is Some <==> (signed_ok(trim_spec(raw@)) && i32::MIN <= signed_value(trim_spec(raw@))
            <= i32::MAX),
        r matches Some(v) ==> v == signed_value(trim_spec(raw@)),
{
    let t = trim_spaces(raw);
    let s = t.as_str();
    let n = s.unicode_len();
    if n == 0 {
        return None;
    }
    if s.get_char(0) == '-' {
        let magnitude = s.substring_char(1, n);
        proof {
            assert(magnitude@ =~= s@.skip(1));
        }
        match parse_u64(magnitude) {
            None => {
                proof {
                    if all_digits(s@.skip(1)) && digits_value(s@.skip(1)) > u64::MAX {
                        assert(signed_value(trim_spec(raw@)) < i32::MIN);
                    }
                }
                None
            },
            Some(v) => {
                if v > 2147483648u64 {
                    None
                } else if v == 2147483648u64 {
                    Some(i32::MIN)
                } else {
                    Some(-(v as i32))
                }
            },
        }
    } else if s.get_char(0) == '+' {
        let magnitude = s.substring_char(1, n);
        proof {
            assert(magnitude@ =~= s@.skip(1));
        }
        match parse_u64(magnitude) {
            None => {
                proof {
                    if all_digits(s@.skip(1)) && digits_value(s@.skip(1)) > u64::MAX {
                        assert(signed_value(trim_spec(raw@)) > i32::MAX);
                    }
                }
                None
            },
            Some(v) => {
                if v > 2147483647u64 {
                    None
                } else {
                    Some(v as i32)
                }
            },
        }
    } else {
        match parse_u64(s) {
            None => {
                proof {
                    if all_digits(s@) && digits_value(s@) > u64::MAX {
                        assert(signed_value(trim_spec(raw@)) > i32::MAX);
                    }
                }
                None
            },
            Some(v) => {
                if v > 2147483647u64 {
                    None
                } else {
                    Some(v as i32)
                }
            },
        }
    }
}

/// The kind of physical quantity a sensor is asked for.
#[derive(Debug, Clone, Copy, PartialEq, Eq, Structural)]
pub enum Measurement {
    Temperature,
    Humidity,
    Pressure,
}

/// The series an optional series name contributes: one or none.
pub open spec fn opt_series(o: Option<String>) -> Seq<Seq<char>> {
    match o {
        Some(s) => seq![s@],
        None => Seq::<Seq<char>>::empty(),
    }
}

/// Whether the optional series name is exactly `s`.
pub open spec fn opt_matches(o: Option<String>, s: Seq<char>) -> bool {
    match o {
        Some(x) => x@ == s,
        None => false,
    }
}

/// The measurement a sensor takes for a series name: the declared name that
/// matches selects its quantity (a BME280 checks humidity, then pressure,
/// then temperature); no match means the series is not this sensor's.
pub open spec fn measurement_spec(c: SensorConfig, series: Seq<char>) -> Option<Measurement> {
    match c {
        SensorConfig::Ds18b20(c) => if opt_matches(c.temperature_series, series) {
            Some(Measurement::Temperature)
        } else {
            None
        },
        SensorConfig::Bme280(c) => if opt_matches(c.humidity_series, series) {
            Some(Measurement::Humidity)
        } else if opt_matches(c.pressure_series, series) {
            Some(Measurement::Pressure)
        } else if opt_matches(c.temperature_series, series) {
            Some(Measurement::Temperature)
        } else {
            None
        },
        SensorConfig::OpenWeatherMap(c) => if opt_matches(c.temperature_series, series) {
            Some(Measurement::Temperature)
        } else {
            None
        },
    }
}

impl SensorConfig {
    /// The series this sensor declares it can produce, fixed at construction.
    pub open spec fn declared_spec(self) -> Seq<Seq<char>> {
        match self {
            SensorConfig::Ds18b20(c) => opt_series(c.temperature_series),
            SensorConfig::Bme280(c) => opt_series(c.temperature_series) + opt_series(
                c.humidity_series,
            ) + opt_series(c.pressure_series),
            SensorConfig::OpenWeatherMap(c) => opt_series(c.temperature_series),
        }
    }

    /// The declared series, as values.
    pub fn declared_series(&self) -> (r: Vec<String>)
        ensures
            r.deep_view() == self.declared_spec(),
    {
        let mut out: Vec<String> = Vec::new();
        match self {
            SensorConfig::Ds18b20(c) => {
                if let Some(s) = &c.temperature_series {
                    out.push(s.clone());
                }
                proof {
                    assert(out.deep_view() =~= self.declared_spec());
                }
            },
            SensorConfig::Bme280(c) => {
                if let Some(s) = &c.temperature_series {
                    out.push(s.clone());
                }
                if let Some(s) = &c.humidity_series {
                    out.push(s.clone());
                }
                if let Some(s) = &c.pressure_series {
                    out.push(s.clone());
                }
                proof {
                    assert(out.deep_view() =~= self.declared_spec());
                }
            },
            SensorConfig::OpenWeatherMap(c) => {
                if let Some(s) = &c.temperature_series {
                    out.push(s.clone());
                }
                proof {
                    assert(out.deep_view() =~= self.declared_spec());
                }
            },
        }
        out
    }

    /// The measurement to take for `series`, or `None` when this sensor does
    /// not declare that series — the wiring error a driver reports as "no
    /// series configured with this name".
    pub fn measurement_for(&self, series: &str) -> (r: Option<Measurement>)
        ensures
            r == measurement_spec(*self, series@),
            r is Some <==> self.declared_spec().contains(series@),
    {
        let key: String = series.to_owned();
        let r = match self {
            SensorConfig::Ds18b20(c) => {
                match &c.temperature_series {
                    Some(x) if *x == key => Some(Measurement::Temperature),
                    _ => None,
                }
            },
            SensorConfig::Bme280(c) => {
                if match &c.humidity_series {
                    Some(x) => *x == key,
                    None => false,
                } {
                    Some(Measurement::Humidity)
                } else if match &c.pressure_series {
                    Some(x) => *x == key,
                    None => false,
                } {
                    Some(Measurement::Pressure)
                } else if match &c.temperature_series {
                    Some(x) => *x == key,
                    None => false,
                } {
                    Some(Measurement::Temperature)
                } else {
                    None
                }
            },
            SensorConfig::OpenWeatherMap(c) => {
                match &c.temperature_series {
                    Some(x) if *x == key => Some(Measurement::Temperature),
                    _ => None,
                }
            },
        };
        proof {
            if self.declared_spec().contains(series@) {
                assert(r is Some);
            }
            if r is Some {
                match self {
                    SensorConfig::Ds18b20(c) => {
                        assert(self.declared_spec()[0] == series@);
                    },
                    SensorConfig::Bme280(c) => {
                        if opt_matches(c.temperature_series, series@) {
                            assert(self.declared_spec().contains(series@)) by {
                                assert(self.declared_spec()[0] == series@);
                            }
                        } else if opt_matches(c.humidity_series, series@) {
                            assert(self.declared_spec().contains(series@)) by {
                                let n = opt_series(c.temperature_series).len();
                                assert(self.declared_spec()[n as int] == series@);
                            }
                        } else {
                            assert(self.declared_spec().contains(series@)) by {
                                let n = opt_series(c.temperature_series).len() + opt_series(
                                    c.humidity_series,
                                ).len();
                                assert(self.declared_spec()[n as int] == series@);
                            }
                        }
                    },
                    SensorConfig::OpenWeatherMap(c) => {
                        assert(self.declared_spec()[0] == series@);
                    },
                }
            }
        }
        r
    }
}

/// A one-wire device name designates a temperature sensor when it starts
/// with "28-", the one-wire family code of this probe.
pub open spec fn is_sensor_name(s: Seq<char>) -> bool {
    s.len() >= 3 && s[0] == '2' && s[1] == '8' && s[2] == '-'
}

/// The device names that designate temperature sensors, in order.
pub open spec fn sensor_names(names: Seq<Seq<char>>) -> Seq<Seq<char>>
    decreases names.len(),
{
    if names.len() == 0 {
        Seq::<Seq<char>>::empty()
    } else {
        sensor_names(names.drop_last()) + (if is_sensor_name(names.last()) {
            seq![names.last()]
        } else {
            Seq::<Seq<char>>::empty()
        })
    }
}

/// Failure to single out the one-wire temperature probe.
#[derive(Debug)]
pub enum DetectSensorError {
    /// The one-wire device directory could not be listed; the message names
    /// the cause.
    MissingDirectory { cause: String },
    /// More than one temperature sensor answers; all their names are given.
    SeveralSensorsDetected(Vec<String>),
    /// No temperature sensor answers.
    NoSensorDetected,
}

fn name_is_sensor(name: &String) -> (r: bool)
    ensures
        r == is_sensor_name(name@),
{
    let s = name.as_str();
    if s.unicode_len() >= 3 {
        s.get_char(0) == '2' && s.get_char(1) == '8' && s.get_char(2) == '-'
    } else {
        false
    }
}

/// Picks the single one-wire temperature sensor among the device directory
/// entries: exactly one name starting with "28-" is the probe; none, or
/// several, are each a distinct error.
pub fn detect_ds18b20(device_names: Vec<String>) -> (r: Result<String, DetectSensorError>)
    ensures
        ({
            let sn = sensor_names(device_names.deep_view());
            match r {
                Ok(s) => sn == seq![s@],
                Err(e) => match e {
                    DetectSensorError::NoSensorDetected => sn.len() == 0,
                    DetectSensorError::SeveralSensorsDetected(v) => v.deep_view() == sn && sn.len()
                        >= 2,
                    DetectSensorError::MissingDirectory { .. } => false,
                },
            }
        }),
{
    let mut found: Vec<String> = Vec::new();
    let n = device_names.len();
    let mut i: usize = 0;
    while i < n
        invariant
            n == device_names@.len(),
            0 <= i <= n,
            found.deep_view() == sensor_names(device_names.deep_view().take(i as int)),
        decreases n - i,
    {
        proof {
            let pre = device_names.deep_view().take(i as int);
            let cur = device_names.deep_view().take(i + 1 as int);
            assert(cur.drop_last() =~= pre);
            assert(cur.last() == device_names.deep_view()[i as int]);
        }
        if name_is_sensor(&device_names[i]) {
            found.push(device_names[i].clone());
            proof {
                assert(found.deep_view() =~= sensor_names(
                    device_names.deep_view().take(i + 1 as int),
                ));
            }
        } else {
            proof {
                assert(found.deep_view() =~= sensor_names(
                    device_names.deep_view().take(i + 1 as int),
                ));
            }
        }
        i += 1;
    }
    proof {
        assert(device_names.deep_view().take(n as int) =~= device_names.deep_view());
    }
    if found.len() == 0 {
        Err(DetectSensorError::NoSensorDetected)
    } else if found.len() == 1 {
        let s = match found.pop() {
            Some(s) => s,
            None => {
                proof {
                    assert(false);
                }
                String::new()
            },
        };
        proof {
            assert(sensor_names(device_names.deep_view()) =~= seq![s@]);
        }
        Ok(s)
    } else {
        Err(DetectSensorError::SeveralSensorsDetected(found))
    }
}

/// The runtime state of the one-wire temperature probe.
pub struct Ds18b20 {
    pub serial_number: String,
    pub temperature_series: Option<String>,
}

impl Ds18b20 {
    /// Builds the probe state: an explicitly configured serial number wins;
    /// otherwise the single sensor detected among `device_names` is used.
    pub fn new(config: Ds18b20Config, device_names: Vec<String>) -> (r: Result<
        Ds18b20,
        DetectSensorError,
    >)
        ensures
            ({
                let sn = sensor_names(device_names.deep_view());
                match config.serial_number {
                    Some(serial) => r matches Ok(d) && d.serial_number == serial
                        && d.temperature_series == config.temperature_series,
                    None => match r {
                        Ok(d) => sn == seq![d.serial_number@] && d.temperature_series
                            == config.temperature_series,
                        Err(e) => match e {
                            DetectSensorError::NoSensorDetected => sn.len() == 0,
                            DetectSensorError::SeveralSensorsDetected(v) => v.deep_view() == sn
                                && sn.len() >= 2,
                            DetectSensorError::MissingDirectory { .. } => false,
                        },
                    },
                }
            }),
    {
        let serial = match config.serial_number {
            Some(serial) => serial,
            None => {
                match detect_ds18b20(device_names) {
                    Ok(serial) => serial,
                    Err(e) => {
                        return Err(e);
                    },
                }
            },
        };
        Ok(Ds18b20 { serial_number: serial, temperature_series: config.temperature_series })
    }

    /// The sysfs file this probe's temperature is read from.
    pub fn temperature_path(&self) -> (r: String)
        ensures
            r@ == "/sys/bus/w1/devices/"@ + self.serial_number@ + "/temperature"@,
    {
        let mut p: String = "/sys/bus/w1/devices/".to_owned();
        p.append(self.serial_number.as_str());
        p.append("/temperature");
        p
    }

    /// The series this probe declares.
    pub fn series(&self) -> (r: Vec<String>)
        ensures
            r.deep_view() == opt_series(self.temperature_series),
    {
        let mut out: Vec<String> = Vec::new();
        if let Some(s) = &self.temperature_series {
            out.push(s.clone());
        }
        proof {
            assert(out.deep_view() =~= opt_series(self.temperature_series));
        }
        out
    }
}

} // verus!
