//! Plain configuration data for the recorder, its sensors and its series.
//!
//! These types carry only plain values; the driver layer that reads a
//! configuration file converts into them at the edge. Geographic coordinates
//! are carried as IEEE-754 double bit patterns, since the recorder core never
//! computes with them.
use vstd::prelude::*;

verus! {

/// Whole-process configuration.
pub struct Config {
    /// Sensors and series settings.
    pub recorder: Recorder,
    /// HTTP server settings.
    pub server: Server,
    /// Directory holding the rotated data segments.
    pub data_dir: String,
}

/// HTTP server settings.
pub struct Server {
    /// Port the server should listen to.
    pub port: u16,
    /// Host name of the server serving the frontend.
    pub allowed_origin: String,
}

/// Settings of the sampling scheduler: which sensors exist and which series
/// they feed.
pub struct Recorder {
    pub sensors: Vec<Sensor>,
    pub series: Vec<SeriesConfig>,
}

/// One configured sensor.
pub struct Sensor {
    pub id: String,
    pub config: SensorConfig,
}

/// The closed set of sensor variants.
pub enum SensorConfig {
    Ds18b20(Ds18b20Config),
    Bme280(Bme280Config),
    OpenWeatherMap(OpenWeatherMapConfig),
}

/// A one-wire temperature probe.
pub struct Ds18b20Config {
    /// Serial number of the sensor. Automatically detected if not configured.
    pub serial_number: Option<String>,
    pub temperature_series: Option<String>,
}

/// An I2C environmental probe.
pub struct Bme280Config {
    /// Path to the i2c device.
    pub path: String,
    pub address: Bme280Address,
    pub temperature_series: Option<String>,
    pub humidity_series: Option<String>,
    pub pressure_series: Option<String>,
}

impl Bme280Config {
    /// The i2c device path used when none is configured.
    pub fn default_path() -> (r: String)
        ensures
            r@ == "/dev/i2c-1"@,
    {
        "/dev/i2c-1".to_owned()
    }
}

/// A remote weather API queried over HTTP.
pub struct OpenWeatherMapConfig {
    pub api_key: String,
    /// Latitude, as the bit pattern of an IEEE-754 double.
    pub lat_bits: u64,
    /// Longitude, as the bit pattern of an IEEE-754 double.
    pub lon_bits: u64,
    pub temperature_series: Option<String>,
}

/// The two addresses a BME280 can answer on.
#[derive(Debug, Clone, Copy, PartialEq, Eq, Structural)]
pub enum Bme280Address {
    SdoGnd,
    SdoVddio,
}

impl Default for Bme280Address {
    fn default() -> (r: Self)
        ensures
            r == Bme280Address::SdoGnd,
    {
        Bme280Address::SdoGnd
    }
}

/// One configured measurement series.
pub struct SeriesConfig {
    pub id: String,
    pub name: String,
    pub category: String,
    pub unit: String,
    pub color: String,
    /// Interval between two measures, in the form "1min", "30sec", "1h", etc.
    pub sampling_interval: String,
}

impl SeriesConfig {
    /// A field-for-field copy of this entry.
    pub fn duplicate(&self) -> (r: Self)
        ensures
            r == *self,
    {
        Self {
            id: self.id.clone(),
            name: self.name.clone(),
            category: self.category.clone(),
            unit: self.unit.clone(),
            color: self.color.clone(),
            sampling_interval: self.sampling_interval.clone(),
        }
    }
}

} // verus!
