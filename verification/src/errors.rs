//! Error taxonomy of the recorder core.
//!
//! Configuration errors are fatal at startup; store errors are per-operation
//! and never stop the sampling loop. A series with no samples yet is not an
//! error at all: `Store::latest` reports it as a distinct `None` outcome.
use vstd::prelude::*;

verus! {

/// A fatal configuration error: the scheduler cannot be built from the
/// offending configuration.
#[derive(Debug)]
pub enum ConfigError {
    /// The same series id appears twice in the configured series set.
    DuplicateSeries { series: String },
    /// A series' sampling interval string does not parse as a duration.
    InvalidInterval { series: String },
    /// A sensor claims a series that is not in the configured series set.
    UnknownSeries { series: String, sensor: String },
    /// Two sensor claims name the same series.
    SeriesClaimedTwice { series: String, first_sensor: String, second_sensor: String },
    /// A configured series is claimed by no sensor.
    OrphanSeries { series: String },
}

impl ConfigError {
    /// A human-readable description, naming the series and sensors involved.
    pub fn message(&self) -> (r: String)
        ensures
            *self matches ConfigError::DuplicateSeries { series } ==> r@ == "the \""@ + series@
                + "\" series is defined twice"@,
            *self matches ConfigError::InvalidInterval { series } ==> r@
                == "the sampling interval of the \""@ + series@ + "\" series cannot be parsed"@,
            *self matches ConfigError::UnknownSeries { series, sensor } ==> r@ == "the \""@
                + series@ + "\" series associated to \""@ + sensor@
                + "\" sensor does not exist"@,
            *self matches ConfigError::SeriesClaimedTwice { series, first_sensor, second_sensor }
                ==> r@ == "the \""@ + series@ + "\" series is associated to \""@ + first_sensor@
                + "\" and \""@ + second_sensor@ + "\" sensors"@,
            *self matches ConfigError::OrphanSeries { series } ==> r@ == "the \""@ + series@
                + "\" series is not associated to any sensors"@,
    {
        let mut m = String::new();
        match self {
            ConfigError::DuplicateSeries { series } => {
                m.append("the \"");
                m.append(series.as_str());
                m.append("\" series is defined twice");
                proof {
                    assert(m@ =~= "the \""@ + series@ + "\" series is defined twice"@);
                }
            },
            ConfigError::InvalidInterval { series } => {
                m.append("the sampling interval of the \"");
                m.append(series.as_str());
                m.append("\" series cannot be parsed");
                proof {
                    assert(m@ =~= "the sampling interval of the \""@ + series@
                        + "\" series cannot be parsed"@);
                }
            },
            ConfigError::UnknownSeries { series, sensor } => {
                m.append("the \"");
                m.append(series.as_str());
                m.append("\" series associated to \"");
                m.append(sensor.as_str());
                m.append("\" sensor does not exist");
                proof {
                    assert(m@ =~= "the \""@ + series@ + "\" series associated to \""@ + sensor@
                        + "\" sensor does not exist"@);
                }
            },
            ConfigError::SeriesClaimedTwice { series, first_sensor, second_sensor } => {
                m.append("the \"");
                m.append(series.as_str());
                m.append("\" series is associated to \"");
                m.append(first_sensor.as_str());
                m.append("\" and \"");
                m.append(second_sensor.as_str());
                m.append("\" sensors");
                proof {
                    assert(m@ =~= "the \""@ + series@ + "\" series is associated to \""@
                        + first_sensor@ + "\" and \""@ + second_sensor@ + "\" sensors"@);
                }
            },
            ConfigError::OrphanSeries { series } => {
                m.append("the \"");
                m.append(series.as_str());
                m.append("\" series is not associated to any sensors");
                proof {
                    assert(m@ =~= "the \""@ + series@
                        + "\" series is not associated to any sensors"@);
                }
            },
        }
        m
    }
}

/// A recoverable store error: the operation is refused, the store is left
/// unchanged, and the caller may continue.
#[derive(Debug, Clone, Copy, PartialEq, Eq, Structural)]
pub enum StoreError {
    /// A record with the same (series, timestamp) key is already stored;
    /// duplicate appends are rejected, never silently overwritten.
    DuplicateRecord,
    /// A range query whose lower bound exceeds its upper bound.
    InvalidRange,
}

impl StoreError {
    /// A human-readable description.
    pub fn message(&self) -> (r: String)
        ensures
            *self == StoreError::DuplicateRecord ==> r@
                == "a record with this timestamp already exists for this series"@,
            *self == StoreError::InvalidRange ==> r@ == "'from' cannot be greater than 'to'"@,
    {
        let mut m = String::new();
        match self {
            StoreError::DuplicateRecord => {
                m.append("a record with this timestamp already exists for this series");
                proof {
                    assert(m@ =~= "a record with this timestamp already exists for this series"@);
                }
            },
            StoreError::InvalidRange => {
                m.append("'from' cannot be greater than 'to'");
                proof {
                    assert(m@ =~= "'from' cannot be greater than 'to'"@);
                }
            },
        }
        m
    }
}

} // verus!
