//! One immutable measurement fact.
use vstd::prelude::*;

verus! {

/// A sample: one value measured for one series at one instant.
///
/// The value is the bit pattern of an IEEE-754 double; the recorder core
/// never interprets it, it only moves it between the sensor edge and the
/// store. The series the sample belongs to is carried alongside the record
/// by every store operation.
#[derive(Debug, Clone, Copy, PartialEq, Eq, Structural)]
pub struct Record {
    /// Unix timestamp of the measurement, in whole seconds.
    pub timestamp: u64,
    /// Bit pattern of the measured value (an IEEE-754 double).
    pub value_bits: u64,
}

} // verus!
