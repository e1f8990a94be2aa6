use vstd::prelude::*;

verus! {

/// One blood-pressure measurement.
///
/// `timestamp` counts seconds since the Unix epoch, in UTC; the pressures
/// are in millimetres of mercury and the pulse in beats per minute.
#[derive(Clone, Copy, Debug, PartialEq, Eq, Structural)]
pub struct Reading {
    pub timestamp: i64,
    pub systolic: u32,
    pub diastolic: u32,
    pub pulse: u32,
}

/// How two readings compare in time: the other fields play no part.
pub open spec fn time_order(a: Reading, b: Reading) -> core::cmp::Ordering {
    if a.timestamp < b.timestamp {
        core::cmp::Ordering::Less
    } else if a.timestamp == b.timestamp {
        core::cmp::Ordering::Equal
    } else {
        core::cmp::Ordering::Greater
    }
}

impl Reading {
    pub fn new(timestamp: i64, systolic: u32, diastolic: u32, pulse: u32) -> (r: Reading)
        ensures
            r.timestamp == timestamp,
            r.systolic == systolic,
            r.diastolic == diastolic,
            r.pulse == pulse,
    {
        Reading { timestamp, systolic, diastolic, pulse }
    }

    /// Orders two readings by their timestamps alone; readings taken in the
    /// same second compare equal whatever their values.
    pub fn compare_by_time(&self, other: &Reading) -> (r: core::cmp::Ordering)
        ensures
            r == time_order(*self, *other),
    {
        if self.timestamp < other.timestamp {
            core::cmp::Ordering::Less
        } else if self.timestamp == other.timestamp {
            core::cmp::Ordering::Equal
        } else {
            core::cmp::Ordering::Greater
        }
    }
}

} // verus!
