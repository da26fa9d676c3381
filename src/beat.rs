use vstd::prelude::*;

verus! {

/// A liveness signal: device `device` was seen at `timestamp` (seconds since the
/// Unix epoch, UTC). `id` is assigned by the store and grows with each insert.
#[derive(Clone, Copy, Debug, PartialEq, Eq, Structural)]
pub struct Beat {
    pub id: i64,
    pub device: i64,
    pub timestamp: i64,
}

impl Beat {
    /// The instant of the beat.
    pub fn date(&self) -> (r: i64)
        ensures
            r == self.timestamp,
    {
        self.timestamp
    }

    /// The instant of the beat in seconds since the Unix epoch.
    pub fn unix_timestamp(&self) -> (r: i64)
        ensures
            r == self.timestamp,
    {
        self.timestamp
    }
}

} // verus!
