use vstd::prelude::*;

verus! {

/// A registered device, identified to the service by its `token`.
/// `beat_count` counts the beats recorded for it and never goes down.
#[derive(Debug)]
pub struct Device {
    pub id: i64,
    pub name: String,
    pub token: String,
    pub beat_count: i64,
}

impl Device {
    /// Counts `by` more beats for this device.
    pub fn increase_beat_count(&mut self, by: i64)
        requires
            by >= 0,
            old(self).beat_count + by <= i64::MAX,
        ensures
            final(self).beat_count == old(self).beat_count + by,
            final(self).id == old(self).id,
            final(self).name == old(self).name,
            final(self).token == old(self).token,
    {
        self.beat_count = self.beat_count + by;
    }
}

} // verus!
