//! Liveness tracking: devices send beats, and the gaps between consecutive beats
//! that reach an hour are kept as absences. The reconcilers keep the absences in
//! step with the beats as beats arrive, one at a time or in batches of past
//! instants, and a watermark keeps the longest gap seen.

pub mod absence;
pub mod beat;
pub mod device;
pub mod helpers;
pub mod reconcile;
pub mod watermark;
