//! Feature-track maintenance for a sparse visual-odometry pipeline.
//!
//! An external matcher hands in, once per video frame, one correspondence
//! record per feature detected in that frame, each optionally pointing back
//! to a feature of the previous frame. The [`track::Tracker`] keeps a bounded,
//! newest-first buffer of those frames; [`track::Tracker::get_tracked`]
//! rebuilds, for every feature of the newest frame, its position history
//! backward through the buffer by following the back-links, and returns the
//! aligned trajectories as an independent snapshot.

pub mod feature;
pub mod track;
pub mod utils;
