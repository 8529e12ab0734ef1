//! Reader handles for the supported dataset flavours.
//!
//! The readers' actual decoding and file traversal is I/O and lives with the
//! surrounding program, outside this crate; the handles here only name which
//! dataset flavour that program drives.

use vstd::prelude::*;

verus! {

/// Handle for the inertial data of a TUM-style dataset.
pub struct TumDatasetImuReader {}

/// Handle for the ground-truth poses of a TUM-style dataset.
pub struct TumDatasetPoseReader {}

/// Handle for the image sequence of a TUM-style dataset.
pub struct TumDatasetImageReader {}

/// The full set of reader handles for a TUM-style dataset.
pub fn get_tum_dateset_readers() -> (TumDatasetImuReader, TumDatasetPoseReader, TumDatasetImageReader) {
    (TumDatasetImuReader {  }, TumDatasetPoseReader {  }, TumDatasetImageReader {  })
}

} // verus!
