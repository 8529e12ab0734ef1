//! The correspondence records that an external feature matcher produces.
//!
//! The matcher itself (descriptor extraction, nearest-neighbour search) is an
//! outside collaborator; this module only fixes the shape of what it hands
//! the tracker, in plain values the verifier can reason about.

use vstd::prelude::*;

verus! {

/// Reserved `prev_index` value: no correspondence in the previous frame.
pub const NO_MATCH: u32 = u32::MAX;

/// A `match_degree` of this value stands for full confidence (the real
/// confidence 1.0, held in fixed point as millionths).
pub const MATCH_DEGREE_FULL: u32 = 1_000_000;

/// A position in the recentred viewport coordinate system.
///
/// Each coordinate is carried as the raw bit pattern of the matcher's 64-bit
/// floating-point value. The tracker stores, copies and returns positions and
/// never interprets the coordinates, so the bit patterns pass through
/// unchanged; callers that compute with coordinates convert at the boundary.
#[derive(Clone, Copy, Debug, PartialEq, Eq, Structural)]
pub struct VpPosition {
    pub x_bits: u64,
    pub y_bits: u64,
}

/// One correspondence record for a feature of the current frame.
///
/// `prev_index` names the matching feature in the previous frame's record
/// list, or [`NO_MATCH`]. `match_degree` is the matcher's confidence in that
/// link, in fixed-point millionths of 1.0; a degree of zero means the link is
/// not to be trusted, whatever `prev_index` holds.
#[derive(Clone, Copy, Debug, PartialEq, Eq, Structural)]
pub struct MatchedFeature {
    pub prev_index: u32,
    pub position: VpPosition,
    pub match_degree: u32,
}

impl Default for MatchedFeature {
    /// An unmatched record at the viewport origin.
    fn default() -> (r: Self)
        ensures
            r.prev_index == 0,
            r.position == (VpPosition { x_bits: 0, y_bits: 0 }),
            r.match_degree == 0,
    {
        MatchedFeature { prev_index: 0, position: VpPosition { x_bits: 0, y_bits: 0 }, match_degree: 0 }
    }
}

} // verus!
