//! Flag bit values used in [`crate::FaceInfo::flags`].

use vstd::prelude::*;

verus! {

/// Face is constant (a single color).
pub const CONSTANT: u8 = 1;

/// Obsolete flag (formerly "has edits").
pub const OBSOLETE: u8 = 2;

/// The face and all its neighbors are constant with the same color.
pub const NEIGHBORHOOD_CONSTANT: u8 = 4;

/// The face is a subface (for non-quad faces stored as quad subfaces).
pub const SUBFACE: u8 = 8;

} // verus!
