//! The errors a geohash operation can return.

use vstd::prelude::*;

use crate::fix::Fix;

verus! {

/// Why a geohash operation failed. Every error is returned to the caller;
/// none is swallowed, and no operation returns a partial result.
#[derive(Clone, Copy, Debug, PartialEq, Eq, Structural)]
pub enum GeohashError {
    /// A symbol outside the base-32 alphabet was met, at construction or at
    /// decode time; carries the offending character.
    InvalidHashCharacter(char),
    /// Raw input whose symbol count differs from the hash's fixed length.
    InvalidLen,
    /// A coordinate outside longitude [-180, 180] or latitude [-90, 90] was
    /// given to the encoder, directly or as a derived neighbor; carries the
    /// offending (longitude, latitude) pair.
    InvalidCoordinateRange(Fix, Fix),
}

} // verus!
