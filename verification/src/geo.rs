//! Numbers and positions that pass through the library unread.

use vstd::prelude::*;

verus! {

/// A real number by the 64 bits of its binary64 form. The library moves such
/// numbers and never computes with them.
#[derive(Clone, Copy, PartialEq, Eq, Debug, Structural)]
pub struct Real {
    pub bits: u64,
}

/// A geodetic position.
#[derive(Clone, Copy, PartialEq, Eq, Debug, Structural)]
pub struct Geodetic {
    pub lat_deg: Real,
    pub lon_deg: Real,
    pub alt_m: Real,
}

/// An earth-centred position in metres.
#[derive(Clone, Copy, PartialEq, Eq, Debug, Structural)]
pub struct Ecef {
    pub x: Real,
    pub y: Real,
    pub z: Real,
}

} // verus!
