//! Where a receiver appears on the public map.
//!
//! The true position is snapped to a grid and moved within its cell by an
//! offset that comes from a hash of the user name: the shown point survives
//! restarts and gives nothing away.

use vstd::prelude::*;
use crate::hash::hash_bytes;
#[allow(unused_imports)]
use crate::hash::hash_of;
#[allow(unused_imports)]
use vstd::utf8::encode_utf8;

verus! {

/// Steps that an offset can take within a cell.
pub const CELL_STEPS: u64 = 10_000;

/// The steps that a user's point lies into its cell, north and east; none
/// where the user wants privacy.
pub open spec fn offsets(user: Seq<char>, privacy: bool) -> Option<(u64, u64)> {
    let h = hash_of(encode_utf8(user));
    if privacy {
        None
    } else {
        Some((h % CELL_STEPS, (h / 0x10_0000) % CELL_STEPS))
    }
}

/// The steps that a user's point lies into its cell, north and east.
pub fn map_offsets(user: &str, privacy: bool) -> (r: Option<(u64, u64)>)
    ensures
        r == offsets(user@, privacy),
        r matches Some((north, east)) ==> north < CELL_STEPS && east < CELL_STEPS,
{
    if privacy {
        return None;
    }
    let h: u64 = hash_bytes(user.as_bytes());
    Some((h % CELL_STEPS, (h / 0x10_0000) % CELL_STEPS))
}


/// A point moves by the hash of its user's name: the same name gives the same
/// point, at most 9999 steps into its cell either way, and one who wants
/// privacy has none.
pub proof fn law_points_follow_names(user: Seq<char>, privacy: bool)
    ensures
        privacy ==> offsets(user, privacy) is None,
        !privacy ==> {
            let h = hash_of(encode_utf8(user));
            &&& offsets(user, privacy) == Some(((h % 10_000) as u64, ((h / 1_048_576) % 10_000) as u64))
        },
{
}

} // verus!
