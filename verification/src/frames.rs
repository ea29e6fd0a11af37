//! Frames as they come from a receiver: hex text, and what a decoder reads in
//! the bytes.

use vstd::prelude::*;
#[allow(unused_imports)]
use crate::traffic::hex_value;
#[allow(unused_imports)]
use vstd::utf8::encode_utf8;

verus! {

/// The error of `hex::decode`, passed on unread.
#[verifier::external_type_specification]
#[verifier::external_body]
pub struct ExFromHexError(hex::FromHexError);

/// The bytes that a hexadecimal text spells: two digits of either case for
/// each.
pub open spec fn hex_bytes(text: Seq<u8>) -> Option<Seq<u8>> {
    if text.len() % 2 == 0 && forall|i: int|
        0 <= i < text.len() ==> hex_value(#[trigger] text[i]) is Some {
        Some(
            Seq::new(
                text.len() / 2,
                |i: int|
                    (16 * hex_value(text[2 * i])->0 + hex_value(text[2 * i + 1])->0) as u8,
            ),
        )
    } else {
        None
    }
}

/// `hex::decode`: the bytes of a text of hexadecimal digits of either case,
/// two for each byte, and an error for every other text.
#[verifier::external_body]
fn decode_hex(text: &str) -> (r: Result<Vec<u8>, hex::FromHexError>)
    ensures
        match r {
            Ok(b) => hex_bytes(encode_utf8(text@)) == Some(b@),
            Err(_) => hex_bytes(encode_utf8(text@)) is None,
        },
{
    hex::decode(text)
}

/// The bytes of a frame given as text.
pub open spec fn bytes_of(text: Seq<char>) -> Option<Seq<u8>> {
    hex_bytes(encode_utf8(text))
}

/// The bytes of a frame, where its text is hexadecimal.
pub fn frame_bytes(text: &str) -> (r: Option<Vec<u8>>)
    ensures
        match r {
            Some(b) => bytes_of(text@) == Some(b@),
            None => bytes_of(text@) is None,
        },
{
    match decode_hex(text) {
        Ok(b) => Some(b),
        Err(_) => None,
    }
}

/// A frame with downlink format 17: its top five bits say so.
pub open spec fn is_df17(b: Seq<u8>) -> bool {
    b.len() > 0 && b[0] / 8 == 17
}

/// Whether a frame has downlink format 17.
pub fn has_df17(b: &Vec<u8>) -> (r: bool)
    ensures
        r == is_df17(b@),
{
    b.len() > 0 && b[0] / 8 == 17
}

/// What the addresses of aircraft are below: they have 24 bits.
pub const ADDRESS_END: u32 = 0x100_0000;

/// An address, where it has 24 bits.
pub open spec fn narrow(icao: u32) -> Option<u32> {
    if icao < ADDRESS_END {
        Some(icao)
    } else {
        None
    }
}

fn find_narrow(icao: u32) -> (r: Option<u32>)
    ensures
        r == narrow(icao),
{
    if icao < ADDRESS_END {
        Some(icao)
    } else {
        None
    }
}

/// An airborne position frame.
#[derive(Clone, Copy, PartialEq, Eq, Debug, Structural)]
pub struct Airborne {
    pub icao: u32,
    /// Which half of a position pair it is.
    pub odd: bool,
    pub alt_ft: Option<i32>,
}

/// What a decoder finds in a frame, by downlink format. The content is
/// missing where the frame does not hold together.
#[derive(Clone, Copy, PartialEq, Eq, Debug)]
pub enum Frame {
    /// Format 17: the address of an airborne position.
    Position(Option<u32>),
    /// Format 4: an address, and an altitude in feet where it is known.
    Altitude(Option<(u32, Option<i32>)>),
    /// Format 11: an address.
    AllCall(Option<u32>),
    /// Any other format.
    Other,
}

impl Frame {
    /// The address that a frame is grouped under, where it is used at all.
    /// Position frames are used only where `mlat_adsb` is set, and none whose
    /// address is wider than addresses are.
    pub open spec fn address(self, mlat_adsb: bool) -> Option<u32> {
        match self {
            Frame::Position(Some(icao)) => if mlat_adsb {
                narrow(icao)
            } else {
                None
            },
            Frame::Altitude(Some((icao, _))) => narrow(icao),
            Frame::AllCall(Some(icao)) => narrow(icao),
            _ => None,
        }
    }

    /// The altitude report in the frame.
    pub open spec fn report(self) -> Option<(u32, i32)> {
        match self {
            Frame::Altitude(Some((icao, Some(alt)))) => Some((icao, alt)),
            _ => None,
        }
    }

    /// The address that a frame is grouped under.
    pub fn used_address(&self, mlat_adsb: bool) -> (r: Option<u32>)
        ensures
            r == self.address(mlat_adsb),
    {
        match *self {
            Frame::Position(Some(icao)) => if mlat_adsb {
                find_narrow(icao)
            } else {
                None
            },
            Frame::Altitude(Some((icao, _))) => find_narrow(icao),
            Frame::AllCall(Some(icao)) => find_narrow(icao),
            _ => None,
        }
    }

    /// The altitude report in the frame.
    pub fn altitude(&self) -> (r: Option<(u32, i32)>)
        ensures
            r == self.report(),
    {
        match *self {
            Frame::Altitude(Some((icao, Some(alt)))) => Some((icao, alt)),
            _ => None,
        }
    }
}

/// The two halves of a sync pair: one aircraft, with an address that aircraft
/// can have, the even frame first.
pub open spec fn paired(even: Option<Airborne>, odd: Option<Airborne>) -> bool {
    even is Some && odd is Some && even->0.icao == odd->0.icao && !even->0.odd && odd->0.odd
        && even->0.icao < ADDRESS_END
}

/// Whether two frames are the halves of a sync pair.
pub fn is_pair(even: &Option<Airborne>, odd: &Option<Airborne>) -> (r: bool)
    ensures
        r == paired(*even, *odd),
{
    match (even, odd) {
        (Some(e), Some(o)) => e.icao == o.icao && !e.odd && o.odd && e.icao < ADDRESS_END,
        _ => false,
    }
}

} // verus!
