//! Big-endian integers as they appear on the wire.

use byteorder::{ByteOrder, NetworkEndian};
use vstd::prelude::*;

verus! {

/// The value of two bytes in network order.
pub open spec fn be16(b0: u8, b1: u8) -> int {
    b0 as int * 256 + b1 as int
}

/// The value of three bytes in network order.
pub open spec fn be24(b0: u8, b1: u8, b2: u8) -> int {
    b0 as int * 65536 + b1 as int * 256 + b2 as int
}

/// Decodes the first two bytes of `buf` with `byteorder`'s
/// `NetworkEndian::read_u16`, which is taken to yield their big-endian value.
/// The outside function panics on a shorter slice, which `requires` excludes.
#[verifier::external_body]
pub(crate) fn decode_u16(buf: &[u8]) -> (value: u16)
    requires
        buf@.len() >= 2,
    ensures
        value as int == be16(buf@[0], buf@[1]),
{
    NetworkEndian::read_u16(buf)
}

/// Decodes the first three bytes of `buf` with `byteorder`'s
/// `NetworkEndian::read_u24`, which is taken to yield their big-endian value.
/// The outside function panics on a shorter slice, which `requires` excludes.
#[verifier::external_body]
pub(crate) fn decode_u24(buf: &[u8]) -> (value: u32)
    requires
        buf@.len() >= 3,
    ensures
        value as int == be24(buf@[0], buf@[1], buf@[2]),
{
    NetworkEndian::read_u24(buf)
}

} // verus!
