//! Little-endian byte decoding through the byteorder crate.

use vstd::prelude::*;

use byteorder::{ByteOrder, LittleEndian};

verus! {

/// Relies on byteorder::LittleEndian::read_u32: combines the first four
/// bytes, least significant first.
#[verifier::external_body]
pub fn read_u32_le(data: &[u8]) -> (r: u32)
    requires
        data@.len() >= 4,
    ensures
        r as int == data@[0] + 0x100 * data@[1] + 0x1_0000 * data@[2] + 0x100_0000 * data@[3],
{
    LittleEndian::read_u32(data)
}

} // verus!
