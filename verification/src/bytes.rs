//! Little-endian and big-endian integer decoding over byte buffers.

use vstd::prelude::*;

verus! {

/// The 16-bit little-endian integer stored at index `i` of `s`.
pub open spec fn le16(s: Seq<u8>, i: int) -> int {
    s[i] + 256 * s[i + 1]
}

/// The 32-bit little-endian integer stored at index `i` of `s`.
pub open spec fn le32(s: Seq<u8>, i: int) -> int {
    s[i] + 256 * s[i + 1] + 65536 * s[i + 2] + 16777216 * s[i + 3]
}

/// The 24-bit big-endian integer stored at index `i` of `s`.
pub open spec fn be24(s: Seq<u8>, i: int) -> int {
    65536 * s[i] + 256 * s[i + 1] + s[i + 2]
}

/// Reads the 16-bit little-endian integer at `i`.
pub fn read_u16_le(data: &Vec<u8>, i: usize) -> (r: u16)
    requires
        i + 2 <= data@.len(),
    ensures
        r == le16(data@, i as int),
{
    let _n: usize = data.len();
    data[i] as u16 + 256 * (data[i + 1] as u16)
}

/// Reads the 32-bit little-endian integer at `i`.
pub fn read_u32_le(data: &Vec<u8>, i: usize) -> (r: u32)
    requires
        i + 4 <= data@.len(),
    ensures
        r == le32(data@, i as int),
{
    let _n: usize = data.len();
    data[i] as u32 + 256 * (data[i + 1] as u32) + 65536 * (data[i + 2] as u32) + 16777216 * (
    data[i + 3] as u32)
}

/// Reads the 24-bit big-endian integer at `i`.
pub fn read_u24_be(data: &Vec<u8>, i: usize) -> (r: u32)
    requires
        i + 3 <= data@.len(),
    ensures
        r == be24(data@, i as int),
{
    let _n: usize = data.len();
    65536 * (data[i] as u32) + 256 * (data[i + 1] as u32) + data[i + 2] as u32
}

} // verus!
