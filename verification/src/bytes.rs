//! Little-endian integers in byte sequences.

use vstd::prelude::*;

verus! {

/// The little-endian `u16` stored at `s[at..at + 2]`.
pub open spec fn le16(s: Seq<u8>, at: int) -> int {
    s[at] as int + 256 * (s[at + 1] as int)
}

/// The little-endian `u32` stored at `s[at..at + 4]`.
pub open spec fn le32(s: Seq<u8>, at: int) -> int {
    le16(s, at) + 65536 * le16(s, at + 2)
}

/// The little-endian `u64` stored at `s[at..at + 8]`.
pub open spec fn le64(s: Seq<u8>, at: int) -> int {
    le32(s, at) + 0x1_0000_0000 * le32(s, at + 4)
}

/// Reads the little-endian `u16` at `data[at..at + 2]`.
pub fn read_le16(data: &[u8], at: usize) -> (r: u16)
    requires
        at + 2 <= data.len(),
    ensures
        r as int == le16(data@, at as int),
{
    let lo = data[at] as u16;
    let hi = data[at + 1] as u16;
    lo + hi * 256
}

/// Reads the little-endian `u32` at `data[at..at + 4]`.
pub fn read_le32(data: &[u8], at: usize) -> (r: u32)
    requires
        at + 4 <= data.len(),
    ensures
        r as int == le32(data@, at as int),
{
    let lo = read_le16(data, at) as u32;
    let hi = read_le16(data, at + 2) as u32;
    lo + hi * 65536
}

} // verus!
