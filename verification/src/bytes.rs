//! Bounds-checked little-endian field decoding over byte buffers.
//!
//! Every multi-byte field of the container and of the executable format is
//! decoded byte by byte at a computed offset; nothing relies on the host's
//! in-memory layout of the record it comes from.

use crate::LoaderError;
use vstd::prelude::*;

verus! {

/// The two-byte little-endian value at `off`.
pub open spec fn le16(s: Seq<u8>, off: int) -> int
    recommends
        0 <= off,
        off + 2 <= s.len(),
{
    s[off] as int + 0x100 * (s[off + 1] as int)
}

/// The four-byte little-endian value at `off`.
pub open spec fn le32(s: Seq<u8>, off: int) -> int
    recommends
        0 <= off,
        off + 4 <= s.len(),
{
    s[off] as int + 0x100 * (s[off + 1] as int) + 0x1_0000 * (s[off + 2] as int) + 0x100_0000 * (
    s[off + 3] as int)
}

/// Read the byte at `off`, refusing a read past the end.
pub fn read_byte(s: &[u8], off: usize) -> (r: Result<u8, LoaderError>)
    ensures
        off < s@.len() ==> r is Ok && r->Ok_0 == s@[off as int],
        off >= s@.len() ==> r == Err::<u8, LoaderError>(LoaderError::Truncated),
{
    if off >= s.len() {
        return Err(LoaderError::Truncated);
    }
    Ok(s[off])
}

/// Read the two-byte little-endian field at `off`, refusing a read past the
/// end.
pub fn read_le16(s: &[u8], off: usize) -> (r: Result<u16, LoaderError>)
    ensures
        off + 2 <= s@.len() ==> r is Ok && r->Ok_0 == le16(s@, off as int),
        off + 2 > s@.len() ==> r == Err::<u16, LoaderError>(LoaderError::Truncated),
{
    if s.len() < 2 || off > s.len() - 2 {
        return Err(LoaderError::Truncated);
    }
    let b0 = s[off];
    let b1 = s[off + 1];
    Ok(b0 as u16 + 0x100 * (b1 as u16))
}

/// Read the four-byte little-endian field at `off`, refusing a read past the
/// end.
pub fn read_le32(s: &[u8], off: usize) -> (r: Result<u32, LoaderError>)
    ensures
        off + 4 <= s@.len() ==> r is Ok && r->Ok_0 == le32(s@, off as int),
        off + 4 > s@.len() ==> r == Err::<u32, LoaderError>(LoaderError::Truncated),
{
    if s.len() < 4 || off > s.len() - 4 {
        return Err(LoaderError::Truncated);
    }
    let b0 = s[off];
    let b1 = s[off + 1];
    let b2 = s[off + 2];
    let b3 = s[off + 3];
    Ok(b0 as u32 + 0x100 * (b1 as u32) + 0x1_0000 * (b2 as u32) + 0x100_0000 * (b3 as u32))
}

} // verus!
