//! Boot-stage library for a legacy 32-bit kernel: decompresses the kernel
//! container, unpacks its module archive, loads each segmented executable
//! into freshly allocated pages, and builds the two-level page table that
//! maps every loaded page.

pub mod bytes;
pub mod le;
pub mod memory;
pub mod paging;
pub mod w3;
pub mod w4;

use vstd::prelude::*;

verus! {

/// Why a boot input was refused. Every malformation detected while
/// decompressing or loading is fatal to the whole boot attempt: the caller
/// gets one of these and must not run anything that was partially loaded.
#[derive(Clone, Copy, PartialEq, Eq, Structural, Debug)]
pub enum LoaderError {
    /// A read fell outside its input or table region.
    Truncated,
    /// The decompressor met a copy token with a count of zero.
    InvalidCount,
    /// The decompressor met a back-reference reaching before the output start.
    InvalidDepth,
    /// The container carried neither of the two recognized tags.
    BadContainerSignature,
    /// The executable did not start with the expected two-character tag.
    BadExecutableSignature,
    /// A page-map entry carried a type outside the recognized set.
    BadPageType,
    /// A fixup record carried an unrecognized source-type/target-flag pair.
    BadFixup,
    /// A fixup named an object or a patch site outside what was loaded.
    BadFixupTarget,
    /// An object table entry was inconsistent with its own page map.
    BadObject,
    /// An address computation left the 32-bit space.
    OutOfMemory,
}

} // verus!
