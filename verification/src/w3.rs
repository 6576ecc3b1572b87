//! The module-archive walker.
//!
//! A decompressed archive starts with the "W3" tag, a module count, and a
//! flat directory of 16-byte records: an eight-byte padded name, the
//! module's file offset (absolute within the outer container, so
//! relative offsets subtract the sub-header offset), and its header size.
//! Each module is a segmented executable; they are loaded back to back
//! into the virtual address space from 0xC0000000 up, each at the next
//! free address the previous load returned.

use crate::bytes::{le16, le32};
use crate::le::{spec_load_le, load_le};
use crate::memory::MemoryArena;
use crate::paging::PageTable;
use crate::LoaderError;
use vstd::prelude::*;

verus! {

/// Modules `k` onward of the directory loaded in order at the running
/// virtual address: the effect on the page table and arena, and the next
/// free virtual address after the last module. A directory record whose
/// bounds or offsets leave the archive is fatal, with everything already
/// loaded kept as it stands.
pub open spec fn spec_w3_entries(
    input: Seq<u8>,
    header_offset: int,
    k: int,
    n: int,
    vcursor: int,
    ar_base: int,
    pt: Map<int, Seq<u32>>,
    mem: Seq<u8>,
) -> (Map<int, Seq<u32>>, Seq<u8>, Result<int, LoaderError>)
    decreases n - k,
{
    if k >= n {
        (pt, mem, Ok(vcursor))
    } else {
        if 16 + 16 * k + 16 > input.len() {
            (pt, mem, Err(LoaderError::Truncated))
        } else {
            let file_off = le32(input, 16 + 16 * k + 8);
            let header_size = le32(input, 16 + 16 * k + 12);
            if file_off < header_offset {
                (pt, mem, Err(LoaderError::Truncated))
            } else if file_off - header_offset > input.len() {
                (pt, mem, Err(LoaderError::Truncated))
            } else {
                let image = input.subrange(file_off - header_offset, input.len() as int);
                let loaded = spec_load_le(image, header_size, vcursor, ar_base, pt, mem);
                if loaded.2 is Err {
                    (loaded.0, loaded.1, Err(loaded.2->Err_0))
                } else {
                    spec_w3_entries(
                        input,
                        header_offset,
                        k + 1,
                        n,
                        loaded.2->Ok_0,
                        ar_base,
                        loaded.0,
                        loaded.1,
                    )
                }
            }
        }
    }
}

/// What walking the archive does: the tag "W3" (bytes 0x57 0x33) is
/// demanded first, then the module count at offset 4, then every module is
/// loaded in directory order from virtual address 0xC0000000 up.
pub open spec fn spec_w3_load(
    input: Seq<u8>,
    header_offset: int,
    ar_base: int,
    pt: Map<int, Seq<u32>>,
    mem: Seq<u8>,
) -> (Map<int, Seq<u32>>, Seq<u8>, Result<int, LoaderError>) {
    if input.len() < 2 {
        (pt, mem, Err(LoaderError::Truncated))
    } else if !(input[0] == 0x57 && input[1] == 0x33) {
        (pt, mem, Err(LoaderError::BadContainerSignature))
    } else if input.len() < 6 {
        (pt, mem, Err(LoaderError::Truncated))
    } else {
        spec_w3_entries(
            input,
            header_offset,
            0,
            le16(input, 4),
            0xC000_0000,
            ar_base,
            pt,
            mem,
        )
    }
}

/// Walk the archive directory and load every module it names, each at the
/// next free virtual address after the one before, starting at 0xC0000000.
/// Returns the next free virtual address after the last module.
#[verifier::rlimit(100)]
pub fn w3_load_vxds(
    input: Vec<u8>,
    header_offset: usize,
    arena: &mut MemoryArena,
    page_table: &mut PageTable,
) -> (r: Result<u32, LoaderError>)
    requires
        old(arena).wf(),
        old(page_table).wf(),
    ensures
        final(arena).wf(),
        final(page_table).wf(),
        final(arena).spec_base() == old(arena).spec_base(),
        ({
            let stepped = spec_w3_load(
                input@,
                header_offset as int,
                old(arena).spec_base(),
                old(page_table)@,
                old(arena)@,
            );
            &&& final(page_table)@ == stepped.0
            &&& final(arena)@ == stepped.1
            &&& (match stepped.2 {
                Ok(v) => r is Ok && r->Ok_0 == v,
                Err(e) => r is Err && r->Err_0 == e,
            })
        }),
{
    let ghost pt0 = page_table@;
    let ghost mem0 = arena@;
    let ghost ar_base = arena.spec_base();
    if input.len() < 2 {
        return Err(LoaderError::Truncated);
    }
    if !(input[0] == 0x57 && input[1] == 0x33) {
        return Err(LoaderError::BadContainerSignature);
    }
    let vxd_count = match crate::bytes::read_le16(input.as_slice(), 4) {
        Ok(v) => v as usize,
        Err(_) => return Err(LoaderError::Truncated),
    };
    let mut vcursor: u32 = 0xC000_0000;
    let mut index: usize = 0;
    while index < vxd_count
        invariant
            arena.wf(),
            page_table.wf(),
            arena.spec_base() == old(arena).spec_base(),
            ar_base == old(arena).spec_base(),
            pt0 == old(page_table)@,
            mem0 == old(arena)@,
            input@.len() <= usize::MAX,
            input@.len() >= 6,
            input@[0] == 0x57,
            input@[1] == 0x33,
            vxd_count == le16(input@, 4),
            index <= vxd_count,
            spec_w3_entries(
                input@,
                header_offset as int,
                index as int,
                vxd_count as int,
                vcursor as int,
                ar_base,
                page_table@,
                arena@,
            ) == spec_w3_entries(
                input@,
                header_offset as int,
                0,
                vxd_count as int,
                0xC000_0000,
                ar_base,
                pt0,
                mem0,
            ),
        decreases vxd_count - index,
    {
        if input.len() < 32 || index > (input.len() - 32) / 16 {
            proof {
                if input@.len() >= 32 {
                    let q = (input@.len() - 32) / 16int;
                    assert(input@.len() - 32 < 16 * (q + 1));
                    assert(index >= q + 1);
                    assert(16 * index >= 16 * (q + 1));
                }
                assert(16 + 16 * index + 16 > input@.len());
            }
            return Err(LoaderError::Truncated);
        }
        proof {
            let q = (input@.len() - 32) / 16int;
            assert(16 * q <= input@.len() - 32);
            assert(16 * index <= 16 * q);
        }
        let file_off = match crate::bytes::read_le32(input.as_slice(), 16 + 16 * index + 8) {
            Ok(v) => v,
            Err(_) => return Err(LoaderError::Truncated),
        };
        let header_size = match crate::bytes::read_le32(input.as_slice(), 16 + 16 * index + 12) {
            Ok(v) => v,
            Err(_) => return Err(LoaderError::Truncated),
        };
        if (file_off as usize) < header_offset {
            return Err(LoaderError::Truncated);
        }
        let off = file_off as usize - header_offset;
        if off > input.len() {
            return Err(LoaderError::Truncated);
        }
        let image = vstd::slice::slice_subrange(input.as_slice(), off, input.len());
        let next = match load_le(image, header_size as usize, vcursor, arena, page_table) {
            Ok(v) => v,
            Err(e) => return Err(e),
        };
        vcursor = next;
        index += 1;
    }
    Ok(vcursor)
}

} // verus!
