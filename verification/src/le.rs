//! The segmented-executable loader and relocator.
//!
//! An executable of this format carries, behind a fixed header, an object
//! (segment) table, a shared object-page table naming each segment page,
//! a shared fixup-page table bounding each page's relocation records, and
//! the stream of those records. Loading copies each object's bytes into
//! freshly allocated physical pages, installs a writable, non-user mapping
//! for every page of every object, and patches every relocation into the
//! copied bytes. Any field the loader does not understand is fatal: a
//! misread executable must never be handed control.

use crate::bytes::{le16, le32};
use crate::memory::{le16_bytes, le32_bytes, splice, MemoryArena};
use crate::paging::{dir_index, entry_bits, table_index, table_insert, PageTable};
use crate::LoaderError;
use vstd::prelude::*;

verus! {

/// One object (segment) descriptor: the fields of its 24-byte object-table
/// record, each four bytes little-endian.
pub struct LEObject {
    /// Bytes the object occupies in memory, and bytes of it stored packed
    /// in the image.
    pub virtual_size: u32,
    /// The base relocation address the image declares; read, not enforced.
    pub reloc_base: u32,
    /// Execute/read/write/resource bits; read, not enforced.
    pub flags: u32,
    /// One-based index of the object's first entry in the shared
    /// object-page table.
    pub page_table_index: u32,
    /// How many consecutive page-table entries, and so pages, back it.
    pub page_table_entries: u32,
    /// The trailing name/reserved field, packed little-endian.
    pub reserved: u32,
}

/// The header fields a load needs, as offsets into the image.
pub struct LinearExecutable {
    /// The page size the header declares. It is read but a fixed 4096 is
    /// used for every allocation and address computation; a mismatch is
    /// not itself refused.
    pub page_size: usize,
    /// Offset of the object table.
    pub object_table_offset: usize,
    /// Number of object-table entries.
    pub object_table_entries: usize,
    /// Offset of the shared object-page table.
    pub object_page_table_offset: usize,
    /// Offset of the shared fixup-page table.
    pub fixup_page_table_offset: usize,
    /// Offset of the fixup record stream.
    pub fixup_record_table_offset: usize,
}

/// Every header field is a 32-bit value of the format.
pub open spec fn le_wf(le: LinearExecutable) -> bool {
    &&& le.page_size <= 0xFFFF_FFFF
    &&& le.object_table_offset <= 0xFFFF_FFFF
    &&& le.object_table_entries <= 0xFFFF_FFFF
    &&& le.object_page_table_offset <= 0xFFFF_FFFF
    &&& le.fixup_page_table_offset <= 0xFFFF_FFFF
    &&& le.fixup_record_table_offset <= 0xFFFF_FFFF
}

/// The parsed header, or the malformation met: the two signature bytes
/// "LE" (0x4C 0x45) are demanded before any other field is read, and the
/// fixed header area must be whole.
pub open spec fn spec_le_new(input: Seq<u8>) -> Result<LinearExecutable, LoaderError> {
    if input.len() < 2 {
        Err(LoaderError::Truncated)
    } else if !(input[0] == 0x4C && input[1] == 0x45) {
        Err(LoaderError::BadExecutableSignature)
    } else if input.len() < 0x70 {
        Err(LoaderError::Truncated)
    } else {
        Ok(
            LinearExecutable {
                page_size: le32(input, 0x28) as usize,
                object_table_offset: le32(input, 0x40) as usize,
                object_table_entries: le32(input, 0x44) as usize,
                object_page_table_offset: le32(input, 0x48) as usize,
                fixup_page_table_offset: le32(input, 0x68) as usize,
                fixup_record_table_offset: le32(input, 0x6C) as usize,
            },
        )
    }
}

/// The object-table entry `k`, decoded field by field.
pub open spec fn spec_object(image: Seq<u8>, le: LinearExecutable, k: int) -> LEObject {
    let off = le.object_table_offset + 24 * k;
    LEObject {
        virtual_size: le32(image, off) as u32,
        reloc_base: le32(image, off + 4) as u32,
        flags: le32(image, off + 8) as u32,
        page_table_index: le32(image, off + 12) as u32,
        page_table_entries: le32(image, off + 16) as u32,
        reserved: le32(image, off + 20) as u32,
    }
}

/// Whether the whole object table lies inside the image.
pub open spec fn objects_in_image(image: Seq<u8>, le: LinearExecutable) -> bool {
    le.object_table_offset + 24 * le.object_table_entries <= image.len()
}

/// The decoded object table.
pub open spec fn spec_objects(image: Seq<u8>, le: LinearExecutable) -> Seq<LEObject> {
    Seq::new(le.object_table_entries as nat, |k: int| spec_object(image, le, k))
}

/// Object `k`'s load address: `virtual_base` plus a page for every
/// page-table entry of every object before it. At `k` equal to the table
/// length this is the next free virtual address past all objects.
pub open spec fn spec_load_addrs(objs: Seq<LEObject>, vbase: int, k: int) -> int
    decreases k,
{
    if k <= 0 {
        vbase
    } else {
        spec_load_addrs(objs, vbase, k - 1) + 4096 * objs[k - 1].page_table_entries
    }
}

/// Whether every object's load address, and the next free address past the
/// last, fits the 32-bit space.
pub open spec fn addrs_fit(objs: Seq<LEObject>, vbase: int) -> bool {
    forall|k: int|
        0 <= k <= objs.len() ==> #[trigger] spec_load_addrs(objs, vbase, k) <= 0xFFFF_FFFF
}

/// Load addresses never decrease along the table.
pub proof fn lemma_load_addrs_mono(objs: Seq<LEObject>, vbase: int, k1: int, k2: int)
    requires
        0 <= k1 <= k2,
    ensures
        spec_load_addrs(objs, vbase, k1) <= spec_load_addrs(objs, vbase, k2),
    decreases k2 - k1,
{
    if k1 < k2 {
        lemma_load_addrs_mono(objs, vbase, k1, k2 - 1);
    }
}

/// Parse the fixed header.
impl LinearExecutable {
    pub fn new(input: &[u8]) -> (r: Result<Self, LoaderError>)
        ensures
            match spec_le_new(input@) {
                Ok(le) => r is Ok && r->Ok_0 == le && le_wf(le),
                Err(e) => r is Err && r->Err_0 == e,
            },
    {
        if input.len() < 2 {
            return Err(LoaderError::Truncated);
        }
        if !(input[0] == 0x4C && input[1] == 0x45) {
            return Err(LoaderError::BadExecutableSignature);
        }
        if input.len() < 0x70 {
            return Err(LoaderError::Truncated);
        }
        let page_size = match crate::bytes::read_le32(input, 0x28) {
            Ok(v) => v as usize,
            Err(e) => return Err(e),
        };
        let object_table_offset = match crate::bytes::read_le32(input, 0x40) {
            Ok(v) => v as usize,
            Err(e) => return Err(e),
        };
        let object_table_entries = match crate::bytes::read_le32(input, 0x44) {
            Ok(v) => v as usize,
            Err(e) => return Err(e),
        };
        let object_page_table_offset = match crate::bytes::read_le32(input, 0x48) {
            Ok(v) => v as usize,
            Err(e) => return Err(e),
        };
        let fixup_page_table_offset = match crate::bytes::read_le32(input, 0x68) {
            Ok(v) => v as usize,
            Err(e) => return Err(e),
        };
        let fixup_record_table_offset = match crate::bytes::read_le32(input, 0x6C) {
            Ok(v) => v as usize,
            Err(e) => return Err(e),
        };
        Ok(
            LinearExecutable {
                page_size,
                object_table_offset,
                object_table_entries,
                object_page_table_offset,
                fixup_page_table_offset,
                fixup_record_table_offset,
            },
        )
    }
}

/// Read the whole object table, refusing an image that cannot hold it.
fn read_objects(image: &[u8], le: &LinearExecutable) -> (r: Result<Vec<LEObject>, LoaderError>)
    requires
        le_wf(*le),
    ensures
        objects_in_image(image@, *le) ==> r is Ok && r->Ok_0@ == spec_objects(image@, *le),
        !objects_in_image(image@, *le) ==> r == Err::<Vec<LEObject>, LoaderError>(
            LoaderError::Truncated,
        ),
{
    let len = image.len();
    if le.object_table_offset > len || le.object_table_entries > (len - le.object_table_offset)
        / 24 {
        proof {
            if le.object_table_offset <= len {
                let q = (len - le.object_table_offset) / 24int;
                assert(24 * le.object_table_entries > 24 * q + 23 ==> le.object_table_offset + 24
                    * le.object_table_entries > len);
            }
        }
        return Err(LoaderError::Truncated);
    }
    proof {
        let q = (len - le.object_table_offset) / 24int;
        assert(24 * q <= len - le.object_table_offset);
        assert(24 * le.object_table_entries <= 24 * q);
    }
    let mut objs: Vec<LEObject> = Vec::new();
    let mut k: usize = 0;
    while k < le.object_table_entries
        invariant
            le_wf(*le),
            objects_in_image(image@, *le),
            image@.len() <= usize::MAX,
            k <= le.object_table_entries,
            objs@.len() == k,
            forall|j: int| 0 <= j < k ==> objs@[j] == spec_object(image@, *le, j),
        decreases le.object_table_entries - k,
    {
        proof {
            assert(24 * (k + 1) <= 24 * le.object_table_entries);
        }
        let off = le.object_table_offset + 24 * k;
        let virtual_size = match crate::bytes::read_le32(image, off) {
            Ok(v) => v,
            Err(_) => return Err(LoaderError::Truncated),
        };
        let reloc_base = match crate::bytes::read_le32(image, off + 4) {
            Ok(v) => v,
            Err(_) => return Err(LoaderError::Truncated),
        };
        let flags = match crate::bytes::read_le32(image, off + 8) {
            Ok(v) => v,
            Err(_) => return Err(LoaderError::Truncated),
        };
        let page_table_index = match crate::bytes::read_le32(image, off + 12) {
            Ok(v) => v,
            Err(_) => return Err(LoaderError::Truncated),
        };
        let page_table_entries = match crate::bytes::read_le32(image, off + 16) {
            Ok(v) => v,
            Err(_) => return Err(LoaderError::Truncated),
        };
        let reserved = match crate::bytes::read_le32(image, off + 20) {
            Ok(v) => v,
            Err(_) => return Err(LoaderError::Truncated),
        };
        objs.push(
            LEObject {
                virtual_size,
                reloc_base,
                flags,
                page_table_index,
                page_table_entries,
                reserved,
            },
        );
        k += 1;
    }
    proof {
        assert(objs@ =~= spec_objects(image@, *le));
    }
    Ok(objs)
}

/// Compute every object's load address, and the next free address past the
/// last; refuse a layout that leaves the 32-bit space.
fn compute_load_addrs(objs: &Vec<LEObject>, virtual_base: u32) -> (r: Result<
    Vec<u32>,
    LoaderError,
>)
    ensures
        addrs_fit(objs@, virtual_base as int) ==> r is Ok && r->Ok_0@.len() == objs@.len() + 1
            && (forall|k: int|
            0 <= k <= objs@.len() ==> r->Ok_0@[k] == spec_load_addrs(
                objs@,
                virtual_base as int,
                k,
            )),
        !addrs_fit(objs@, virtual_base as int) ==> r == Err::<Vec<u32>, LoaderError>(
            LoaderError::OutOfMemory,
        ),
{
    let mut addrs: Vec<u32> = Vec::new();
    let mut acc: u32 = virtual_base;
    addrs.push(acc);
    let mut k: usize = 0;
    while k < objs.len()
        invariant
            k <= objs@.len(),
            addrs@.len() == k + 1,
            forall|j: int|
                0 <= j <= k ==> addrs@[j] == spec_load_addrs(objs@, virtual_base as int, j),
            acc == spec_load_addrs(objs@, virtual_base as int, k as int),
        decreases objs@.len() - k,
    {
        let entries = objs[k].page_table_entries;
        if (acc as u64) + (entries as u64) * 4096 > 0xFFFF_FFFF {
            proof {
                lemma_load_addrs_mono(objs@, virtual_base as int, k + 1, objs@.len() as int);
            }
            return Err(LoaderError::OutOfMemory);
        }
        acc = acc + entries * 4096;
        addrs.push(acc);
        k += 1;
    }
    proof {
        assert forall|j: int| 0 <= j <= objs@.len() implies spec_load_addrs(
            objs@,
            virtual_base as int,
            j,
        ) <= 0xFFFF_FFFF by {
            lemma_load_addrs_mono(objs@, virtual_base as int, j, objs@.len() as int);
        }
    }
    Ok(addrs)
}


/// The decoded fields of one fixup record, and the cursor past it.
pub struct FixupSpec {
    /// Addressing mode and target width selector.
    pub source_type: u8,
    /// Field-width selector for the object number and target offset.
    pub target_flags: u8,
    /// One-based object-table index of the referenced object.
    pub target_object: int,
    /// Byte offset of the referenced location within that object.
    pub target_offset: int,
    /// Raw 16-bit source offsets; their sign is applied when patching.
    pub source_offsets: Seq<u16>,
    /// Cursor position just past the record.
    pub next: int,
}

/// The signed value of a raw 16-bit source offset.
pub open spec fn signed16(v: u16) -> int {
    if v >= 0x8000 {
        v - 0x1_0000
    } else {
        v as int
    }
}

/// The tail of a fixup record once its two header bytes are known: the
/// target object number (one byte, or two under flag 0x40), the target
/// offset (two bytes, or four under flag 0x10), then `trailing` further
/// source offsets when the record carries a list.
pub open spec fn spec_fixup_tail(
    s: Seq<u8>,
    st: u8,
    tf: u8,
    c: int,
    lead: Seq<u16>,
    trailing: int,
) -> Result<FixupSpec, LoaderError> {
    let ow: int = if tf & 0x40 == 0 {
        1
    } else {
        2
    };
    if c + ow > s.len() {
        Err(LoaderError::Truncated)
    } else {
        let obj: int = if tf & 0x40 == 0 {
            s[c] as int
        } else {
            le16(s, c)
        };
        let c1 = c + ow;
        let tw: int = if tf & 0x10 == 0 {
            2
        } else {
            4
        };
        if c1 + tw > s.len() {
            Err(LoaderError::Truncated)
        } else {
            let toff: int = if tf & 0x10 == 0 {
                le16(s, c1)
            } else {
                le32(s, c1)
            };
            let c2 = c1 + tw;
            if c2 + 2 * trailing > s.len() {
                Err(LoaderError::Truncated)
            } else {
                Ok(
                    FixupSpec {
                        source_type: st,
                        target_flags: tf,
                        target_object: obj,
                        target_offset: toff,
                        source_offsets: lead + Seq::new(
                            trailing as nat,
                            |t: int| le16(s, c2 + 2 * t) as u16,
                        ),
                        next: c2 + 2 * trailing,
                    },
                )
            }
        }
    }
}

/// One fixup record read at cursor `i` of a page's record region: two
/// header bytes, then one source offset (or, under flag 0x20, a count of
/// trailing source offsets), then the target fields.
pub open spec fn spec_fixup_record(s: Seq<u8>, i: int) -> Result<FixupSpec, LoaderError> {
    if i + 2 > s.len() {
        Err(LoaderError::Truncated)
    } else {
        let st = s[i];
        let tf = s[i + 1];
        if st & 0x20 == 0 {
            if i + 4 > s.len() {
                Err(LoaderError::Truncated)
            } else {
                spec_fixup_tail(s, st, tf, i + 4, seq![le16(s, i + 2) as u16], 0)
            }
        } else {
            if i + 3 > s.len() {
                Err(LoaderError::Truncated)
            } else {
                spec_fixup_tail(s, st, tf, i + 3, Seq::empty(), s[i + 2] as int)
            }
        }
    }
}

/// A record read whole always advances the cursor and stays in the region.
pub proof fn lemma_fixup_record_advances(s: Seq<u8>, i: int)
    requires
        0 <= i,
    ensures
        match spec_fixup_record(s, i) {
            Ok(fr) => i < fr.next <= s.len() && 0 <= fr.target_object < 0x1_0000 && 0
                <= fr.target_offset <= 0xFFFF_FFFF,
            Err(e) => true,
        },
{
}

/// One decoded fixup record, as parsed from the stream.
pub struct FixupRecord {
    /// Addressing mode and target width selector.
    pub source_type: u8,
    /// Field-width selector for the object number and target offset.
    pub target_flags: u8,
    /// One-based object-table index of the referenced object.
    pub target_object: u16,
    /// Byte offset of the referenced location within that object.
    pub target_offset: u32,
    /// Raw 16-bit source offsets; their sign is applied when patching.
    pub source_offsets: Vec<u16>,
}

/// Read one fixup record at `cursor`, returning it with the cursor past it.
pub fn parse_fixup_record(s: &[u8], cursor: usize) -> (r: Result<
    (FixupRecord, usize),
    LoaderError,
>)
    ensures
        match spec_fixup_record(s@, cursor as int) {
            Ok(fr) => r is Ok && r->Ok_0.0.source_type == fr.source_type && r->Ok_0.0.target_flags
                == fr.target_flags && r->Ok_0.0.target_object == fr.target_object
                && r->Ok_0.0.target_offset == fr.target_offset && r->Ok_0.0.source_offsets@
                == fr.source_offsets && r->Ok_0.1 == fr.next,
            Err(e) => r is Err && r->Err_0 == e,
        },
{
    // An exec length read ties the region's length to the index type.
    let slen = s.len();
    proof {
        assert(slen == s@.len());
    }
    let source_type = match crate::bytes::read_byte(s, cursor) {
        Ok(v) => v,
        Err(_) => return Err(LoaderError::Truncated),
    };
    let target_flags = match crate::bytes::read_byte(s, cursor + 1) {
        Ok(v) => v,
        Err(_) => return Err(LoaderError::Truncated),
    };
    let mut source_offsets: Vec<u16> = Vec::new();
    let mut c: usize;
    let trailing: usize;
    if source_type & 0x20 == 0 {
        let first = match crate::bytes::read_le16(s, cursor + 2) {
            Ok(v) => v,
            Err(_) => return Err(LoaderError::Truncated),
        };
        source_offsets.push(first);
        c = cursor + 4;
        trailing = 0;
    } else {
        let cnt = match crate::bytes::read_byte(s, cursor + 2) {
            Ok(v) => v,
            Err(_) => return Err(LoaderError::Truncated),
        };
        c = cursor + 3;
        trailing = cnt as usize;
    }
    let ghost lead = source_offsets@;
    let ghost c0 = c as int;
    let target_object: u16;
    if target_flags & 0x40 == 0 {
        target_object = match crate::bytes::read_byte(s, c) {
            Ok(v) => v as u16,
            Err(_) => return Err(LoaderError::Truncated),
        };
        c = c + 1;
    } else {
        target_object = match crate::bytes::read_le16(s, c) {
            Ok(v) => v,
            Err(_) => return Err(LoaderError::Truncated),
        };
        c = c + 2;
    }
    let target_offset: u32;
    if target_flags & 0x10 == 0 {
        target_offset = match crate::bytes::read_le16(s, c) {
            Ok(v) => v as u32,
            Err(_) => return Err(LoaderError::Truncated),
        };
        c = c + 2;
    } else {
        target_offset = match crate::bytes::read_le32(s, c) {
            Ok(v) => v,
            Err(_) => return Err(LoaderError::Truncated),
        };
        c = c + 4;
    }
    let ghost c2 = c as int;
    if trailing > (s.len() - c) / 2 {
        return Err(LoaderError::Truncated);
    }
    proof {
        let q = (s@.len() - c2) / 2int;
        assert(2 * q <= s@.len() - c2);
        assert(2 * trailing <= 2 * q);
    }
    let mut t: usize = 0;
    while t < trailing
        invariant
            c2 + 2 * trailing <= s@.len(),
            s@.len() <= usize::MAX,
            c == c2 + 2 * t,
            t <= trailing,
            source_offsets@.len() == lead.len() + t,
            source_offsets@ =~= lead + Seq::new(t as nat, |x: int| le16(s@, c2 + 2 * x) as u16),
        decreases trailing - t,
    {
        let v = match crate::bytes::read_le16(s, c) {
            Ok(v) => v,
            Err(_) => return Err(LoaderError::Truncated),
        };
        source_offsets.push(v);
        proof {
            assert(lead + Seq::new((t + 1) as nat, |x: int| le16(s@, c2 + 2 * x) as u16) =~= (lead
                + Seq::new(t as nat, |x: int| le16(s@, c2 + 2 * x) as u16)).push(
                le16(s@, c2 + 2 * t) as u16,
            ));
        }
        c = c + 2;
        t += 1;
    }
    proof {
        if trailing == 0 {
            assert(source_offsets@ =~= lead);
        }
        assert(source_offsets@ =~= lead + Seq::new(
            trailing as nat,
            |x: int| le16(s@, c2 + 2 * x) as u16,
        ));
    }
    Ok(
        (
            FixupRecord { source_type, target_flags, target_object, target_offset, source_offsets },
            c,
        ),
    )
}


/// The patches of one fixup record applied in the order its source offsets
/// stand: each writes the low 16 bits, or all 32, of `value` at the page's
/// offset plus the signed source offset, which must fall inside the
/// object's allocated region `[0, seg_size)`. On the first offset outside
/// it, patching stops with the bytes already patched kept.
pub open spec fn spec_apply_patches(
    mem: Seq<u8>,
    seg_off: int,
    seg_size: int,
    page_off: int,
    offs: Seq<u16>,
    t: int,
    value: int,
    wide: bool,
) -> (Seq<u8>, Result<(), LoaderError>)
    decreases offs.len() - t,
{
    if t >= offs.len() {
        (mem, Ok(()))
    } else {
        let rel = page_off + signed16(offs[t]);
        let w: int = if wide {
            4
        } else {
            2
        };
        if rel < 0 || rel + w > seg_size {
            (mem, Err(LoaderError::BadFixupTarget))
        } else {
            let mem1 = if wide {
                splice(mem, seg_off + rel, le32_bytes(value as u32))
            } else {
                splice(mem, seg_off + rel, le16_bytes((value % 0x1_0000) as u16))
            };
            spec_apply_patches(mem1, seg_off, seg_size, page_off, offs, t + 1, value, wide)
        }
    }
}

/// The fixup records of one page applied in stream order. Only three
/// source types are understood: 0x05 (16-bit offset), 0x07 (32-bit
/// offset), both patching the target object's load address plus the target
/// offset, and 0x08 (32-bit self-relative), patching the current object's
/// load address plus the target offset; and only internal references
/// (target flag bits 0x03 clear). Anything else is fatal, with the bytes
/// already patched kept.
pub open spec fn spec_fixup_stream(
    region: Seq<u8>,
    c: int,
    objs: Seq<LEObject>,
    vbase: int,
    k: int,
    page_off: int,
    seg_off: int,
    seg_size: int,
    mem: Seq<u8>,
) -> (Seq<u8>, Result<(), LoaderError>)
    decreases region.len() - c,
{
    if c >= region.len() {
        (mem, Ok(()))
    } else {
        match spec_fixup_record(region, c) {
            Err(e) => (mem, Err(e)),
            Ok(fr) => {
                if !(c < fr.next <= region.len()) {
                    // never reached: a record read whole advances the cursor
                    // (lemma_fixup_record_advances); the test keeps the
                    // recursion's measure decreasing on its face
                    (mem, Err(LoaderError::Truncated))
                } else {
                    let kind = fr.source_type & 0x0F;
                    if !(kind == 5 || kind == 7 || kind == 8) || fr.target_flags & 0x03 != 0 {
                        (mem, Err(LoaderError::BadFixup))
                    } else if !(1 <= fr.target_object && fr.target_object <= objs.len()) {
                        (mem, Err(LoaderError::BadFixupTarget))
                    } else {
                        let base = if kind == 8 {
                            spec_load_addrs(objs, vbase, k)
                        } else {
                            spec_load_addrs(objs, vbase, fr.target_object - 1)
                        };
                        let value = base + fr.target_offset;
                        if value > 0xFFFF_FFFF {
                            (mem, Err(LoaderError::OutOfMemory))
                        } else {
                            let applied = spec_apply_patches(
                                mem,
                                seg_off,
                                seg_size,
                                page_off,
                                fr.source_offsets,
                                0,
                                value,
                                kind != 5,
                            );
                            if applied.1 is Err {
                                applied
                            } else {
                                spec_fixup_stream(
                                    region,
                                    fr.next,
                                    objs,
                                    vbase,
                                    k,
                                    page_off,
                                    seg_off,
                                    seg_size,
                                    applied.0,
                                )
                            }
                        }
                    }
                }
            },
        }
    }
}

/// Apply the patches of one record.
fn apply_patches(
    arena: &mut MemoryArena,
    seg_off: usize,
    seg_size: u32,
    page_off: u32,
    offsets: &Vec<u16>,
    value: u32,
    wide: bool,
) -> (r: Result<(), LoaderError>)
    requires
        old(arena).wf(),
        seg_off + seg_size <= old(arena)@.len(),
    ensures
        final(arena).wf(),
        final(arena).spec_base() == old(arena).spec_base(),
        final(arena)@.len() == old(arena)@.len(),
        ({
            let applied = spec_apply_patches(
                old(arena)@,
                seg_off as int,
                seg_size as int,
                page_off as int,
                offsets@,
                0,
                value as int,
                wide,
            );
            &&& final(arena)@ == applied.0
            &&& (applied.1 is Ok ==> r is Ok)
            &&& (applied.1 is Err ==> r is Err && r->Err_0 == applied.1->Err_0)
        }),
{
    let ghost mem0 = arena@;
    let mut t: usize = 0;
    while t < offsets.len()
        invariant
            arena.wf(),
            arena.spec_base() == old(arena).spec_base(),
            arena@.len() == old(arena)@.len(),
            t <= offsets@.len(),
            seg_off + seg_size <= arena@.len(),
            spec_apply_patches(
                arena@,
                seg_off as int,
                seg_size as int,
                page_off as int,
                offsets@,
                t as int,
                value as int,
                wide,
            ) == spec_apply_patches(
                mem0,
                seg_off as int,
                seg_size as int,
                page_off as int,
                offsets@,
                0,
                value as int,
                wide,
            ),
            mem0 == old(arena)@,
        decreases offsets@.len() - t,
    {
        let off = offsets[t];
        let sv: i64 = if off >= 0x8000 {
            off as i64 - 0x1_0000
        } else {
            off as i64
        };
        let rel: i64 = page_off as i64 + sv;
        let w: i64 = if wide {
            4
        } else {
            2
        };
        if rel < 0 || rel + w > seg_size as i64 {
            return Err(LoaderError::BadFixupTarget);
        }
        proof {
            arena.lemma_wf_bounds();
        }
        let addr: u32 = arena.base_address() + seg_off as u32 + rel as u32;
        if wide {
            arena.write_u32(addr, value);
        } else {
            arena.write_u16(addr, (value % 0x1_0000) as u16);
        }
        t += 1;
    }
    Ok(())
}


/// The 24-bit page number of the page-map entry at `idx`: its first three
/// bytes, most significant first (this table is big-endian by format
/// convention, unlike the little-endian fixup-page table).
pub open spec fn spec_page_number(image: Seq<u8>, le: LinearExecutable, idx: int) -> int {
    let off = le.object_page_table_offset + 4 * idx;
    0x1_0000 * (image[off] as int) + 0x100 * (image[off + 1] as int) + image[off + 2] as int
}

/// The page type of the page-map entry at `idx`: its last byte. Types 0
/// (copy), 1 (iterated), 2 and 3 (zero-filled) and 4 (range marker) are
/// recognized; any other is fatal.
pub open spec fn spec_page_flags(image: Seq<u8>, le: LinearExecutable, idx: int) -> int {
    image[le.object_page_table_offset + 4 * idx + 3] as int
}

/// Pages `idx` onward of object `k` processed: for each page, decode its
/// page-map entry, refuse an unrecognized page type, install one
/// present/writable/non-user mapping from the running virtual address plus
/// the entry's page number times 4096 to the allocated page, and apply the
/// page's fixup records, located through the fixup-page table.
pub open spec fn spec_load_pages(
    image: Seq<u8>,
    le: LinearExecutable,
    objs: Seq<LEObject>,
    vbase: int,
    k: int,
    seg_pa: int,
    seg_off: int,
    idx: int,
    pt: Map<int, Seq<u32>>,
    mem: Seq<u8>,
) -> (Map<int, Seq<u32>>, Seq<u8>, Result<(), LoaderError>)
    decreases objs[k].page_table_entries - idx,
{
    let obj = objs[k];
    if idx >= obj.page_table_entries {
        (pt, mem, Ok(()))
    } else {
        let map_idx = obj.page_table_index - 1 + idx;
        if le.object_page_table_offset + 4 * map_idx + 4 > image.len() {
            (pt, mem, Err(LoaderError::Truncated))
        } else {
            let pnum = spec_page_number(image, le, map_idx);
            let pflags = spec_page_flags(image, le, map_idx);
            if pflags > 4 {
                (pt, mem, Err(LoaderError::BadPageType))
            } else {
                let va = spec_load_addrs(objs, vbase, k) + 4096 * pnum;
                if va > 0xFFFF_FFFF {
                    (pt, mem, Err(LoaderError::OutOfMemory))
                } else {
                    let pa = seg_pa + 4096 * idx;
                    let pt1 = table_insert(
                        pt,
                        dir_index(va as u32),
                        table_index(va as u32),
                        entry_bits(pa as u32, true, true, false),
                    );
                    if le.fixup_page_table_offset + 4 * map_idx + 8 > image.len() {
                        (pt1, mem, Err(LoaderError::Truncated))
                    } else {
                        let fstart = le32(image, le.fixup_page_table_offset + 4 * map_idx);
                        let flimit = le32(image, le.fixup_page_table_offset + 4 * (map_idx + 1));
                        if flimit < fstart {
                            (pt1, mem, Err(LoaderError::Truncated))
                        } else if le.fixup_record_table_offset + flimit > image.len() {
                            (pt1, mem, Err(LoaderError::Truncated))
                        } else {
                            let region = image.subrange(
                                le.fixup_record_table_offset + fstart,
                                le.fixup_record_table_offset + flimit,
                            );
                            let applied = spec_fixup_stream(
                                region,
                                0,
                                objs,
                                vbase,
                                k,
                                4096 * idx,
                                seg_off,
                                4096 * obj.page_table_entries,
                                mem,
                            );
                            if applied.1 is Err {
                                (pt1, applied.0, Err(applied.1->Err_0))
                            } else {
                                spec_load_pages(
                                    image,
                                    le,
                                    objs,
                                    vbase,
                                    k,
                                    seg_pa,
                                    seg_off,
                                    idx + 1,
                                    pt1,
                                    applied.0,
                                )
                            }
                        }
                    }
                }
            }
        }
    }
}

/// Apply one fixup-record region to the arena.
fn apply_fixup_stream(
    region: &[u8],
    Ghost(objs): Ghost<Seq<LEObject>>,
    Ghost(vbase): Ghost<int>,
    addrs: &Vec<u32>,
    k: usize,
    page_off: u32,
    seg_off: usize,
    seg_size: u32,
    arena: &mut MemoryArena,
) -> (r: Result<(), LoaderError>)
    requires
        old(arena).wf(),
        seg_off + seg_size <= old(arena)@.len(),
        k < objs.len(),
        addrs@.len() == objs.len() + 1,
        forall|j: int| 0 <= j <= objs.len() ==> addrs@[j] == spec_load_addrs(objs, vbase, j),
    ensures
        final(arena).wf(),
        final(arena).spec_base() == old(arena).spec_base(),
        final(arena)@.len() == old(arena)@.len(),
        ({
            let applied = spec_fixup_stream(
                region@,
                0,
                objs,
                vbase,
                k as int,
                page_off as int,
                seg_off as int,
                seg_size as int,
                old(arena)@,
            );
            &&& final(arena)@ == applied.0
            &&& (applied.1 is Ok ==> r is Ok)
            &&& (applied.1 is Err ==> r is Err && r->Err_0 == applied.1->Err_0)
        }),
{
    let ghost mem0 = arena@;
    // An exec length read ties the region's length to the index type.
    let rlen = region.len();
    proof {
        assert(rlen == region@.len());
    }
    let mut cursor: usize = 0;
    while cursor < region.len()
        invariant
            arena.wf(),
            arena.spec_base() == old(arena).spec_base(),
            arena@.len() == old(arena)@.len(),
            mem0 == old(arena)@,
            cursor <= region@.len(),
            region@.len() <= usize::MAX,
            seg_off + seg_size <= arena@.len(),
            k < objs.len(),
            addrs@.len() == objs.len() + 1,
            forall|j: int| 0 <= j <= objs.len() ==> addrs@[j] == spec_load_addrs(objs, vbase, j),
            spec_fixup_stream(
                region@,
                cursor as int,
                objs,
                vbase,
                k as int,
                page_off as int,
                seg_off as int,
                seg_size as int,
                arena@,
            ) == spec_fixup_stream(
                region@,
                0,
                objs,
                vbase,
                k as int,
                page_off as int,
                seg_off as int,
                seg_size as int,
                mem0,
            ),
        decreases region@.len() - cursor,
    {
        proof {
            lemma_fixup_record_advances(region@, cursor as int);
        }
        let parsed = match parse_fixup_record(region, cursor) {
            Ok(v) => v,
            Err(e) => return Err(e),
        };
        let rec = parsed.0;
        let next = parsed.1;
        let kind = rec.source_type & 0x0F;
        if !(kind == 5 || kind == 7 || kind == 8) || rec.target_flags & 0x03 != 0 {
            return Err(LoaderError::BadFixup);
        }
        let to = rec.target_object as usize;
        if !(1 <= to && to < addrs.len()) {
            return Err(LoaderError::BadFixupTarget);
        }
        let base: u32 = if kind == 8 {
            addrs[k]
        } else {
            addrs[to - 1]
        };
        let value64: u64 = base as u64 + rec.target_offset as u64;
        if value64 > 0xFFFF_FFFF {
            return Err(LoaderError::OutOfMemory);
        }
        let value = value64 as u32;
        match apply_patches(arena, seg_off, seg_size, page_off, &rec.source_offsets, value, kind
            != 5) {
            Ok(_) => {},
            Err(e) => return Err(e),
        }
        cursor = next;
    }
    Ok(())
}


/// Load every page of object `k`: decode its page-map entries, install its
/// mappings, and apply its per-page fixups.
fn load_pages(
    image: &[u8],
    le: &LinearExecutable,
    Ghost(objs): Ghost<Seq<LEObject>>,
    Ghost(vbase): Ghost<int>,
    addrs: &Vec<u32>,
    k: usize,
    obj: &LEObject,
    seg_pa: u32,
    seg_off: usize,
    seg_size: u32,
    arena: &mut MemoryArena,
    page_table: &mut PageTable,
) -> (r: Result<(), LoaderError>)
    requires
        le_wf(*le),
        old(arena).wf(),
        old(page_table).wf(),
        k < objs.len(),
        *obj == objs[k as int],
        obj.page_table_index >= 1,
        seg_size == 4096 * obj.page_table_entries,
        seg_off + seg_size <= old(arena)@.len(),
        seg_pa == old(arena).spec_base() + seg_off,
        addrs@.len() == objs.len() + 1,
        forall|j: int| 0 <= j <= objs.len() ==> addrs@[j] == spec_load_addrs(objs, vbase, j),
    ensures
        final(arena).wf(),
        final(page_table).wf(),
        final(arena).spec_base() == old(arena).spec_base(),
        final(arena)@.len() == old(arena)@.len(),
        ({
            let stepped = spec_load_pages(
                image@,
                *le,
                objs,
                vbase,
                k as int,
                seg_pa as int,
                seg_off as int,
                0,
                old(page_table)@,
                old(arena)@,
            );
            &&& final(page_table)@ == stepped.0
            &&& final(arena)@ == stepped.1
            &&& (stepped.2 is Ok ==> r is Ok)
            &&& (stepped.2 is Err ==> r is Err && r->Err_0 == stepped.2->Err_0)
        }),
{
    let ghost pt0 = page_table@;
    let ghost mem0 = arena@;
    // An exec length read ties the image's length to the index type.
    let ilen = image.len();
    proof {
        assert(ilen == image@.len());
    }
    let entries = obj.page_table_entries;
    let mut idx: u32 = 0;
    while idx < entries
        invariant
            le_wf(*le),
            arena.wf(),
            page_table.wf(),
            arena.spec_base() == old(arena).spec_base(),
            arena@.len() == old(arena)@.len(),
            mem0 == old(arena)@,
            pt0 == old(page_table)@,
            k < objs.len(),
            *obj == objs[k as int],
            obj.page_table_index >= 1,
            entries == obj.page_table_entries,
            idx <= entries,
            seg_size == 4096 * obj.page_table_entries,
            seg_off + seg_size <= arena@.len(),
            seg_pa == arena.spec_base() + seg_off,
            addrs@.len() == objs.len() + 1,
            forall|j: int| 0 <= j <= objs.len() ==> addrs@[j] == spec_load_addrs(objs, vbase, j),
            image@.len() <= usize::MAX,
            spec_load_pages(
                image@,
                *le,
                objs,
                vbase,
                k as int,
                seg_pa as int,
                seg_off as int,
                idx as int,
                page_table@,
                arena@,
            ) == spec_load_pages(
                image@,
                *le,
                objs,
                vbase,
                k as int,
                seg_pa as int,
                seg_off as int,
                0,
                pt0,
                mem0,
            ),
        decreases entries - idx,
    {
        let map_idx64: u64 = obj.page_table_index as u64 - 1 + idx as u64;
        let opt64: u64 = le.object_page_table_offset as u64;
        if opt64 + 4 * map_idx64 + 4 > image.len() as u64 {
            return Err(LoaderError::Truncated);
        }
        let poff = (opt64 + 4 * map_idx64) as usize;
        let b0 = image[poff];
        let b1 = image[poff + 1];
        let b2 = image[poff + 2];
        let b3 = image[poff + 3];
        let pnum: u32 = (b0 as u32) * 0x1_0000 + (b1 as u32) * 0x100 + b2 as u32;
        if b3 > 4 {
            return Err(LoaderError::BadPageType);
        }
        let va64: u64 = addrs[k] as u64 + 4096u64 * pnum as u64;
        if va64 > 0xFFFF_FFFF {
            return Err(LoaderError::OutOfMemory);
        }
        let va = va64 as u32;
        proof {
            arena.lemma_wf_bounds();
            assert(idx * 4096 + 4096 <= entries * 4096);
        }
        let pa: u32 = seg_pa + idx * 4096;
        page_table.map_address(pa, va, true, true, false);
        let fpt64: u64 = le.fixup_page_table_offset as u64;
        if fpt64 + 4 * map_idx64 + 8 > image.len() as u64 {
            return Err(LoaderError::Truncated);
        }
        let fstart = match crate::bytes::read_le32(image, (fpt64 + 4 * map_idx64) as usize) {
            Ok(v) => v,
            Err(_) => return Err(LoaderError::Truncated),
        };
        let flimit = match crate::bytes::read_le32(image, (fpt64 + 4 * map_idx64 + 4) as usize) {
            Ok(v) => v,
            Err(_) => return Err(LoaderError::Truncated),
        };
        if flimit < fstart {
            return Err(LoaderError::Truncated);
        }
        let frt64: u64 = le.fixup_record_table_offset as u64;
        if frt64 + flimit as u64 > image.len() as u64 {
            return Err(LoaderError::Truncated);
        }
        let region = vstd::slice::slice_subrange(
            image,
            (frt64 + fstart as u64) as usize,
            (frt64 + flimit as u64) as usize,
        );
        match apply_fixup_stream(
            region,
            Ghost(objs),
            Ghost(vbase),
            addrs,
            k,
            idx * 4096,
            seg_off,
            seg_size,
            arena,
        ) {
            Ok(_) => {},
            Err(e) => return Err(e),
        }
        idx += 1;
    }
    Ok(())
}


/// Objects `k` onward processed, the segment-data cursor standing at
/// `cursor`: allocate each object's pages, copy its packed bytes, then map
/// and fix up its pages; on success the next free virtual address past all
/// objects. On a fatal condition, everything already allocated, copied,
/// mapped and patched is kept as it stands.
pub open spec fn spec_load_objects(
    image: Seq<u8>,
    le: LinearExecutable,
    objs: Seq<LEObject>,
    vbase: int,
    k: int,
    cursor: int,
    ar_base: int,
    pt: Map<int, Seq<u32>>,
    mem: Seq<u8>,
) -> (Map<int, Seq<u32>>, Seq<u8>, Result<int, LoaderError>)
    decreases objs.len() - k,
{
    if k >= objs.len() {
        (pt, mem, Ok(spec_load_addrs(objs, vbase, objs.len() as int)))
    } else {
        let obj = objs[k];
        if ar_base + mem.len() + 4096 * obj.page_table_entries > 0xFFFF_FFFF {
            (pt, mem, Err(LoaderError::OutOfMemory))
        } else {
            let seg_pa = ar_base + mem.len();
            let seg_off = mem.len() as int;
            let mem1 = mem + Seq::new((4096 * obj.page_table_entries) as nat, |i: int| 0u8);
            if obj.virtual_size > 4096 * obj.page_table_entries {
                (pt, mem1, Err(LoaderError::BadObject))
            } else if cursor + obj.virtual_size > image.len() {
                (pt, mem1, Err(LoaderError::Truncated))
            } else {
                let mem2 = splice(mem1, seg_off, image.subrange(cursor, cursor + obj.virtual_size));
                if obj.page_table_index < 1 {
                    (pt, mem2, Err(LoaderError::BadObject))
                } else {
                    let stepped = spec_load_pages(
                        image,
                        le,
                        objs,
                        vbase,
                        k,
                        seg_pa,
                        seg_off,
                        0,
                        pt,
                        mem2,
                    );
                    if stepped.2 is Err {
                        (stepped.0, stepped.1, Err(stepped.2->Err_0))
                    } else {
                        spec_load_objects(
                            image,
                            le,
                            objs,
                            vbase,
                            k + 1,
                            cursor + obj.virtual_size,
                            ar_base,
                            stepped.0,
                            stepped.1,
                        )
                    }
                }
            }
        }
    }
}

/// The whole effect of one load call on the page table and the arena, and
/// the next free virtual address it returns on success: the object table is
/// read whole, every object's load address must fit the 32-bit space, and
/// the objects are processed in table order.
pub open spec fn spec_load(
    image: Seq<u8>,
    le: LinearExecutable,
    header_size: int,
    vbase: int,
    ar_base: int,
    pt: Map<int, Seq<u32>>,
    mem: Seq<u8>,
) -> (Map<int, Seq<u32>>, Seq<u8>, Result<int, LoaderError>) {
    if !objects_in_image(image, le) {
        (pt, mem, Err(LoaderError::Truncated))
    } else if !addrs_fit(spec_objects(image, le), vbase) {
        (pt, mem, Err(LoaderError::OutOfMemory))
    } else {
        spec_load_objects(
            image,
            le,
            spec_objects(image, le),
            vbase,
            0,
            header_size,
            ar_base,
            pt,
            mem,
        )
    }
}

/// Parsing and loading in one call, as the archive walker does per module.
pub open spec fn spec_load_le(
    image: Seq<u8>,
    header_size: int,
    vbase: int,
    ar_base: int,
    pt: Map<int, Seq<u32>>,
    mem: Seq<u8>,
) -> (Map<int, Seq<u32>>, Seq<u8>, Result<int, LoaderError>) {
    match spec_le_new(image) {
        Err(e) => (pt, mem, Err(e)),
        Ok(le) => spec_load(image, le, header_size, vbase, ar_base, pt, mem),
    }
}

impl LinearExecutable {
    /// Load every object of the executable: allocate its pages from the
    /// arena, copy its packed bytes from the image's segment-data cursor
    /// (which starts at `header_size`), install a present/writable/non-user
    /// mapping for every page, and patch every fixup record into the copied
    /// bytes. Returns the next free virtual address past all objects, for
    /// sequential placement of the next module.
    #[verifier::rlimit(60)]
    pub fn load(
        &self,
        image: &[u8],
        header_size: usize,
        virtual_base: u32,
        arena: &mut MemoryArena,
        page_table: &mut PageTable,
    ) -> (r: Result<u32, LoaderError>)
        requires
            le_wf(*self),
            old(arena).wf(),
            old(page_table).wf(),
        ensures
            final(arena).wf(),
            final(page_table).wf(),
            final(arena).spec_base() == old(arena).spec_base(),
            ({
                let stepped = spec_load(
                    image@,
                    *self,
                    header_size as int,
                    virtual_base as int,
                    old(arena).spec_base(),
                    old(page_table)@,
                    old(arena)@,
                );
                &&& final(page_table)@ == stepped.0
                &&& final(arena)@ == stepped.1
                &&& (match stepped.2 {
                    Ok(v) => r is Ok && r->Ok_0 == v,
                    Err(e) => r is Err && r->Err_0 == e,
                })
            }),
    {
        let ghost pt0 = page_table@;
        let ghost mem0 = arena@;
        let ghost ar_base = arena.spec_base();
        // An exec length read ties the image's length to the index type.
        let ilen = image.len();
        proof {
            assert(ilen == image@.len());
        }
        let objs = match read_objects(image, self) {
            Ok(v) => v,
            Err(e) => return Err(e),
        };
        let addrs = match compute_load_addrs(&objs, virtual_base) {
            Ok(v) => v,
            Err(e) => return Err(e),
        };
        let mut cursor: usize = header_size;
        let mut k: usize = 0;
        while k < objs.len()
            invariant
                le_wf(*self),
                arena.wf(),
                page_table.wf(),
                arena.spec_base() == old(arena).spec_base(),
                ar_base == old(arena).spec_base(),
                pt0 == old(page_table)@,
                mem0 == old(arena)@,
                objs@ == spec_objects(image@, *self),
                objects_in_image(image@, *self),
                addrs_fit(objs@, virtual_base as int),
                addrs@.len() == objs@.len() + 1,
                forall|j: int|
                    0 <= j <= objs@.len() ==> addrs@[j] == spec_load_addrs(
                        objs@,
                        virtual_base as int,
                        j,
                    ),
                k <= objs@.len(),
                image@.len() <= usize::MAX,
                spec_load_objects(
                    image@,
                    *self,
                    objs@,
                    virtual_base as int,
                    k as int,
                    cursor as int,
                    ar_base,
                    page_table@,
                    arena@,
                ) == spec_load_objects(
                    image@,
                    *self,
                    objs@,
                    virtual_base as int,
                    0,
                    header_size as int,
                    ar_base,
                    pt0,
                    mem0,
                ),
            decreases objs@.len() - k,
        {
            let entries = objs[k].page_table_entries;
            let seg_off = arena.size();
            let seg_pa = match arena.allocate_pages(entries as usize) {
                Ok(v) => v,
                Err(e) => return Err(e),
            };
            let seg_size: u32 = ((entries as u64) * 4096) as u32;
            let vsize = objs[k].virtual_size;
            if vsize > seg_size {
                return Err(LoaderError::BadObject);
            }
            if cursor > image.len() || (vsize as u64) > (image.len() - cursor) as u64 {
                return Err(LoaderError::Truncated);
            }
            arena.write_bytes(seg_pa, image, cursor, vsize as usize);
            if objs[k].page_table_index < 1 {
                return Err(LoaderError::BadObject);
            }
            match load_pages(
                image,
                self,
                Ghost(objs@),
                Ghost(virtual_base as int),
                &addrs,
                k,
                &objs[k],
                seg_pa,
                seg_off,
                seg_size,
                arena,
                page_table,
            ) {
                Ok(_) => {},
                Err(e) => return Err(e),
            }
            cursor = cursor + vsize as usize;
            k += 1;
        }
        Ok(addrs[objs.len()])
    }
}

/// Parse the header and load the executable in one call.
pub fn load_le(
    image: &[u8],
    header_size: usize,
    virtual_base: u32,
    arena: &mut MemoryArena,
    page_table: &mut PageTable,
) -> (r: Result<u32, LoaderError>)
    requires
        old(arena).wf(),
        old(page_table).wf(),
    ensures
        final(arena).wf(),
        final(page_table).wf(),
        final(arena).spec_base() == old(arena).spec_base(),
        ({
            let stepped = spec_load_le(
                image@,
                header_size as int,
                virtual_base as int,
                old(arena).spec_base(),
                old(page_table)@,
                old(arena)@,
            );
            &&& final(page_table)@ == stepped.0
            &&& final(arena)@ == stepped.1
            &&& (match stepped.2 {
                Ok(v) => r is Ok && r->Ok_0 == v,
                Err(e) => r is Err && r->Err_0 == e,
            })
        }),
{
    let le = match LinearExecutable::new(image) {
        Ok(v) => v,
        Err(e) => return Err(e),
    };
    le.load(image, header_size, virtual_base, arena, page_table)
}


/// Law: objects are placed sequentially: each object's load address is the
/// previous object's load address plus one 4096-byte page for each of the
/// previous object's page-table entries.
pub proof fn lemma_sequential_placement(objs: Seq<LEObject>, vbase: int, k: int)
    requires
        0 <= k < objs.len(),
    ensures
        spec_load_addrs(objs, vbase, k + 1) == spec_load_addrs(objs, vbase, k) + 4096 * objs[
            k
        ].page_table_entries,
{
}

} // verus!
