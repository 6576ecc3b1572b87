use vxdboot::le::{load_le, LinearExecutable};
use vxdboot::memory::MemoryArena;
use vxdboot::paging::PageTable;
use vxdboot::w3::w3_load_vxds;
use vxdboot::LoaderError;

struct ObjSpec {
    vsize: u32,
    entries: u32,
    data: Vec<u8>,
    page_numbers: Vec<u32>,
    page_types: Vec<u8>,
    fixups_per_page: Vec<Vec<u8>>,
}

impl ObjSpec {
    fn plain(data: &[u8], entries: u32) -> ObjSpec {
        let n = entries as usize;
        ObjSpec {
            vsize: data.len() as u32,
            entries,
            data: data.to_vec(),
            page_numbers: (0..entries).collect(),
            page_types: vec![0; n],
            fixups_per_page: vec![Vec::new(); n],
        }
    }
}

fn put_le32(buf: &mut [u8], off: usize, v: u32) {
    buf[off] = v as u8;
    buf[off + 1] = (v >> 8) as u8;
    buf[off + 2] = (v >> 16) as u8;
    buf[off + 3] = (v >> 24) as u8;
}

/// Lay out a synthetic executable: the fixed header, the object table,
/// the shared object-page table (big-endian entries), the shared
/// fixup-page table, the fixup record stream, then the packed segment
/// data. Returns the image and the header size (where segment data
/// begins).
fn build_le(objs: &[ObjSpec]) -> (Vec<u8>, usize) {
    let n = objs.len();
    let total_pages: usize = objs.iter().map(|o| o.entries as usize).sum();
    let object_table_offset = 0x70usize;
    let opt_offset = object_table_offset + 24 * n;
    let fpt_offset = opt_offset + 4 * total_pages;
    let frt_offset = fpt_offset + 4 * (total_pages + 1);
    let records: Vec<Vec<u8>> =
        objs.iter().flat_map(|o| o.fixups_per_page.iter().cloned()).collect();
    let records_len: usize = records.iter().map(|r| r.len()).sum();
    let header_size = frt_offset + records_len;

    let mut image = vec![0u8; frt_offset];
    image[0] = b'L';
    image[1] = b'E';
    put_le32(&mut image, 0x28, 4096);
    put_le32(&mut image, 0x40, object_table_offset as u32);
    put_le32(&mut image, 0x44, n as u32);
    put_le32(&mut image, 0x48, opt_offset as u32);
    put_le32(&mut image, 0x68, fpt_offset as u32);
    put_le32(&mut image, 0x6C, frt_offset as u32);

    let mut pti: u32 = 1;
    for (k, o) in objs.iter().enumerate() {
        let off = object_table_offset + 24 * k;
        put_le32(&mut image, off, o.vsize);
        put_le32(&mut image, off + 4, 0);
        put_le32(&mut image, off + 8, 0);
        put_le32(&mut image, off + 12, pti);
        put_le32(&mut image, off + 16, o.entries);
        put_le32(&mut image, off + 20, 0);
        pti += o.entries;
    }

    let mut map_idx: usize = 0;
    for o in objs {
        for i in 0..o.entries as usize {
            let num = o.page_numbers[i];
            let ty = o.page_types[i];
            let off = opt_offset + 4 * map_idx;
            image[off] = (num >> 16) as u8;
            image[off + 1] = (num >> 8) as u8;
            image[off + 2] = num as u8;
            image[off + 3] = ty;
            map_idx += 1;
        }
    }

    let mut cum: u32 = 0;
    for (i, r) in records.iter().enumerate() {
        put_le32(&mut image, fpt_offset + 4 * i, cum);
        cum += r.len() as u32;
    }
    put_le32(&mut image, fpt_offset + 4 * total_pages, cum);
    for r in &records {
        image.extend_from_slice(r);
    }
    assert_eq!(image.len(), header_size);

    for o in objs {
        image.extend_from_slice(&o.data);
    }
    (image, header_size)
}

#[test]
fn two_object_placement() {
    let a = ObjSpec::plain(b"AAAAA", 2);
    let b = ObjSpec::plain(b"BBB", 3);
    let (image, header_size) = build_le(&[a, b]);
    let mut arena = MemoryArena::new(0x0010_0000);
    let mut pt = PageTable::new();
    let next = load_le(&image, header_size, 0x1000, &mut arena, &mut pt).unwrap();
    assert_eq!(next, 0x1000 + 5 * 4096);
    // The second object's first page sits two pages past the base.
    let mut e = pt.lookup(0x1000 + 2 * 4096).unwrap();
    assert!(e.present());
    assert!(e.read_write());
    assert!(!e.user());
    assert_eq!(e.address(), 0x0010_0000 + 2 * 4096);
    let mut first = pt.lookup(0x1000).unwrap();
    assert_eq!(first.address(), 0x0010_0000);
}

#[test]
fn segment_bytes_copied_packed() {
    let a = ObjSpec::plain(b"AAAAA", 1);
    let b = ObjSpec::plain(b"BBB", 1);
    let (image, header_size) = build_le(&[a, b]);
    let mut arena = MemoryArena::new(0x0010_0000);
    let mut pt = PageTable::new();
    load_le(&image, header_size, 0x1000, &mut arena, &mut pt).unwrap();
    for i in 0..5u32 {
        assert_eq!(arena.byte_at(0x0010_0000 + i), b'A');
    }
    // The allocation is zero-filled past the copied bytes.
    assert_eq!(arena.byte_at(0x0010_0000 + 5), 0);
    // The second object starts on its own page, one page later.
    for i in 0..3u32 {
        assert_eq!(arena.byte_at(0x0010_0000 + 4096 + i), b'B');
    }
    assert_eq!(arena.byte_at(0x0010_0000 + 4096 + 3), 0);
}

#[test]
fn fixup_32bit_offset_patches_target_address() {
    let mut a = ObjSpec::plain(b"AAAAAAAA", 1);
    // 32-bit offset fixup: patch object 2's address plus 0x10 at offset 0.
    a.fixups_per_page[0] = vec![0x07, 0x00, 0x00, 0x00, 0x02, 0x10, 0x00];
    let b = ObjSpec::plain(b"BBB", 1);
    let (image, header_size) = build_le(&[a, b]);
    let mut arena = MemoryArena::new(0x0010_0000);
    let mut pt = PageTable::new();
    load_le(&image, header_size, 0x1000, &mut arena, &mut pt).unwrap();
    // Object 2 loads at 0x1000 + 4096 = 0x2000; the value is 0x2010.
    assert_eq!(arena.byte_at(0x0010_0000), 0x10);
    assert_eq!(arena.byte_at(0x0010_0001), 0x20);
    assert_eq!(arena.byte_at(0x0010_0002), 0x00);
    assert_eq!(arena.byte_at(0x0010_0003), 0x00);
    // The bytes after the patch keep their copied value.
    assert_eq!(arena.byte_at(0x0010_0004), b'A');
}

#[test]
fn fixup_16bit_offset_patches_two_bytes() {
    let mut a = ObjSpec::plain(b"AAAAAAAA", 1);
    // 16-bit offset fixup at source offset 2, referencing object 1 + 4.
    a.fixups_per_page[0] = vec![0x05, 0x00, 0x02, 0x00, 0x01, 0x04, 0x00];
    let (image, header_size) = build_le(&[a]);
    let mut arena = MemoryArena::new(0x0010_0000);
    let mut pt = PageTable::new();
    load_le(&image, header_size, 0x1000, &mut arena, &mut pt).unwrap();
    // Object 1 loads at 0x1000; the value 0x1004 lands in two bytes.
    assert_eq!(arena.byte_at(0x0010_0002), 0x04);
    assert_eq!(arena.byte_at(0x0010_0003), 0x10);
    assert_eq!(arena.byte_at(0x0010_0004), b'A');
}

#[test]
fn fixup_self_relative_uses_own_base() {
    let mut a = ObjSpec::plain(b"AAAAAAAA", 1);
    let b = ObjSpec::plain(b"BBB", 1);
    // Self-relative 32-bit fixup: the patch value comes from the current
    // object's load address, not the named target's.
    a.fixups_per_page[0] = vec![0x08, 0x00, 0x00, 0x00, 0x02, 0x20, 0x00];
    let (image, header_size) = build_le(&[a, b]);
    let mut arena = MemoryArena::new(0x0010_0000);
    let mut pt = PageTable::new();
    load_le(&image, header_size, 0x1000, &mut arena, &mut pt).unwrap();
    // Current object loads at 0x1000; the value is 0x1020.
    assert_eq!(arena.byte_at(0x0010_0000), 0x20);
    assert_eq!(arena.byte_at(0x0010_0001), 0x10);
}

#[test]
fn fixup_source_list_patches_every_site() {
    let mut a = ObjSpec::plain(b"AAAAAAAAAAAA", 1);
    // List flag: two source offsets, 0 and 6, both patched with object 1's
    // address.
    a.fixups_per_page[0] = vec![0x27, 0x00, 0x02, 0x01, 0x00, 0x00, 0x00, 0x00, 0x06, 0x00];
    let (image, header_size) = build_le(&[a]);
    let mut arena = MemoryArena::new(0x0010_0000);
    let mut pt = PageTable::new();
    load_le(&image, header_size, 0x1000, &mut arena, &mut pt).unwrap();
    assert_eq!(arena.byte_at(0x0010_0000), 0x00);
    assert_eq!(arena.byte_at(0x0010_0001), 0x10);
    assert_eq!(arena.byte_at(0x0010_0006), 0x00);
    assert_eq!(arena.byte_at(0x0010_0007), 0x10);
    assert_eq!(arena.byte_at(0x0010_0004), b'A');
}

#[test]
fn fixup_wide_fields_parse() {
    let mut a = ObjSpec::plain(b"AAAAAAAA", 1);
    // 16-bit object number (flag 0x40) and 32-bit target offset (flag
    // 0x10) together.
    a.fixups_per_page[0] = vec![0x07, 0x50, 0x00, 0x00, 0x01, 0x00, 0x34, 0x12, 0x00, 0x00];
    let (image, header_size) = build_le(&[a]);
    let mut arena = MemoryArena::new(0x0010_0000);
    let mut pt = PageTable::new();
    load_le(&image, header_size, 0x1000, &mut arena, &mut pt).unwrap();
    // Value = 0x1000 + 0x1234 = 0x2234.
    assert_eq!(arena.byte_at(0x0010_0000), 0x34);
    assert_eq!(arena.byte_at(0x0010_0001), 0x22);
}

#[test]
fn bad_signature_refused_before_header_fields() {
    // Shorter than any header, yet refused for its signature, which is
    // read first.
    assert_eq!(LinearExecutable::new(&[b'X', b'E', 0]).err(), Some(
        LoaderError::BadExecutableSignature,
    ));
    assert_eq!(LinearExecutable::new(&[b'L']).err(), Some(LoaderError::Truncated));
    // A correct signature on a truncated header is a truncation.
    assert_eq!(LinearExecutable::new(&[b'L', b'E', 0, 0]).err(), Some(LoaderError::Truncated));
}

#[test]
fn bad_page_type_aborts_keeping_copied_bytes() {
    let a = ObjSpec::plain(b"AAAAA", 1);
    let mut b = ObjSpec::plain(b"BBB", 1);
    b.page_types[0] = 7;
    let (image, header_size) = build_le(&[a, b]);
    let mut arena = MemoryArena::new(0x0010_0000);
    let mut pt = PageTable::new();
    let r = load_le(&image, header_size, 0x1000, &mut arena, &mut pt);
    assert_eq!(r, Err(LoaderError::BadPageType));
    // The first object's bytes and mapping survive.
    assert_eq!(arena.byte_at(0x0010_0000), b'A');
    let mut e = pt.lookup(0x1000).unwrap();
    assert!(e.present());
    // The second object's bytes were copied before its page walk stopped,
    // but no mapping was installed for it.
    assert_eq!(arena.byte_at(0x0010_1000), b'B');
    let e2 = pt.lookup(0x2000).unwrap();
    assert!(!e2.present());
}

#[test]
fn unknown_fixup_kind_is_fatal() {
    let mut a = ObjSpec::plain(b"AAAAAAAA", 1);
    a.fixups_per_page[0] = vec![0x02, 0x00, 0x00, 0x00, 0x01, 0x00, 0x00];
    let (image, header_size) = build_le(&[a]);
    let mut arena = MemoryArena::new(0x0010_0000);
    let mut pt = PageTable::new();
    let r = load_le(&image, header_size, 0x1000, &mut arena, &mut pt);
    assert_eq!(r, Err(LoaderError::BadFixup));
}

#[test]
fn import_reference_fixup_is_fatal() {
    let mut a = ObjSpec::plain(b"AAAAAAAA", 1);
    // Target flag bits 0x03 select a non-internal reference.
    a.fixups_per_page[0] = vec![0x07, 0x01, 0x00, 0x00, 0x01, 0x00, 0x00];
    let (image, header_size) = build_le(&[a]);
    let mut arena = MemoryArena::new(0x0010_0000);
    let mut pt = PageTable::new();
    let r = load_le(&image, header_size, 0x1000, &mut arena, &mut pt);
    assert_eq!(r, Err(LoaderError::BadFixup));
}

#[test]
fn fixup_target_object_out_of_range_is_fatal() {
    let mut a = ObjSpec::plain(b"AAAAAAAA", 1);
    a.fixups_per_page[0] = vec![0x07, 0x00, 0x00, 0x00, 0x05, 0x00, 0x00];
    let (image, header_size) = build_le(&[a]);
    let mut arena = MemoryArena::new(0x0010_0000);
    let mut pt = PageTable::new();
    let r = load_le(&image, header_size, 0x1000, &mut arena, &mut pt);
    assert_eq!(r, Err(LoaderError::BadFixupTarget));
}

#[test]
fn fixup_site_outside_object_is_fatal() {
    let mut a = ObjSpec::plain(b"AAAAAAAA", 1);
    // A 32-bit patch at offset 4094 would run past the object's one page.
    a.fixups_per_page[0] = vec![0x07, 0x00, 0xFE, 0x0F, 0x01, 0x00, 0x00];
    let (image, header_size) = build_le(&[a]);
    let mut arena = MemoryArena::new(0x0010_0000);
    let mut pt = PageTable::new();
    let r = load_le(&image, header_size, 0x1000, &mut arena, &mut pt);
    assert_eq!(r, Err(LoaderError::BadFixupTarget));
}

#[test]
fn oversized_virtual_size_is_fatal() {
    let mut a = ObjSpec::plain(b"AAAAA", 1);
    a.vsize = 5000;
    a.entries = 1;
    let (mut image, header_size) = build_le(&[a]);
    // Declare more bytes than one page holds.
    put_le32(&mut image, 0x70, 8192);
    let mut arena = MemoryArena::new(0x0010_0000);
    let mut pt = PageTable::new();
    let r = load_le(&image, header_size, 0x1000, &mut arena, &mut pt);
    assert_eq!(r, Err(LoaderError::BadObject));
}

#[test]
fn zero_page_table_index_is_fatal() {
    let a = ObjSpec::plain(b"AAAAA", 1);
    let (mut image, header_size) = build_le(&[a]);
    put_le32(&mut image, 0x70 + 12, 0);
    let mut arena = MemoryArena::new(0x0010_0000);
    let mut pt = PageTable::new();
    let r = load_le(&image, header_size, 0x1000, &mut arena, &mut pt);
    assert_eq!(r, Err(LoaderError::BadObject));
}

#[test]
fn virtual_space_exhaustion_is_fatal() {
    let a = ObjSpec::plain(b"AAAAA", 2);
    let (image, header_size) = build_le(&[a]);
    let mut arena = MemoryArena::new(0x0010_0000);
    let mut pt = PageTable::new();
    let r = load_le(&image, header_size, 0xFFFF_F000, &mut arena, &mut pt);
    assert_eq!(r, Err(LoaderError::OutOfMemory));
}

#[test]
fn archive_walk_loads_each_module_in_order() {
    let a = ObjSpec::plain(b"KERNEL", 2);
    let (module, module_header_size) = build_le(&[a]);
    // One-entry directory: 16-byte archive header, one 16-byte record,
    // then the module image. File offsets are absolute in the outer
    // container, so the sub-header offset is added back.
    let header_offset: usize = 0x200;
    let module_off: usize = 32;
    let mut archive = vec![0u8; 32];
    archive[0] = b'W';
    archive[1] = b'3';
    archive[4] = 1;
    for (i, c) in b"KRNL386 ".iter().enumerate() {
        archive[16 + i] = *c;
    }
    put_le32(&mut archive, 16 + 8, (header_offset + module_off) as u32);
    put_le32(&mut archive, 16 + 12, module_header_size as u32);
    archive.extend_from_slice(&module);

    let mut arena = MemoryArena::new(0x0010_0000);
    let mut pt = PageTable::new();
    let next = w3_load_vxds(archive, header_offset, &mut arena, &mut pt).unwrap();
    assert_eq!(next, 0xC000_0000 + 2 * 4096);
    let mut e = pt.lookup(0xC000_0000).unwrap();
    assert!(e.present());
    assert_eq!(e.address(), 0x0010_0000);
    assert_eq!(arena.byte_at(0x0010_0000), b'K');
}

#[test]
fn archive_with_wrong_tag_is_fatal() {
    let archive = vec![b'W', b'4', 0, 0, 0, 0];
    let mut arena = MemoryArena::new(0x0010_0000);
    let mut pt = PageTable::new();
    let r = w3_load_vxds(archive, 0, &mut arena, &mut pt);
    assert_eq!(r, Err(LoaderError::BadContainerSignature));
}
