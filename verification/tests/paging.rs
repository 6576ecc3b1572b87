use vxdboot::paging::{PageTable, PageTableEntry};

#[test]
fn entry_packs_address_and_flags() {
    let mut e = PageTableEntry::new(0x0080_3000, true, false, true);
    assert!(e.present());
    assert!(!e.read_write());
    assert!(e.user());
    assert_eq!(e.address(), 0x0080_3000);
}

#[test]
fn entry_masks_unaligned_address_bits() {
    let mut e = PageTableEntry::new(0x0000_1234, false, true, false);
    assert!(!e.present());
    assert!(e.read_write());
    assert!(!e.user());
    assert_eq!(e.address(), 0x0000_1000);
}

#[test]
fn mapping_resolves_through_both_levels() {
    let mut pt = PageTable::new();
    pt.map_address(0x0030_0000, 0x1234_5000, true, true, false);
    let mut e = pt.lookup(0x1234_5000).unwrap();
    assert!(e.present());
    assert!(e.read_write());
    assert!(!e.user());
    assert_eq!(e.address(), 0x0030_0000);
}

#[test]
fn second_mapping_at_same_address_wins() {
    let mut pt = PageTable::new();
    pt.map_address(0x0030_0000, 0x1234_5000, true, true, false);
    pt.map_address(0x0440_0000, 0x1234_5000, true, true, false);
    let mut e = pt.lookup(0x1234_5000).unwrap();
    assert_eq!(e.address(), 0x0440_0000);
    assert!(e.present());
}

#[test]
fn unmapped_directory_slot_is_absent() {
    let pt = PageTable::new();
    assert!(pt.lookup(0x8000_0000).is_none());
}

#[test]
fn one_table_serves_neighbouring_pages() {
    let mut pt = PageTable::new();
    pt.map_address(0x0010_0000, 0x0040_0000, true, true, false);
    pt.map_address(0x0010_1000, 0x0040_1000, true, true, false);
    assert_eq!(pt.table_count(), 1);
    let mut e0 = pt.lookup(0x0040_0000).unwrap();
    let mut e1 = pt.lookup(0x0040_1000).unwrap();
    assert_eq!(e0.address(), 0x0010_0000);
    assert_eq!(e1.address(), 0x0010_1000);
}

#[test]
fn distant_pages_allocate_second_table() {
    let mut pt = PageTable::new();
    pt.map_address(0x0010_0000, 0x0040_0000, true, true, false);
    pt.map_address(0x0020_0000, 0xC000_0000, true, true, false);
    assert_eq!(pt.table_count(), 2);
    let mut e = pt.lookup(0xC000_0000).unwrap();
    assert_eq!(e.address(), 0x0020_0000);
}

#[test]
fn neighbouring_page_stays_non_present() {
    let mut pt = PageTable::new();
    pt.map_address(0x0010_0000, 0x0040_0000, true, true, false);
    // Same directory slot, different page: its entry exists but is zero.
    let e = pt.lookup(0x0040_3000).unwrap();
    assert!(!e.present());
}
