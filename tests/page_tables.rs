use oxiv6_kernel::kalloc::KernelAllocator;
use oxiv6_kernel::layout::{PAGE_SIZE, TRAMPOLINE};
use oxiv6_kernel::pte::{PageTableEntry, RSW};
use oxiv6_kernel::vm::{kvmmake, PageTable, PageTableMapError, PageTableWalkError};

fn brought_up() -> KernelAllocator {
    let mut a = KernelAllocator::new(0x8040_0000, 0x8080_0000);
    a.init();
    a
}

#[test]
fn walk_creates_intermediate_tables() {
    let mut a = brought_up();
    let mut pt = PageTable::new(&mut a).unwrap();
    assert_eq!(pt.table_count(), 1);
    let before = a.page_allocator().pfree_count();
    pt.map_pages(&mut a, 0x1000, PAGE_SIZE as u64, 0x8060_0000, 6).unwrap();
    assert_eq!(before - a.page_allocator().pfree_count(), 2 * PAGE_SIZE);
    assert_eq!(pt.table_count(), 3);
    let e = pt.walk_const(0x1000).unwrap();
    assert!(e.valid());
    assert!(e.readable());
    assert!(e.writeable());
    assert!(!e.executable());
    assert_eq!(e.get_flags(), 6 | 1);
    assert_eq!(e.pa_int(), 0x8060_0000);
}

#[test]
fn map_walk_round_trip() {
    let mut a = brought_up();
    let mut pt = PageTable::new(&mut a).unwrap();
    let va: u64 = 0x4000_0800;
    let len: u64 = 3 * 4096;
    let pa: u64 = 0x8070_0000;
    pt.map_pages(&mut a, va, len, pa, 10).unwrap();
    // Pages from that of va to that of va + len - 1, both included.
    for k in 0..4u64 {
        let v = 0x4000_0000 + k * 4096;
        let e = pt.walk_const(v).unwrap();
        assert!(e.valid());
        assert_eq!(e.get_flags() & 10, 10);
        assert_eq!(e.pa_int(), pa + (v - 0x4000_0000));
        assert_eq!(pt.walk_const(v + 123).unwrap(), e);
    }
    let after = pt.walk_const(0x4000_4000).unwrap();
    assert!(!after.valid());
    assert_eq!(pt.walk_const(0x8000_0000), Err(PageTableWalkError::PageTableUnallocated));
}

#[test]
fn region_unmapped_sees_double_map() {
    let mut a = brought_up();
    let mut pt = PageTable::new(&mut a).unwrap();
    assert!(pt.region_unmapped(0x2000, 0x3000));
    pt.map_pages(&mut a, 0x3000, 0x1000, 0x8070_0000, 6).unwrap();
    assert!(!pt.region_unmapped(0x2000, 0x3000));
    assert!(pt.region_unmapped(0x4000, 0x1000));
    assert!(!pt.region_unmapped(0x3fff, 1));
}

#[test]
fn walk_mut_without_allocation() {
    let mut a = brought_up();
    let mut pt = PageTable::new(&mut a).unwrap();
    let free = a.page_allocator().pfree_count();
    assert_eq!(
        pt.walk_mut(&mut a, 0x5000, false, |e: PageTableEntry| e),
        Err(PageTableWalkError::PageTableUnallocated)
    );
    assert_eq!(a.page_allocator().pfree_count(), free);
    pt.walk_mut(&mut a, 0x5000, true, |mut e: PageTableEntry| {
        e.set_rsw(RSW::COWPage);
        e
    })
    .unwrap();
    assert_eq!(pt.walk_const(0x5000).unwrap().rsw(), RSW::COWPage);
    pt.walk_mut(&mut a, 0x5000, false, |mut e: PageTableEntry| {
        e.set_valid(true);
        e
    })
    .unwrap();
    assert!(pt.walk_const(0x5000).unwrap().valid());
}

#[test]
fn walk_fails_when_frames_run_out() {
    let mut a = brought_up();
    let mut pt = PageTable::new(&mut a).unwrap();
    while a.allocate(PAGE_SIZE, PAGE_SIZE).is_some() {}
    assert_eq!(
        pt.map_pages(&mut a, 0x1000, 0x1000, 0x8070_0000, 6),
        Err(PageTableMapError::PageTableWalkError(PageTableWalkError::UnableToAllocate))
    );
    assert_eq!(pt.walk_const(0x1000), Err(PageTableWalkError::PageTableUnallocated));
}

#[test]
fn new_table_needs_a_frame() {
    let mut a = brought_up();
    while a.allocate(PAGE_SIZE, PAGE_SIZE).is_some() {}
    assert!(PageTable::new(&mut a).is_none());
}

#[test]
fn root_ppn_of_first_table() {
    let mut a = brought_up();
    let pt = PageTable::new(&mut a).unwrap();
    assert_eq!(pt.root_ppn(), 0x807F_F000 >> 12);
}

#[test]
fn kernel_map() {
    let mut a = brought_up();
    let start: u64 = 0x8020_0000;
    let etext: u64 = 0x8030_0000;
    let trampoline: u64 = 0x8020_1000;
    let pt = kvmmake(&mut a, start, etext, trampoline, 0x8080_0000).unwrap();
    let text = pt.walk_const(start).unwrap();
    assert!(text.valid() && text.executable() && text.readable() && !text.writeable());
    assert_eq!(text.pa_int(), start);
    let data = pt.walk_const(etext).unwrap();
    assert!(data.valid() && data.readable() && data.writeable() && !data.executable());
    assert_eq!(data.pa_int(), etext);
    let last = pt.walk_const(0x807F_F000).unwrap();
    assert!(last.valid() && last.writeable());
    let tramp = pt.walk_const(TRAMPOLINE).unwrap();
    assert!(tramp.valid() && tramp.executable());
    assert_eq!(tramp.pa_int(), trampoline);
    // Past phystop no leaf table was needed.
    assert_eq!(pt.walk_const(0x8080_0000), Err(PageTableWalkError::PageTableUnallocated));
    // The page below the trampoline shares its leaf table and is not mapped.
    let unmapped = pt.walk_const(TRAMPOLINE - 0x1000).unwrap();
    assert!(!unmapped.valid());
}

#[test]
fn kernel_map_without_memory() {
    let mut a = brought_up();
    while a.allocate(PAGE_SIZE, PAGE_SIZE).is_some() {}
    assert!(matches!(
        kvmmake(&mut a, 0x8020_0000, 0x8030_0000, 0x8020_1000, 0x8080_0000),
        Err(PageTableMapError::PageTableWalkError(PageTableWalkError::UnableToAllocate))
    ));
}

#[test]
fn entry_mapping_and_flags() {
    let mut e = PageTableEntry::from(0u64);
    e.set_mapping(0x8765_4321);
    assert_eq!(e.pa_int(), 0x8765_4000);
    assert_eq!(e.pa(), 0x87654);
    e.set_flags(0xff);
    assert_eq!(e.get_flags(), 0xff);
    assert!(e.accessed() && e.dirty());
    e.clear_accessed();
    assert_eq!(e.get_flags(), 0xbf);
    assert!(!e.accessed());
    e.clear_dirty();
    assert_eq!(e.get_flags(), 0x3f);
    assert!(!e.dirty());
    assert_eq!(e.pa_int(), 0x8765_4000);
    e.set_flags(0x0b);
    assert!(e.valid() && e.readable() && e.executable() && !e.writeable() && !e.user_accessible());
    assert_eq!(u64::from(e), (0x87654u64 << 10) | 0x0b);
}

#[test]
fn entry_bits_are_kept_apart() {
    let mut e = PageTableEntry::from(u64::MAX);
    e.set_mapping(0);
    assert_eq!(u64::from(e), u64::MAX & !(0xfff_ffff_ffffu64 << 10));
    e.set_rsw(RSW::Default);
    assert_eq!(e.rsw(), RSW::Default);
    assert_eq!((u64::from(e) >> 8) & 3, 0);
    e.set_rsw(RSW::COWPage);
    assert_eq!((u64::from(e) >> 8) & 3, 1);
    assert_eq!(e.get_flags(), 0xff);
}

#[test]
fn rsw_conversions() {
    assert_eq!(RSW::from(1u8), RSW::COWPage);
    assert_eq!(RSW::from(0u8), RSW::Default);
    assert_eq!(RSW::from(3u8), RSW::Default);
    assert_eq!(u8::from(RSW::COWPage), 1);
    assert_eq!(u8::from(RSW::Default), 0);
    assert_eq!(RSW::default(), RSW::Default);
}

#[test]
fn map_error_from_walk_error() {
    assert_eq!(
        PageTableMapError::from(PageTableWalkError::UnableToAllocate),
        PageTableMapError::PageTableWalkError(PageTableWalkError::UnableToAllocate)
    );
}

#[test]
fn tables_export_frames_and_inner_entries() {
    let mut a = brought_up();
    let mut pt = PageTable::new(&mut a).unwrap();
    let root = pt.frame_of(0);
    assert_eq!(root >> 12, pt.root_ppn());
    pt.map_pages(&mut a, 0x1000, PAGE_SIZE as u64, 0x8060_0000, 6).unwrap();
    // The root's entry 0 and the middle table's entry 0 point at tables
    // with the valid bit alone among their flags.
    let e2 = pt.entries_of(0)[0];
    assert_eq!(e2.get_flags(), 1);
    assert_eq!(e2.pa_int(), pt.frame_of(1));
    let e1 = pt.entries_of(1)[0];
    assert_eq!(e1.get_flags(), 1);
    assert_eq!(e1.pa_int(), pt.frame_of(2));
    let leaf = pt.entries_of(2)[1];
    assert_eq!(leaf.get_flags(), 7);
    assert_eq!(leaf.pa_int(), 0x8060_0000);
}
