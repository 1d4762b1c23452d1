use cardinal::memory::{
    MemoryError, PageTableEntry, PhysicalAddress, PhysicalMemory, PhysicalPage, PhysicalRange,
    VirtualAddress, PAGE_PRESENT, PAGE_USERMODE, PAGE_WRITEABLE,
};
use cardinal::paging::PageTable;
use cardinal::phy_map::{map_init, FrameState, MemoryRegion, PhysicalMap};

/// A machine of `frames` frames, all free but frame 0.
fn machine(frames: usize) -> (PhysicalMap, PhysicalMemory) {
    let mut map = PhysicalMap::new(frames);
    let end = frames as u64 * 0x1000;
    map_init(
        &mut map,
        &vec![MemoryRegion { range: PhysicalRange { start: 0, end }, available: true }],
        PhysicalRange { start: 0, end: 0x1000 },
    );
    (map, PhysicalMemory::new(frames))
}

fn free_frames(map: &PhysicalMap) -> u64 {
    map.summarize().available / 0x1000
}

#[test]
fn new_table_has_no_mappings() {
    let (mut map, mut mem) = machine(8);
    let pt = PageTable::new(&mut map, &mut mem).unwrap();
    assert_eq!(pt.root, PhysicalPage(0x1000));
    assert_eq!(map.state(PhysicalAddress(0x1000)), FrameState::InUse(1));
    assert_eq!(pt.pte(&mem, VirtualAddress(0x40_0000)), None);
    assert_eq!(pt.resolve(&mem, VirtualAddress(0x40_0000)), None);
}

#[test]
fn new_table_without_memory_fails() {
    let mut map = PhysicalMap::new(2);
    let mut mem = PhysicalMemory::new(2);
    assert!(matches!(PageTable::new(&mut map, &mut mem), Err(MemoryError::OutOfMemory)));
}

#[test]
fn map_then_pte_and_unmap() {
    let (mut map, mut mem) = machine(16);
    let mut pt = PageTable::new(&mut map, &mut mem).unwrap();
    let v = VirtualAddress(0x40_1000);
    let p = PhysicalPage(0xA000);
    pt.map(&mut mem, &mut map, v, p, PAGE_WRITEABLE).unwrap();
    let e = pt.pte(&mem, v).unwrap();
    assert_eq!(e, PageTableEntry(0xA000 | PAGE_WRITEABLE | PAGE_PRESENT));
    assert_eq!(e.deref(), p);
    assert!(e.present());
    assert_eq!(e.flags(), PAGE_WRITEABLE | PAGE_PRESENT);
    assert_eq!(pt.resolve(&mem, VirtualAddress(0x40_1234)), Some(PhysicalAddress(0xA234)));
    pt.unmap(&mut mem, v).unwrap();
    let e = pt.pte(&mem, v).unwrap();
    assert!(!e.present());
    assert_eq!(e, PageTableEntry::nil());
}

#[test]
fn same_region_creates_tables_once() {
    let (mut map, mut mem) = machine(16);
    let mut pt = PageTable::new(&mut map, &mut mem).unwrap();
    let before = free_frames(&map);
    pt.map(&mut mem, &mut map, VirtualAddress(0x20_0000), PhysicalPage(0xA000), 0).unwrap();
    assert_eq!(free_frames(&map), before - 3);
    pt.map(&mut mem, &mut map, VirtualAddress(0x20_5000), PhysicalPage(0xB000), 0).unwrap();
    assert_eq!(free_frames(&map), before - 3);
    assert_eq!(pt.pte(&mem, VirtualAddress(0x20_0000)).unwrap().deref(), PhysicalPage(0xA000));
    assert_eq!(pt.pte(&mem, VirtualAddress(0x20_5000)).unwrap().deref(), PhysicalPage(0xB000));
}

#[test]
fn map_allocates_only_missing_tables() {
    let (mut map, mut mem) = machine(32);
    let mut pt = PageTable::new(&mut map, &mut mem).unwrap();
    let start = free_frames(&map);
    // Nothing below the root yet: three tables.
    pt.map(&mut mem, &mut map, VirtualAddress(0x0000_0000_0000_0000), PhysicalPage(0x1F000), 0).unwrap();
    assert_eq!(free_frames(&map), start - 3);
    // Same level-2 table, new level-1 table.
    pt.map(&mut mem, &mut map, VirtualAddress(0x0000_0000_0020_0000), PhysicalPage(0x1F000), 0).unwrap();
    assert_eq!(free_frames(&map), start - 4);
    // Same level-3 table, new level-2 and level-1 tables.
    pt.map(&mut mem, &mut map, VirtualAddress(0x0000_0000_4000_0000), PhysicalPage(0x1F000), 0).unwrap();
    assert_eq!(free_frames(&map), start - 6);
    // New level-3, level-2 and level-1 tables.
    pt.map(&mut mem, &mut map, VirtualAddress(0x0000_0080_0000_0000), PhysicalPage(0x1F000), 0).unwrap();
    assert_eq!(free_frames(&map), start - 9);
    // Everything present: nothing allocated.
    pt.map(&mut mem, &mut map, VirtualAddress(0x0000_0080_0000_1000), PhysicalPage(0x1F000), 0).unwrap();
    assert_eq!(free_frames(&map), start - 9);
}

#[test]
fn map_runs_out_of_frames() {
    let (mut map, mut mem) = machine(4);
    let mut pt = PageTable::new(&mut map, &mut mem).unwrap();
    // Two frames are left, three tables are needed.
    let r = pt.map(&mut mem, &mut map, VirtualAddress(0x1000), PhysicalPage(0x3000), 0);
    assert_eq!(r, Err(MemoryError::OutOfMemory));
    assert_eq!(free_frames(&map), 0);
    assert_eq!(pt.pte(&mem, VirtualAddress(0x1000)), None);
}

#[test]
fn overwriting_a_mapping_keeps_old_frame_referenced() {
    let (mut map, mut mem) = machine(16);
    let mut pt = PageTable::new(&mut map, &mut mem).unwrap();
    let v = VirtualAddress(0x7000);
    pt.map(&mut mem, &mut map, v, PhysicalPage(0xA000), 0).unwrap();
    pt.map(&mut mem, &mut map, v, PhysicalPage(0xB000), 0).unwrap();
    assert_eq!(pt.pte(&mem, v).unwrap().deref(), PhysicalPage(0xB000));
}

#[test]
fn unmap_and_edit_without_tables_fail() {
    let (mut map, mut mem) = machine(8);
    let mut pt = PageTable::new(&mut map, &mut mem).unwrap();
    let v = VirtualAddress(0x5000);
    assert_eq!(pt.unmap(&mut mem, v), Err(MemoryError::PageNotPresent));
    assert_eq!(pt.edit_flags(&mut mem, v, PAGE_PRESENT), Err(MemoryError::PageNotPresent));
}

#[test]
fn edit_flags_keeps_frame() {
    let (mut map, mut mem) = machine(16);
    let mut pt = PageTable::new(&mut map, &mut mem).unwrap();
    let v = VirtualAddress(0x9000);
    pt.map(&mut mem, &mut map, v, PhysicalPage(0xC000), PAGE_WRITEABLE).unwrap();
    pt.edit_flags(&mut mem, v, PAGE_PRESENT | PAGE_USERMODE).unwrap();
    assert_eq!(pt.pte(&mem, v), Some(PageTableEntry(0xC000 | PAGE_PRESENT | PAGE_USERMODE)));
}

#[test]
fn intermediate_tables_user_below_higher_half() {
    let (mut map, mut mem) = machine(16);
    let mut pt = PageTable::new(&mut map, &mut mem).unwrap();
    pt.map(&mut mem, &mut map, VirtualAddress(0x1000), PhysicalPage(0xA000), 0).unwrap();
    // The root's entry 0 names the first table made, frame 2, user-accessible.
    let root_entry = mem.entry(pt.root, 0);
    assert_eq!(root_entry, PageTableEntry(0x2000 | PAGE_PRESENT | PAGE_WRITEABLE | PAGE_USERMODE));
}

#[test]
fn intermediate_tables_kernel_in_higher_half() {
    let (mut map, mut mem) = machine(16);
    let mut pt = PageTable::new(&mut map, &mut mem).unwrap();
    let v = VirtualAddress(0xFFFF_8000_0000_0000);
    pt.map(&mut mem, &mut map, v, PhysicalPage(0xA000), 0).unwrap();
    let root_entry = mem.entry(pt.root, 256);
    assert_eq!(root_entry, PageTableEntry(0x2000 | PAGE_PRESENT | PAGE_WRITEABLE));
    assert_eq!(pt.resolve(&mem, VirtualAddress(0xFFFF_8000_0000_0042)), Some(PhysicalAddress(0xA042)));
}

#[test]
fn table_frames_are_in_use() {
    let (mut map, mut mem) = machine(16);
    let mut pt = PageTable::new(&mut map, &mut mem).unwrap();
    pt.map(&mut mem, &mut map, VirtualAddress(0x1000), PhysicalPage(0xA000), 0).unwrap();
    for f in 1..5u64 {
        assert_eq!(map.state(PhysicalAddress(f * 0x1000)), FrameState::InUse(1));
    }
    assert_eq!(map.state(PhysicalAddress(0x5000)), FrameState::Free);
}

#[test]
fn pte_mut_finds_leaf_table() {
    let (mut map, mut mem) = machine(16);
    let mut pt = PageTable::new(&mut map, &mut mem).unwrap();
    let v = VirtualAddress(0x3000);
    assert_eq!(pt.pte_mut(&mem, v), Err(MemoryError::PageNotPresent));
    pt.map(&mut mem, &mut map, v, PhysicalPage(0xA000), 0).unwrap();
    // Root in frame 1, then the level-3, level-2 and level-1 tables in frames 2, 3, 4.
    assert_eq!(pt.pte_mut(&mem, v), Ok(PhysicalPage(0x4000)));
    assert_eq!(mem.entry(PhysicalPage(0x4000), 3), PageTableEntry(0xA000 | PAGE_PRESENT));
}

#[test]
fn map_leaves_other_mappings_alone() {
    let (mut map, mut mem) = machine(32);
    let mut pt = PageTable::new(&mut map, &mut mem).unwrap();
    let a = VirtualAddress(0x1000);
    let b = VirtualAddress(0x0000_0080_0000_0000);
    pt.map(&mut mem, &mut map, a, PhysicalPage(0xA000), PAGE_WRITEABLE).unwrap();
    let before = pt.pte(&mem, a);
    pt.map(&mut mem, &mut map, b, PhysicalPage(0xB000), 0).unwrap();
    pt.map(&mut mem, &mut map, VirtualAddress(0x2000), PhysicalPage(0xC000), 0).unwrap();
    assert_eq!(pt.pte(&mem, a), before);
}

#[test]
fn high_flag_bits_keep_the_frame() {
    let (mut map, mut mem) = machine(16);
    let mut pt = PageTable::new(&mut map, &mut mem).unwrap();
    let v = VirtualAddress(0x0);
    pt.map(&mut mem, &mut map, v, PhysicalPage(0x0), 1 << 52).unwrap();
    let e = pt.pte(&mem, v).unwrap();
    assert_eq!(e.deref(), PhysicalPage(0x0));
    assert!(e.present());
    assert_eq!(pt.resolve(&mem, VirtualAddress(0x123)), Some(PhysicalAddress(0x123)));
}

#[test]
fn created_tables_hold_only_the_path() {
    let (mut map, mut mem) = machine(16);
    let mut pt = PageTable::new(&mut map, &mut mem).unwrap();
    mem.write(PhysicalAddress(0x2000 + 8 * 7), 0xFFFF);
    mem.write(PhysicalAddress(0x3000 + 8 * 9), 0xFFFF);
    let v = VirtualAddress(0x0000_0080_4020_1000);
    pt.map(&mut mem, &mut map, v, PhysicalPage(0xA000), 0).unwrap();
    let flags = PAGE_PRESENT | PAGE_WRITEABLE | PAGE_USERMODE;
    assert_eq!(mem.entry(pt.root, 1), PageTableEntry(0x2000 | flags));
    assert_eq!(mem.entry(PhysicalPage(0x2000), 1), PageTableEntry(0x3000 | flags));
    assert_eq!(mem.entry(PhysicalPage(0x3000), 1), PageTableEntry(0x4000 | flags));
    assert_eq!(mem.entry(PhysicalPage(0x4000), 1), PageTableEntry(0xA000 | PAGE_PRESENT));
    assert_eq!(mem.entry(PhysicalPage(0x2000), 7), PageTableEntry(0));
    assert_eq!(mem.entry(PhysicalPage(0x3000), 9), PageTableEntry(0));
    assert_eq!(pt.pte(&mem, VirtualAddress(0x0000_0080_4020_2000)), Some(PageTableEntry(0)));
    assert_eq!(pt.pte(&mem, VirtualAddress(0x1000)), None);
}

#[test]
fn edit_flags_reads_back() {
    let (mut map, mut mem) = machine(16);
    let mut pt = PageTable::new(&mut map, &mut mem).unwrap();
    let v = VirtualAddress(0x4000);
    pt.map(&mut mem, &mut map, v, PhysicalPage(0xB000), PAGE_WRITEABLE).unwrap();
    pt.edit_flags(&mut mem, v, 0).unwrap();
    let e = pt.pte(&mem, v).unwrap();
    assert_eq!(e, PageTableEntry(0xB000));
    assert!(!e.present());
    assert_eq!(e.deref(), PhysicalPage(0xB000));
}
