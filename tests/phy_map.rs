use cardinal::memory::{MemoryError, PhysicalAddress, PhysicalMemory, PhysicalRange};
use cardinal::phy_map::{
    alloc_frame, alloc_zero, free, leak, map_init, FrameState, MemoryRegion, PhysicalMap,
    MAX_REFS,
};

fn range(start: u64, end: u64) -> PhysicalRange {
    PhysicalRange { start, end }
}

fn region(start: u64, end: u64, available: bool) -> MemoryRegion {
    MemoryRegion { range: range(start, end), available }
}

/// A table of four frames: leaked, free, free, no memory.
fn four_frames() -> PhysicalMap {
    let mut map = PhysicalMap::new(4);
    map_init(&mut map, &vec![region(0x0, 0x3000, true)], range(0x0, 0x1000));
    map
}

#[test]
fn four_frame_example() {
    let mut map = four_frames();
    assert_eq!(map.state(PhysicalAddress(0x0000)), FrameState::Leaked);
    assert_eq!(map.state(PhysicalAddress(0x1000)), FrameState::Free);
    assert_eq!(map.state(PhysicalAddress(0x2000)), FrameState::Free);
    assert_eq!(map.state(PhysicalAddress(0x3000)), FrameState::Unavailable);
    assert_eq!(alloc_frame(&mut map), Ok(PhysicalAddress(0x1000)));
    assert_eq!(alloc_frame(&mut map), Ok(PhysicalAddress(0x2000)));
    assert_eq!(alloc_frame(&mut map), Err(MemoryError::OutOfMemory));
    free(&mut map, PhysicalAddress(0x1000));
    assert_eq!(alloc_frame(&mut map), Ok(PhysicalAddress(0x1000)));
}

#[test]
fn leak_wins_after_map_init() {
    let mut map = PhysicalMap::new(0x300);
    map_init(&mut map, &vec![region(0x100000, 0x200000, true)], range(0x0, 0x1000));
    leak(&mut map, range(0x180000, 0x190000));
    assert_eq!(map.state(PhysicalAddress(0x184000)), FrameState::Leaked);
    assert_eq!(map.state(PhysicalAddress(0x101000)), FrameState::Free);
}

#[test]
fn leak_wins_before_map_init() {
    let mut map = PhysicalMap::new(0x300);
    leak(&mut map, range(0x180000, 0x190000));
    map_init(&mut map, &vec![region(0x100000, 0x200000, true)], range(0x0, 0x1000));
    assert_eq!(map.state(PhysicalAddress(0x184000)), FrameState::Leaked);
    assert_eq!(map.state(PhysicalAddress(0x101000)), FrameState::Free);
}

#[test]
fn every_free_frame_once_then_out_of_memory() {
    let mut map = PhysicalMap::new(16);
    map_init(&mut map, &vec![region(0x2000, 0xA000, true)], range(0x4000, 0x5000));
    // Frames 2, 3, 5, 6, 7, 8, 9 are free.
    let mut got = Vec::new();
    for _ in 0..7 {
        let a = alloc_frame(&mut map).unwrap();
        assert!(!got.contains(&a));
        assert_eq!(map.state(a), FrameState::InUse(1));
        got.push(a);
    }
    assert_eq!(alloc_frame(&mut map), Err(MemoryError::OutOfMemory));
    let expected: Vec<PhysicalAddress> =
        [0x2000, 0x3000, 0x5000, 0x6000, 0x7000, 0x8000, 0x9000].iter().map(|&a| PhysicalAddress(a)).collect();
    assert_eq!(got, expected);
}

#[test]
fn alloc_then_free_returns_frame() {
    let mut map = PhysicalMap::new(8);
    map_init(&mut map, &vec![region(0x0, 0x8000, true)], range(0x0, 0x2000));
    let a = alloc_frame(&mut map).unwrap();
    assert_eq!(a, PhysicalAddress(0x2000));
    let b = alloc_frame(&mut map).unwrap();
    assert_eq!(b, PhysicalAddress(0x3000));
    free(&mut map, a);
    assert_eq!(map.state(a), FrameState::Free);
    assert_eq!(alloc_frame(&mut map), Ok(a));
}

#[test]
fn refcount_overflow_leaks_frame() {
    let mut map = PhysicalMap::new(2);
    map_init(&mut map, &vec![region(0x0, 0x2000, true)], range(0x0, 0x0));
    let a = alloc_frame(&mut map).unwrap();
    assert_eq!(a, PhysicalAddress(0));
    for _ in 1..MAX_REFS {
        map.incref(a);
    }
    assert_eq!(map.state(a), FrameState::InUse(MAX_REFS));
    map.incref(a);
    assert_eq!(map.state(a), FrameState::Leaked);
    map.decref(a);
    free(&mut map, a);
    assert_eq!(map.state(a), FrameState::Leaked);
    assert_eq!(alloc_frame(&mut map), Ok(PhysicalAddress(0x1000)));
    assert_eq!(alloc_frame(&mut map), Err(MemoryError::OutOfMemory));
}

#[test]
fn free_without_references_is_a_no_op() {
    let mut map = four_frames();
    free(&mut map, PhysicalAddress(0x1000));
    assert_eq!(map.state(PhysicalAddress(0x1000)), FrameState::Free);
    free(&mut map, PhysicalAddress(0x0000));
    assert_eq!(map.state(PhysicalAddress(0x0000)), FrameState::Leaked);
    free(&mut map, PhysicalAddress(0x3000));
    assert_eq!(map.state(PhysicalAddress(0x3000)), FrameState::Unavailable);
}

#[test]
fn shared_frame_needs_every_reference_dropped() {
    let mut map = four_frames();
    let a = alloc_frame(&mut map).unwrap();
    map.incref(a);
    assert_eq!(map.state(a), FrameState::InUse(2));
    free(&mut map, a);
    assert_eq!(map.state(a), FrameState::InUse(1));
    free(&mut map, a);
    assert_eq!(map.state(a), FrameState::Free);
}

#[test]
fn unavailable_region_keeps_frames_without_memory() {
    let mut map = PhysicalMap::new(8);
    map_init(
        &mut map,
        &vec![region(0x0, 0x4000, true), region(0x4000, 0x8000, false), region(0x3000, 0x5000, true)],
        range(0x7000, 0x7000),
    );
    assert_eq!(map.state(PhysicalAddress(0x3000)), FrameState::Free);
    assert_eq!(map.state(PhysicalAddress(0x4000)), FrameState::Free);
    assert_eq!(map.state(PhysicalAddress(0x5000)), FrameState::Unavailable);
}

#[test]
fn partial_frames_are_covered() {
    let mut map = PhysicalMap::new(8);
    map_init(&mut map, &vec![region(0x1800, 0x3001, true)], range(0x6FFF, 0x7001));
    assert_eq!(map.state(PhysicalAddress(0x0000)), FrameState::Unavailable);
    assert_eq!(map.state(PhysicalAddress(0x1000)), FrameState::Free);
    assert_eq!(map.state(PhysicalAddress(0x3000)), FrameState::Free);
    assert_eq!(map.state(PhysicalAddress(0x4000)), FrameState::Unavailable);
    assert_eq!(map.state(PhysicalAddress(0x6000)), FrameState::Leaked);
    assert_eq!(map.state(PhysicalAddress(0x7000)), FrameState::Leaked);
}

#[test]
fn kernel_image_leaked_over_available_map() {
    let mut map = PhysicalMap::new(8);
    map_init(&mut map, &vec![region(0x0, 0x8000, true)], range(0x1000, 0x3000));
    assert_eq!(map.state(PhysicalAddress(0x1000)), FrameState::Leaked);
    assert_eq!(map.state(PhysicalAddress(0x2FFF)), FrameState::Leaked);
    assert_eq!(map.state(PhysicalAddress(0x3000)), FrameState::Free);
}

#[test]
fn addresses_past_the_table_have_no_memory() {
    let map = four_frames();
    assert_eq!(map.state(PhysicalAddress(0x10_0000)), FrameState::Unavailable);
    assert_eq!(map.len(), 4);
}

#[test]
fn empty_table_is_out_of_memory() {
    let mut map = PhysicalMap::new(0);
    assert_eq!(alloc_frame(&mut map), Err(MemoryError::OutOfMemory));
    let mut map = PhysicalMap::new(3);
    assert_eq!(map.alloc_frame(), Err(MemoryError::OutOfMemory));
    assert_eq!(map.usable_index(), None);
}

#[test]
fn alloc_zero_clears_the_frame() {
    let mut map = four_frames();
    let mut mem = PhysicalMemory::new(4);
    mem.write(PhysicalAddress(0x1008), 0xDEAD);
    mem.write(PhysicalAddress(0x2008), 0xBEEF);
    let a = alloc_zero(&mut map, &mut mem).unwrap();
    assert_eq!(a, PhysicalAddress(0x1000));
    assert_eq!(mem.read(PhysicalAddress(0x1008)), 0);
    assert_eq!(mem.read(PhysicalAddress(0x2008)), 0xBEEF);
}

#[test]
fn summarize_counts_bytes() {
    let mut map = four_frames();
    let s = map.summarize();
    assert_eq!(s.in_use, 0x1000);
    assert_eq!(s.available, 0x2000);
    alloc_frame(&mut map).unwrap();
    let s = map.summarize();
    assert_eq!(s.in_use, 0x2000);
    assert_eq!(s.available, 0x1000);
}

#[test]
fn references_past_the_table_change_nothing() {
    let mut map = four_frames();
    let far = PhysicalAddress(0x10_0000);
    free(&mut map, far);
    map.incref(far);
    map.decref(far);
    assert_eq!(map.state(far), FrameState::Unavailable);
    assert_eq!(map.state(PhysicalAddress(0x1000)), FrameState::Free);
    assert_eq!(map.summarize().available, 0x2000);
}
