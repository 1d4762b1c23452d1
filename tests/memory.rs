use cardinal::memory::{
    PageTableEntry, PhysicalAddress, PhysicalMemory, PhysicalPage, PhysicalRange, VirtualAddress,
    LOAD_OFFSET,
};
use cardinal::util::{round_down, round_up};

#[test]
fn rounding() {
    assert_eq!(round_down(0x1234, 0x1000), 0x1000);
    assert_eq!(round_down(0x2000, 0x1000), 0x2000);
    assert_eq!(round_up(0x1234, 0x1000), 0x2000);
    assert_eq!(round_up(0x2000, 0x1000), 0x2000);
    assert_eq!(round_up(0, 8), 0);
    assert_eq!(round_up(9, 8), 16);
    assert_eq!(round_down(7, 1), 7);
}

#[test]
fn address_parts() {
    let a = PhysicalAddress(0x12_3456);
    assert_eq!(a.page(), PhysicalPage(0x12_3000));
    assert_eq!(a.page_offset(), 0x456);
    assert_eq!(a.page_index(), 0x123);
    assert_eq!(a.page_index_up(), 0x124);
    assert_eq!(PhysicalAddress(0x5000).page_index_up(), 5);
    assert_eq!(VirtualAddress(0xFFFF_8000_0000_0ABC).page_offset(), 0xABC);
    assert!(VirtualAddress(0xFFFF_8000_0000_0000).is_higher_half());
    assert!(!VirtualAddress(0x7FFF_FFFF_F000).is_higher_half());
}

#[test]
fn pages_from_pointers() {
    assert_eq!(PhysicalPage::from_usize(0x1FFF), PhysicalPage(0x1000));
    assert_eq!(PhysicalPage(0x3000).index(), 3);
    assert_eq!(PhysicalPage(0x3000).base_address(), PhysicalAddress(0x3000));
    let kernel_pointer = (LOAD_OFFSET + 0x10_2345) as usize;
    assert_eq!(PhysicalPage::from_kernel_pointer(kernel_pointer), PhysicalPage(0x10_2000));
}

#[test]
fn range_pages_and_bytes() {
    let r = PhysicalRange::from_range(0x1800..0x3001);
    assert_eq!(r, PhysicalRange { start: 0x1800, end: 0x3001 });
    assert_eq!(r.size(), 0x1801);
    assert_eq!(r.base_page_index(), 1);
    assert_eq!(r.top_page_index(), 4);
    assert_eq!(r.pages(), vec![PhysicalPage(0x1000), PhysicalPage(0x2000), PhysicalPage(0x3000)]);
    let small = PhysicalRange { start: 0x10, end: 0x13 };
    assert_eq!(small.iter(), vec![PhysicalAddress(0x10), PhysicalAddress(0x11), PhysicalAddress(0x12)]);
    let empty = PhysicalRange { start: 0x20, end: 0x10 };
    assert_eq!(empty.size(), 0);
    assert!(empty.iter().is_empty());
    assert!(PhysicalRange { start: 0x2000, end: 0x2000 }.pages().is_empty());
}

#[test]
fn entry_fields() {
    let e = PageTableEntry::from_page_flags(PhysicalPage(0x5000), 0x8000_0000_0000_0003);
    assert_eq!(e.deref(), PhysicalPage(0x5000));
    assert_eq!(e.page(), PhysicalAddress(0x5000));
    assert_eq!(e.page_usize(), 0x5000);
    assert_eq!(e.flags(), 0x8000_0000_0000_0003);
    assert!(e.present());
    assert!(!PageTableEntry::nil().present());
}

#[test]
fn memory_words() {
    let mut mem = PhysicalMemory::new(2);
    assert_eq!(mem.frame_count(), 2);
    mem.write(PhysicalAddress(0x1010), 42);
    assert_eq!(mem.read(PhysicalAddress(0x1010)), 42);
    assert_eq!(mem.entry(PhysicalPage(0x1000), 2), PageTableEntry(42));
    mem.set_entry(PhysicalPage(0x1000), 3, PageTableEntry(7));
    assert_eq!(mem.read(PhysicalAddress(0x1018)), 7);
    mem.zero_frame(PhysicalPage(0x1000));
    assert_eq!(mem.read(PhysicalAddress(0x1010)), 0);
}

#[test]
fn bits_above_51_are_flags() {
    let e = PageTableEntry::from_page_flags(PhysicalPage(0xA000), 1 << 52);
    assert_eq!(e.deref(), PhysicalPage(0xA000));
    assert_eq!(e.flags(), 1 << 52);
    let top = PageTableEntry(0x000F_FFFF_FFFF_F000 | 0xFFF0_0000_0000_0FFF);
    assert_eq!(top.page_usize(), 0x000F_FFFF_FFFF_F000);
    assert_eq!(top.flags(), 0xFFF0_0000_0000_0FFF);
}
