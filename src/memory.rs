//! Physical and virtual addresses, page-table entries, and the physical
//! memory that page tables live in.
use vstd::prelude::*;

use crate::util::{is_pow2, round_down};

verus! {

/// Size in bytes of one physical frame and of one virtual page.
pub const PAGE_SIZE: u64 = 0x1000;
/// Virtual address at which the kernel image is linked.
pub const LOAD_OFFSET: u64 = 0xFFFF_FFFF_8000_0000;
/// Start of the window through which all physical memory is reachable.
pub const PHY_OFFSET: u64 = 0xFFFF_8000_0000_0000;

pub const PAGE_MASK: u64 = 0xFFFF_FFFF_FFFF_F000;
pub const PAGE_OFFSET_MASK: u64 = 0xFFF;
/// Bits of an entry that hold the address of a frame.
pub const PAGE_ADDR_MASK: u64 = 0x000F_FFFF_FFFF_F000;
/// Bits of an entry that hold flags.
pub const PAGE_FLAGS_MASK: u64 = 0xFFF0_0000_0000_0FFF;

pub const PAGE_PRESENT: u64 = 0x01;
pub const PAGE_WRITEABLE: u64 = 0x02;
pub const PAGE_USERMODE: u64 = 0x04;
pub const PAGE_ACCESSED: u64 = 0x20;
pub const PAGE_DIRTY: u64 = 0x40;
pub const PAGE_ISHUGE: u64 = 0x80;
pub const PAGE_GLOBAL: u64 = 0x100;
pub const PAGE_OS_RESERVED1: u64 = 0x200;
pub const PAGE_OS_RESERVED2: u64 = 0x400;
pub const PAGE_OS_RESERVED3: u64 = 0x800;

/// Flags of an entry that links a table to the next level: present and writeable.
pub const PAGE_TABLE_FLAGS: u64 = 0x03;
pub const PAGE_COPYONWRITE: u64 = PAGE_OS_RESERVED1;
pub const PAGE_UNBACKED: u64 = 0x100_0000;

/// The first virtual address above the lower (user) half.
pub const HIGHER_HALF: u64 = 0x8000_0000_0000;

/// Number of 64-bit entries in one page table.
pub const ENTRIES_PER_TABLE: usize = 512;

/// Largest number of frames that a frame table or a physical memory may hold.
pub const MAX_FRAMES: usize = 0x40_0000;

/// What can go wrong when frames are allocated or page tables are walked.
#[derive(Clone, Copy, PartialEq, Eq, Structural, Debug)]
pub enum MemoryError {
    /// No frame is free.
    OutOfMemory,
    /// A walk without creation met an absent table.
    PageNotPresent,
}

#[derive(Clone, Copy, PartialEq, Eq, Structural, Debug)]
pub struct PhysicalAddress(pub u64);

/// The base address of a frame.
#[derive(Clone, Copy, PartialEq, Eq, Structural, Debug)]
pub struct PhysicalPage(pub u64);

/// The bytes `start..end` of physical memory.
#[derive(Clone, Copy, PartialEq, Eq, Structural, Debug)]
pub struct PhysicalRange {
    pub start: u64,
    pub end: u64,
}

#[derive(Clone, Copy, PartialEq, Eq, Structural, Debug)]
pub struct VirtualAddress(pub u64);

/// A page-table entry: a frame address in bits 12 to 51 and flags in the rest.
#[derive(Clone, Copy, PartialEq, Eq, Structural, Debug)]
pub struct PageTableEntry(pub u64);

/// The frame that holds physical address `a`.
pub open spec fn frame_of(a: u64) -> int {
    a as int / PAGE_SIZE as int
}

/// `e` marks its entry present.
pub open spec fn is_present(e: u64) -> bool {
    e & PAGE_PRESENT != 0
}

/// The frame address held by entry `e`.
pub open spec fn entry_frame(e: u64) -> u64 {
    e & PAGE_ADDR_MASK
}

/// `p` is the base of a frame that an entry can name.
pub open spec fn is_frame_address(p: u64) -> bool {
    p % PAGE_SIZE == 0 && p < 0x0010_0000_0000_0000
}

/// Reading back the frame and the present bit of an entry built from a
/// frame address and flags that stay out of the address bits.
pub proof fn lemma_entry_fields(p: u64, f: u64)
    requires
        is_frame_address(p),
        f & PAGE_ADDR_MASK == 0,
    ensures
        entry_frame(p | f) == p,
        is_present(p | f) == is_present(f),
{
    assert((p | f) & 0x000F_FFFF_FFFF_F000 == p) by (bit_vector)
        requires
            p % 0x1000 == 0 && p < 0x0010_0000_0000_0000,
            f & 0x000F_FFFF_FFFF_F000 == 0,
    ;
    assert(((p | f) & 1 != 0) == (f & 1 != 0)) by (bit_vector)
        requires
            p % 0x1000 == 0,
    ;
}

/// The flags that `map` and the table walk write are clear of the address bits.
pub proof fn lemma_small_flags(f: u64)
    requires
        f < 0x1000,
    ensures
        f & PAGE_ADDR_MASK == 0,
{
    assert(f & 0x000F_FFFF_FFFF_F000 == 0) by (bit_vector)
        requires
            f < 0x1000,
    ;
}

impl PhysicalAddress {
    /// The frame that holds this address.
    pub fn page(self) -> (r: PhysicalPage)
        ensures
            r.0 == self.0 - self.0 % PAGE_SIZE,
    {
        let a = self.0;
        assert(a & 0xFFFF_FFFF_FFFF_F000 == a - a % 0x1000) by (bit_vector);
        PhysicalPage(self.0 & PAGE_MASK)
    }

    /// The offset of this address inside its frame.
    pub fn page_offset(self) -> (r: u64)
        ensures
            r == self.0 % PAGE_SIZE,
    {
        let a = self.0;
        assert(a & 0xFFF == a % 0x1000) by (bit_vector);
        self.0 & PAGE_OFFSET_MASK
    }

    /// Index of the frame that holds this address.
    pub fn page_index(&self) -> (r: u64)
        ensures
            r == frame_of(self.0),
    {
        self.0 / PAGE_SIZE
    }

    /// Index of the first frame that starts at or after this address.
    pub fn page_index_up(&self) -> (r: u64)
        ensures
            r as int * PAGE_SIZE >= self.0,
            (r as int - 1) * PAGE_SIZE < self.0,
    {
        if self.0 % PAGE_SIZE == 0 {
            self.0 / PAGE_SIZE
        } else {
            self.0 / PAGE_SIZE + 1
        }
    }
}

impl PhysicalPage {
    /// The frame that holds address `v`.
    pub fn from_usize(v: usize) -> (r: Self)
        ensures
            r.0 == v - v % 4096,
    {
        proof {
            assert(is_pow2(4096)) by {
                vstd::arithmetic::power2::lemma2_to64();
            }
        }
        PhysicalPage(round_down(v, 4096) as u64)
    }

    /// The frame that holds the kernel-image address `v`, which the kernel
    /// sees at `LOAD_OFFSET` above its physical place.
    pub fn from_kernel_pointer(v: usize) -> (r: Self)
        requires
            v >= LOAD_OFFSET,
        ensures
            r.0 == (v - LOAD_OFFSET) - (v - LOAD_OFFSET) % 4096,
    {
        proof {
            assert(is_pow2(4096)) by {
                vstd::arithmetic::power2::lemma2_to64();
            }
        }
        let phys = ((v as u64) - LOAD_OFFSET) as usize;
        PhysicalPage(round_down(phys, 4096) as u64)
    }

    pub fn base_address(self) -> (r: PhysicalAddress)
        ensures
            r.0 == self.0,
    {
        PhysicalAddress(self.0)
    }

    /// Index of this frame in a frame table.
    pub fn index(self) -> (r: u64)
        ensures
            r == frame_of(self.0),
    {
        self.0 / PAGE_SIZE
    }
}

/// Frame `i` shares at least one byte with range `r`.
pub open spec fn overlaps(r: PhysicalRange, i: int) -> bool {
    i * PAGE_SIZE < r.end && r.start < (i + 1) * PAGE_SIZE
}

impl PhysicalRange {
    pub fn from_range(r: std::ops::Range<u64>) -> (s: Self)
        ensures
            s.start == r.start,
            s.end == r.end,
    {
        PhysicalRange { start: r.start, end: r.end }
    }

    /// Number of bytes in the range.
    pub fn size(&self) -> (r: u64)
        ensures
            r == if self.start <= self.end { self.end - self.start } else { 0 },
    {
        if self.start <= self.end {
            self.end - self.start
        } else {
            0
        }
    }

    /// Index of the first frame that the range overlaps.
    pub fn base_page_index(&self) -> (r: u64)
        ensures
            r == frame_of(self.start),
    {
        PhysicalAddress(self.start).page_index()
    }

    /// One past the index of the last frame that the range overlaps.
    pub fn top_page_index(&self) -> (r: u64)
        ensures
            r as int * PAGE_SIZE >= self.end,
            (r as int - 1) * PAGE_SIZE < self.end,
    {
        PhysicalAddress(self.end).page_index_up()
    }

    /// Every address of the range, in order.
    pub fn iter(self) -> (r: Vec<PhysicalAddress>)
        requires
            self.end - self.start <= usize::MAX,
        ensures
            r@.len() == if self.start <= self.end { self.end - self.start } else { 0 },
            forall|i: int| 0 <= i < r@.len() ==> #[trigger] r@[i].0 == self.start + i,
    {
        let mut out: Vec<PhysicalAddress> = Vec::new();
        let mut cursor: u64 = self.start;
        while cursor < self.end
            invariant
                self.start <= cursor,
                cursor <= self.end || cursor == self.start,
                out@.len() == cursor - self.start,
                forall|i: int| 0 <= i < out@.len() ==> #[trigger] out@[i].0 == self.start + i,
            decreases self.end - cursor,
        {
            out.push(PhysicalAddress(cursor));
            cursor = cursor + 1;
        }
        out
    }

    /// The base of every frame that the range overlaps, in order.
    pub fn pages(self) -> (r: Vec<PhysicalPage>)
        ensures
            r@.len() == if frame_of(self.start) <= self.top_index_spec() {
                self.top_index_spec() - frame_of(self.start)
            } else {
                0
            },
            forall|i: int|
                0 <= i < r@.len() ==> #[trigger] r@[i].0 == (frame_of(self.start) + i) * PAGE_SIZE,
            forall|i: int| 0 <= i < r@.len() ==> overlaps(self, #[trigger] frame_of(r@[i].0)),
    {
        let base = self.base_page_index();
        let top = self.top_page_index();
        let mut out: Vec<PhysicalPage> = Vec::new();
        let mut i: u64 = base;
        while i < top
            invariant
                base == frame_of(self.start),
                top == self.top_index_spec(),
                base <= i,
                i <= top || i == base,
                top <= 0x10_0000_0000_0000,
                out@.len() == i - base,
                forall|j: int|
                    0 <= j < out@.len() ==> #[trigger] out@[j].0 == (base + j) * PAGE_SIZE,
                forall|j: int| 0 <= j < out@.len() ==> overlaps(self, #[trigger] frame_of(out@[j].0)),
            decreases top - i,
        {
            out.push(PhysicalPage(i * PAGE_SIZE));
            assert(frame_of((i * PAGE_SIZE) as u64) == i);
            i = i + 1;
        }
        out
    }

    /// One past the index of the last frame that the range overlaps.
    pub open spec fn top_index_spec(self) -> int {
        if self.end % PAGE_SIZE == 0 {
            frame_of(self.end)
        } else {
            frame_of(self.end) + 1
        }
    }
}

impl VirtualAddress {
    /// The address lies above the middle of the 48-bit space.
    pub fn is_higher_half(self) -> (r: bool)
        ensures
            r == (self.0 > HIGHER_HALF),
    {
        self.0 > HIGHER_HALF
    }

    /// The offset of this address inside its page.
    pub fn page_offset(self) -> (r: u64)
        ensures
            r == self.0 % PAGE_SIZE,
    {
        let a = self.0;
        assert(a & 0xFFF == a % 0x1000) by (bit_vector);
        self.0 & PAGE_OFFSET_MASK
    }
}

impl PageTableEntry {
    /// The entry that names frame `p` with flags `f`.
    pub fn from_page_flags(p: PhysicalPage, f: u64) -> (r: Self)
        ensures
            r.0 == p.0 | f,
    {
        PageTableEntry(p.0 | f)
    }

    /// The empty entry: no frame and no flags.
    pub fn nil() -> (r: Self)
        ensures
            r.0 == 0,
    {
        PageTableEntry(0)
    }

    /// The frame that the entry names.
    pub fn deref(self) -> (r: PhysicalPage)
        ensures
            r.0 == entry_frame(self.0),
    {
        PhysicalPage(self.0 & PAGE_ADDR_MASK)
    }

    /// The frame that the entry names, as an address.
    pub fn page(self) -> (r: PhysicalAddress)
        ensures
            r.0 == entry_frame(self.0),
    {
        PhysicalAddress(self.0 & PAGE_ADDR_MASK)
    }

    /// The frame that the entry names, as a number.
    pub fn page_usize(self) -> (r: u64)
        ensures
            r == entry_frame(self.0),
    {
        self.page().0
    }

    /// The flag bits of the entry.
    pub fn flags(self) -> (r: u64)
        ensures
            r == self.0 & PAGE_FLAGS_MASK,
    {
        self.0 & PAGE_FLAGS_MASK
    }

    pub fn present(self) -> (r: bool)
        ensures
            r == is_present(self.0),
    {
        self.0 & PAGE_PRESENT != 0
    }
}

/// Physical memory as seen through the offset window, as 64-bit words.
/// It holds a whole number of frames.
pub struct PhysicalMemory {
    words: Vec<u64>,
}

impl View for PhysicalMemory {
    type V = Seq<u64>;

    closed spec fn view(&self) -> Seq<u64> {
        self.words@
    }
}

/// Index of the word that holds entry `i` of the table in frame `t`.
pub open spec fn slot(t: u64, i: int) -> int {
    frame_of(t) * 512 + i
}

impl PhysicalMemory {
    /// Number of frames in the memory.
    pub open spec fn frames(&self) -> int {
        self@.len() as int / 512
    }

    pub open spec fn wf(&self) -> bool {
        self@.len() % 512 == 0 && self.frames() <= MAX_FRAMES
    }

    /// A memory of `frame_count` frames, all zero.
    pub fn new(frame_count: usize) -> (r: Self)
        requires
            frame_count <= MAX_FRAMES,
        ensures
            r.wf(),
            r.frames() == frame_count,
            r@ == Seq::new((frame_count * 512) as nat, |i: int| 0u64),
    {
        let n = frame_count * ENTRIES_PER_TABLE;
        let mut words: Vec<u64> = Vec::new();
        while words.len() < n
            invariant
                words@.len() <= n,
                forall|i: int| 0 <= i < words@.len() ==> words@[i] == 0,
            decreases n - words@.len(),
        {
            words.push(0);
        }
        let r = PhysicalMemory { words };
        assert(r@ =~= Seq::new((frame_count * 512) as nat, |i: int| 0u64));
        r
    }

    pub fn frame_count(&self) -> (r: usize)
        requires
            self.wf(),
        ensures
            r == self.frames(),
    {
        self.words.len() / ENTRIES_PER_TABLE
    }

    /// The word at physical address `a`.
    pub fn read(&self, a: PhysicalAddress) -> (r: u64)
        requires
            a.0 % 8 == 0,
            a.0 / 8 < self@.len(),
        ensures
            r == self@[(a.0 / 8) as int],
    {
        let n = self.words.len();
        let i = (a.0 / 8) as usize;
        assert(i < n);
        self.words[i]
    }

    /// Stores `v` at physical address `a`.
    pub fn write(&mut self, a: PhysicalAddress, v: u64)
        requires
            a.0 % 8 == 0,
            a.0 / 8 < old(self)@.len(),
        ensures
            final(self)@ == old(self)@.update((a.0 / 8) as int, v),
    {
        let n = self.words.len();
        let i = (a.0 / 8) as usize;
        assert(i < n);
        self.words.set(i, v);
    }

    /// Entry `i` of the table held in frame `t`.
    pub fn entry(&self, t: PhysicalPage, i: usize) -> (r: PageTableEntry)
        requires
            t.0 % PAGE_SIZE == 0,
            i < 512,
            frame_of(t.0) < self.frames(),
            self.wf(),
        ensures
            r.0 == self@[slot(t.0, i as int)],
    {
        PageTableEntry(self.words[((t.0 / PAGE_SIZE) as usize) * ENTRIES_PER_TABLE + i])
    }

    /// Stores `e` as entry `i` of the table held in frame `t`.
    pub fn set_entry(&mut self, t: PhysicalPage, i: usize, e: PageTableEntry)
        requires
            t.0 % PAGE_SIZE == 0,
            i < 512,
            frame_of(t.0) < old(self).frames(),
            old(self).wf(),
        ensures
            final(self).wf(),
            final(self)@ == old(self)@.update(slot(t.0, i as int), e.0),
    {
        self.words.set(((t.0 / PAGE_SIZE) as usize) * ENTRIES_PER_TABLE + i, e.0);
    }

    /// Clears every word of frame `p`.
    pub fn zero_frame(&mut self, p: PhysicalPage)
        requires
            p.0 % PAGE_SIZE == 0,
            frame_of(p.0) < old(self).frames(),
            old(self).wf(),
        ensures
            final(self).wf(),
            final(self)@.len() == old(self)@.len(),
            forall|i: int|
                0 <= i < old(self)@.len() ==> #[trigger] final(self)@[i] == if frame_of(p.0) * 512
                    <= i < frame_of(p.0) * 512 + 512 {
                    0
                } else {
                    old(self)@[i]
                },
    {
        let base = ((p.0 / PAGE_SIZE) as usize) * ENTRIES_PER_TABLE;
        let mut k: usize = 0;
        while k < ENTRIES_PER_TABLE
            invariant
                base == frame_of(p.0) * 512,
                base + 512 <= self@.len(),
                self@.len() == old(self)@.len(),
                k <= 512,
                forall|i: int|
                    0 <= i < old(self)@.len() ==> #[trigger] self@[i] == if base <= i < base + k {
                        0
                    } else {
                        old(self)@[i]
                    },
            decreases 512 - k,
        {
            self.words.set(base + k, 0);
            k = k + 1;
        }
    }
}

} // verus!
