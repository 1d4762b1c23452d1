//! The physical frame allocator: one reference-counted state per frame,
//! packed into a byte.
use vstd::prelude::*;

use crate::memory::{
    frame_of, overlaps, MemoryError, PhysicalAddress, PhysicalMemory, PhysicalPage,
    PhysicalRange, MAX_FRAMES, PAGE_SIZE,
};

verus! {

/// Largest reference count that a frame can hold before it is leaked.
pub const MAX_REFS: u8 = 253;

/// The state of one frame.
#[derive(Clone, Copy, PartialEq, Eq, Structural, Debug)]
pub enum FrameState {
    /// Never backed by usable memory.
    Unavailable,
    /// Permanently excluded from allocation.
    Leaked,
    /// No references; can be allocated.
    Free,
    /// Held by this many references, from 1 to `MAX_REFS`.
    InUse(u8),
}

/// The state after one more reference is taken: a count past `MAX_REFS`
/// leaks the frame.
pub open spec fn incref_state(s: FrameState) -> FrameState {
    match s {
        FrameState::Free => FrameState::InUse(1),
        FrameState::InUse(n) => if n >= MAX_REFS {
            FrameState::Leaked
        } else {
            FrameState::InUse((n + 1) as u8)
        },
        _ => s,
    }
}

/// The state after one reference is dropped; frames without references stay as they are.
pub open spec fn decref_state(s: FrameState) -> FrameState {
    match s {
        FrameState::InUse(n) => if n <= 1 {
            FrameState::Free
        } else {
            FrameState::InUse((n - 1) as u8)
        },
        _ => s,
    }
}

/// The state after a memory-map pass marks a frame as `v`: a leak always
/// wins, anything else only fills a frame that had no memory.
pub open spec fn merge_state(cur: FrameState, v: FrameState) -> FrameState {
    if cur is Unavailable || v is Leaked {
        v
    } else {
        cur
    }
}

/// Index of the first free frame at or after `i`, or the length if none is.
pub open spec fn first_free_from(s: Seq<FrameState>, i: int) -> int
    decreases s.len() - i,
{
    if i < 0 || i >= s.len() {
        s.len() as int
    } else if s[i] is Free {
        i
    } else {
        first_free_from(s, i + 1)
    }
}

/// Index of the lowest free frame, or the length if no frame is free.
pub open spec fn first_free(s: Seq<FrameState>) -> int {
    first_free_from(s, 0)
}

/// Number of free frames at or after `i`.
pub open spec fn free_count_from(s: Seq<FrameState>, i: int) -> nat
    decreases s.len() - i,
{
    if i < 0 || i >= s.len() {
        0
    } else {
        (if s[i] is Free { 1nat } else { 0nat }) + free_count_from(s, i + 1)
    }
}

/// Number of frames at or after `i` that are referenced or leaked.
pub open spec fn held_count_from(s: Seq<FrameState>, i: int) -> nat
    decreases s.len() - i,
{
    if i < 0 || i >= s.len() {
        0
    } else {
        (if s[i] is InUse || s[i] is Leaked { 1nat } else { 0nat }) + held_count_from(s, i + 1)
    }
}

/// Number of frames that are referenced or leaked.
pub open spec fn held_count(s: Seq<FrameState>) -> nat {
    held_count_from(s, 0)
}

/// Number of free frames.
pub open spec fn free_count(s: Seq<FrameState>) -> nat {
    free_count_from(s, 0)
}

/// The table after one allocation: the lowest free frame gets one reference.
pub open spec fn alloc_state(s: Seq<FrameState>) -> Seq<FrameState> {
    if first_free(s) < s.len() {
        s.update(first_free(s), FrameState::InUse(1))
    } else {
        s
    }
}

/// The state of the frame that holds address `a`; frames past the table have no memory.
pub open spec fn state_at(s: Seq<FrameState>, a: u64) -> FrameState {
    if frame_of(a) < s.len() {
        s[frame_of(a)]
    } else {
        FrameState::Unavailable
    }
}

/// The table after every frame that overlaps `r` is marked `v`.
pub open spec fn set_range_state(s: Seq<FrameState>, r: PhysicalRange, v: FrameState) -> Seq<
    FrameState,
> {
    Seq::new(s.len(), |i: int| if overlaps(r, i) { merge_state(s[i], v) } else { s[i] })
}

/// The table after one more reference to the frame that holds address `a`;
/// addresses past the table change nothing.
pub open spec fn incref_at(s: Seq<FrameState>, a: u64) -> Seq<FrameState> {
    if frame_of(a) < s.len() {
        s.update(frame_of(a), incref_state(s[frame_of(a)]))
    } else {
        s
    }
}

/// The table after one reference to the frame that holds address `a` is
/// dropped; addresses past the table change nothing.
pub open spec fn decref_at(s: Seq<FrameState>, a: u64) -> Seq<FrameState> {
    if frame_of(a) < s.len() {
        s.update(frame_of(a), decref_state(s[frame_of(a)]))
    } else {
        s
    }
}

/// A region of the firmware's memory map.
#[derive(Clone, Copy, PartialEq, Eq, Structural, Debug)]
pub struct MemoryRegion {
    pub range: PhysicalRange,
    /// The region is usable RAM.
    pub available: bool,
}

/// The state that a memory-map pass gives a region.
pub open spec fn region_state(available: bool) -> FrameState {
    if available {
        FrameState::Free
    } else {
        FrameState::Unavailable
    }
}

/// The table after the first `n` regions have been applied in order.
pub open spec fn apply_regions(s: Seq<FrameState>, regions: Seq<MemoryRegion>, n: int) -> Seq<
    FrameState,
>
    decreases n,
{
    if n <= 0 {
        s
    } else {
        let prev = apply_regions(s, regions, n - 1);
        set_range_state(prev, regions[n - 1].range, region_state(regions[n - 1].available))
    }
}

/// The packed form of a frame state: 0 no memory, 1 leaked, 2 free, and
/// `2 + n` for `n` references.
#[derive(Clone, Copy, PartialEq, Eq, Structural, Debug)]
struct PageRef(u8);

impl PageRef {
    const NO_MEMORY: u8 = 0;
    const LEAK: u8 = 1;
    const ZERO: u8 = 2;

    spec fn state(self) -> FrameState {
        if self.0 == Self::NO_MEMORY {
            FrameState::Unavailable
        } else if self.0 == Self::LEAK {
            FrameState::Leaked
        } else if self.0 == Self::ZERO {
            FrameState::Free
        } else {
            FrameState::InUse((self.0 - Self::ZERO) as u8)
        }
    }

    fn from_available(available: bool) -> (r: PageRef)
        ensures
            r.state() == region_state(available),
    {
        if available {
            PageRef(Self::ZERO)
        } else {
            PageRef(Self::NO_MEMORY)
        }
    }

    fn leak() -> (r: PageRef)
        ensures
            r.state() == FrameState::Leaked,
    {
        PageRef(Self::LEAK)
    }

    fn to_state(&self) -> (r: FrameState)
        ensures
            r == self.state(),
    {
        match self.count() {
            Some(0) => FrameState::Free,
            Some(n) => FrameState::InUse(n),
            None => if self.0 == Self::LEAK {
                FrameState::Leaked
            } else {
                FrameState::Unavailable
            },
        }
    }

    fn is_usable(&self) -> (r: bool)
        ensures
            r == (self.state() is Free),
    {
        self.0 == Self::ZERO
    }

    /// Leaked or referenced.
    fn in_use(&self) -> (r: bool)
        ensures
            r == (self.state() is Leaked || self.state() is InUse),
    {
        self.0 != Self::ZERO && self.0 != Self::NO_MEMORY
    }

    fn has_references(&self) -> (r: bool)
        ensures
            r == (self.state() is InUse),
    {
        self.0 > Self::ZERO
    }

    fn is_counted(&self) -> (r: bool)
        ensures
            r == (self.state() is Free || self.state() is InUse),
    {
        self.0 >= Self::ZERO
    }

    fn incref(&mut self)
        ensures
            final(self).state() == incref_state(old(self).state()),
    {
        if self.0 == u8::MAX {
            self.0 = Self::LEAK;
        }
        if self.is_counted() {
            self.0 = self.0 + 1;
        }
    }

    fn decref(&mut self)
        ensures
            final(self).state() == decref_state(old(self).state()),
    {
        if self.has_references() {
            self.0 = self.0 - 1;
        }
    }

    fn count(&self) -> (r: Option<u8>)
        ensures
            r == match self.state() {
                FrameState::Free => Some(0u8),
                FrameState::InUse(n) => Some(n),
                _ => None,
            },
    {
        if self.is_counted() {
            Some(self.0 - Self::ZERO)
        } else {
            None
        }
    }
}

/// The frame table: one state for each frame of physical memory.
pub struct PhysicalMap {
    map: Vec<PageRef>,
}

impl View for PhysicalMap {
    type V = Seq<FrameState>;

    closed spec fn view(&self) -> Seq<FrameState> {
        self.map@.map_values(|r: PageRef| r.state())
    }
}

/// Frame counts by state, as returned by `PhysicalMap::summarize`.
#[derive(Clone, Copy, PartialEq, Eq, Structural, Debug)]
pub struct MemorySummary {
    /// Frames that are referenced or leaked.
    pub in_use: u64,
    /// Free frames.
    pub available: u64,
}

impl PhysicalMap {
    #[verifier::type_invariant]
    spec fn inv(&self) -> bool {
        self.map@.len() <= MAX_FRAMES
    }

    /// Number of frames in the kernel's own table: 64 MiB of memory.
    pub const PAGE_COUNT: usize = 0x4000;

    /// A table of `frame_count` frames, none of them backed by memory.
    pub fn new(frame_count: usize) -> (r: Self)
        requires
            frame_count <= MAX_FRAMES,
        ensures
            r@ == Seq::new(frame_count as nat, |i: int| FrameState::Unavailable),
    {
        let mut map: Vec<PageRef> = Vec::new();
        while map.len() < frame_count
            invariant
                map@.len() <= frame_count,
                forall|i: int| 0 <= i < map@.len() ==> #[trigger] map@[i].state() is Unavailable,
            decreases frame_count - map@.len(),
        {
            map.push(PageRef(PageRef::NO_MEMORY));
        }
        let r = PhysicalMap { map };
        assert(r@ =~= Seq::new(frame_count as nat, |i: int| FrameState::Unavailable));
        r
    }

    /// Replaces the state of frame `index`.
    fn store(&mut self, index: usize, v: PageRef)
        requires
            index < old(self).map@.len(),
        ensures
            final(self).map@ == old(self).map@.update(index as int, v),
    {
        proof {
            use_type_invariant(&*self);
        }
        let mut map: Vec<PageRef> = Vec::new();
        std::mem::swap(&mut self.map, &mut map);
        map.set(index, v);
        std::mem::swap(&mut self.map, &mut map);
    }

    /// Number of frames in the table.
    pub fn len(&self) -> (r: usize)
        ensures
            r == self@.len(),
            r <= MAX_FRAMES,
    {
        proof {
            use_type_invariant(self);
        }
        self.map.len()
    }

    /// The state of the frame that holds `p`.
    pub fn state(&self, p: PhysicalAddress) -> (r: FrameState)
        ensures
            r == state_at(self@, p.0),
    {
        let i = p.page_index();
        if i < self.map.len() as u64 {
            self.map[i as usize].to_state()
        } else {
            FrameState::Unavailable
        }
    }

    fn set_index(&mut self, index: usize, v: PageRef)
        ensures
            final(self)@ == if index < old(self)@.len() {
                old(self)@.update(index as int, merge_state(old(self)@[index as int], v.state()))
            } else {
                old(self)@
            },
    {
        if index >= self.map.len() {
            return;
        }
        let current = self.map[index];
        if current.0 == PageRef::NO_MEMORY || v.0 == PageRef::LEAK {
            self.store(index, v);
        }
        proof {
            assert(self@ =~= old(self)@.update(
                index as int,
                merge_state(old(self)@[index as int], v.state()),
            ));
        }
    }

    /// Marks as `v` every frame with index in `base..top`.
    fn set_index_range(&mut self, base: u64, top: u64, v: PageRef)
        ensures
            final(self)@ == Seq::new(
                old(self)@.len(),
                |i: int|
                    if base <= i < top {
                        merge_state(old(self)@[i], v.state())
                    } else {
                        old(self)@[i]
                    },
            ),
    {
        let len = self.map.len();
        let stop: u64 = if top < len as u64 {
            top
        } else {
            len as u64
        };
        let mut i: u64 = base;
        while i < stop
            invariant
                stop <= len,
                len == self@.len(),
                len == old(self)@.len(),
                stop <= top,
                base <= i,
                i <= stop || i == base,
                forall|j: int|
                    0 <= j < len ==> #[trigger] self@[j] == if base <= j < i {
                        merge_state(old(self)@[j], v.state())
                    } else {
                        old(self)@[j]
                    },
            decreases stop - i,
        {
            self.set_index(i as usize, v);
            i = i + 1;
        }
        assert(self@ =~= Seq::new(
            old(self)@.len(),
            |j: int|
                if base <= j < top {
                    merge_state(old(self)@[j], v.state())
                } else {
                    old(self)@[j]
                },
        ));
    }

    fn set_range(&mut self, p: PhysicalRange, v: PageRef)
        ensures
            final(self)@ == set_range_state(old(self)@, p, v.state()),
    {
        let base = p.base_page_index();
        let top = p.top_page_index();
        self.set_index_range(base, top, v);
        assert(self@ =~= set_range_state(old(self)@, p, v.state()));
    }

    /// Takes one more reference to the frame that holds `p`.
    pub fn incref(&mut self, p: PhysicalAddress)
        ensures
            final(self)@ == incref_at(old(self)@, p.0),
    {
        proof {
            use_type_invariant(&*self);
        }
        if p.page_index() >= self.map.len() as u64 {
            return;
        }
        let i = p.page_index() as usize;
        let mut r = self.map[i];
        r.incref();
        self.store(i, r);
        assert(self@ =~= old(self)@.update(frame_of(p.0), incref_state(old(self)@[frame_of(p.0)])));
    }

    /// Drops one reference to the frame that holds `p`.
    pub fn decref(&mut self, p: PhysicalAddress)
        ensures
            final(self)@ == decref_at(old(self)@, p.0),
    {
        proof {
            use_type_invariant(&*self);
        }
        if p.page_index() >= self.map.len() as u64 {
            return;
        }
        let i = p.page_index() as usize;
        let mut r = self.map[i];
        r.decref();
        self.store(i, r);
        assert(self@ =~= old(self)@.update(frame_of(p.0), decref_state(old(self)@[frame_of(p.0)])));
    }

    /// Index of the lowest free frame.
    pub fn usable_index(&self) -> (r: Option<usize>)
        ensures
            r == if first_free(self@) < self@.len() {
                Some(first_free(self@) as usize)
            } else {
                None::<usize>
            },
    {
        let mut i: usize = 0;
        while i < self.map.len()
            invariant
                i <= self@.len(),
                self@.len() == self.map@.len(),
                first_free(self@) == first_free_from(self@, i as int),
            decreases self@.len() - i,
        {
            if self.map[i].is_usable() {
                return Some(i);
            }
            i = i + 1;
        }
        None
    }

    /// Hands out the lowest free frame with one reference.
    pub fn alloc_frame(&mut self) -> (r: Result<PhysicalAddress, MemoryError>)
        ensures
            final(self)@ == alloc_state(old(self)@),
            r matches Ok(a) ==> a.0 % PAGE_SIZE == 0 && frame_of(a.0) == first_free(old(self)@),
            r == if first_free(old(self)@) < old(self)@.len() {
                Ok::<PhysicalAddress, MemoryError>(
                    PhysicalAddress((first_free(old(self)@) * PAGE_SIZE) as u64),
                )
            } else {
                Err::<PhysicalAddress, MemoryError>(MemoryError::OutOfMemory)
            },
    {
        proof {
            use_type_invariant(&*self);
            lemma_first_free_bounds(self@, 0);
        }
        match self.usable_index() {
            Some(i) => {
                let page = PhysicalAddress(i as u64 * PAGE_SIZE);
                self.incref(page);
                Ok(page)
            },
            None => Err(MemoryError::OutOfMemory),
        }
    }

    /// Bytes held by frames that are referenced or leaked, and bytes free.
    pub fn summarize(&self) -> (r: MemorySummary)
        ensures
            r.in_use == held_count(self@) * PAGE_SIZE,
            r.available == free_count(self@) * PAGE_SIZE,
    {
        proof {
            use_type_invariant(self);
        }
        let mut in_use: u64 = 0;
        let mut available: u64 = 0;
        let mut i: usize = self.map.len();
        while i > 0
            invariant
                i <= self@.len(),
                self@.len() == self.map@.len(),
                self@.len() <= MAX_FRAMES,
                in_use == held_count_from(self@, i as int) * PAGE_SIZE,
                available == free_count_from(self@, i as int) * PAGE_SIZE,
            decreases i,
        {
            proof {
                lemma_counts_bounded(self@, (i - 1) as int);
            }
            i = i - 1;
            if self.map[i].in_use() {
                in_use = in_use + PAGE_SIZE;
            } else if self.map[i].is_usable() {
                available = available + PAGE_SIZE;
            }
        }
        MemorySummary { in_use, available }
    }

    /// Drops the reference that an allocation took.
    pub fn free(&mut self, p: PhysicalAddress)
        ensures
            final(self)@ == decref_at(old(self)@, p.0),
    {
        self.decref(p);
    }
}

/// Marks every frame that overlaps `r` as leaked, for good.
pub fn leak(map: &mut PhysicalMap, r: PhysicalRange)
    ensures
        final(map)@ == set_range_state(old(map)@, r, FrameState::Leaked),
{
    map.set_range(r, PageRef::leak());
}

/// Hands out the lowest free frame with one reference.
pub fn alloc_frame(map: &mut PhysicalMap) -> (r: Result<PhysicalAddress, MemoryError>)
    ensures
        final(map)@ == alloc_state(old(map)@),
        r matches Ok(a) ==> a.0 % PAGE_SIZE == 0 && frame_of(a.0) == first_free(old(map)@),
        r == if first_free(old(map)@) < old(map)@.len() {
            Ok::<PhysicalAddress, MemoryError>(
                PhysicalAddress((first_free(old(map)@) * PAGE_SIZE) as u64),
            )
        } else {
            Err::<PhysicalAddress, MemoryError>(MemoryError::OutOfMemory)
        },
{
    map.alloc_frame()
}

/// Allocates a frame as `alloc_frame` does and clears its bytes.
pub fn alloc_zero(map: &mut PhysicalMap, mem: &mut PhysicalMemory) -> (r: Result<
    PhysicalAddress,
    MemoryError,
>)
    requires
        old(mem).wf(),
        old(mem).frames() == old(map)@.len(),
    ensures
        final(map)@ == alloc_state(old(map)@),
        r == if first_free(old(map)@) < old(map)@.len() {
            Ok::<PhysicalAddress, MemoryError>(
                PhysicalAddress((first_free(old(map)@) * PAGE_SIZE) as u64),
            )
        } else {
            Err::<PhysicalAddress, MemoryError>(MemoryError::OutOfMemory)
        },
        r matches Ok(a) ==> a.0 % PAGE_SIZE == 0 && frame_of(a.0) == first_free(old(map)@),
        final(mem).wf(),
        final(mem)@.len() == old(mem)@.len(),
        forall|i: int|
            0 <= i < old(mem)@.len() ==> #[trigger] final(mem)@[i] == if r is Ok && first_free(
                old(map)@,
            ) * 512 <= i < first_free(old(map)@) * 512 + 512 {
                0
            } else {
                old(mem)@[i]
            },
{
    proof {
        lemma_first_free_bounds(map@, 0);
    }
    let r = map.alloc_frame();
    if let Ok(page) = r {
        mem.zero_frame(PhysicalPage(page.0));
    }
    r
}

/// Drops the reference that an allocation took; a frame without references
/// stays as it is.
pub fn free(map: &mut PhysicalMap, p: PhysicalAddress)
    ensures
        final(map)@ == decref_at(old(map)@, p.0),
{
    map.free(p)
}

/// Fills the table from the firmware's memory map: available regions become
/// free, the rest stays without memory, and then the kernel image is leaked
/// whatever the map said.
pub fn map_init(map: &mut PhysicalMap, regions: &Vec<MemoryRegion>, kernel: PhysicalRange)
    ensures
        final(map)@ == set_range_state(
            apply_regions(old(map)@, regions@, regions@.len() as int),
            kernel,
            FrameState::Leaked,
        ),
{
    let mut k: usize = 0;
    while k < regions.len()
        invariant
            k <= regions@.len(),
            map@ == apply_regions(old(map)@, regions@, k as int),
        decreases regions@.len() - k,
    {
        let region = regions[k];
        map.set_range(region.range, PageRef::from_available(region.available));
        k = k + 1;
    }
    map.set_range(kernel, PageRef::leak());
}

/// Where the lowest free frame can be.
pub proof fn lemma_first_free_bounds(s: Seq<FrameState>, i: int)
    requires
        0 <= i <= s.len(),
    ensures
        i <= first_free_from(s, i) <= s.len(),
        first_free_from(s, i) < s.len() ==> s[first_free_from(s, i)] is Free,
        forall|j: int| i <= j < first_free_from(s, i) ==> !(#[trigger] s[j] is Free),
    decreases s.len() - i,
{
    if i < s.len() && !(s[i] is Free) {
        lemma_first_free_bounds(s, i + 1);
    }
}


/// Counts of the frames at or after `i` stay within the frames there.
proof fn lemma_counts_bounded(s: Seq<FrameState>, i: int)
    requires
        0 <= i <= s.len(),
    ensures
        free_count_from(s, i) + held_count_from(s, i) <= s.len() - i,
    decreases s.len() - i,
{
    if i < s.len() {
        lemma_counts_bounded(s, i + 1);
    }
}

} // verus!
