//! Four-level page tables: walks, lookups, and the creation of missing
//! intermediate tables on the way to a leaf.
use vstd::prelude::*;

use crate::frame_proofs::{alloc_n, lemma_alloc_prefix, lemma_free_count_positive};
use crate::memory::{
    entry_frame, frame_of, is_frame_address, is_present, lemma_entry_fields, lemma_small_flags,
    slot, MemoryError, PageTableEntry, PhysicalAddress, PhysicalMemory, PhysicalPage,
    VirtualAddress, HIGHER_HALF, MAX_FRAMES, PAGE_ADDR_MASK, PAGE_PRESENT, PAGE_SIZE, PAGE_TABLE_FLAGS,
    PAGE_USERMODE,
};
use crate::phy_map::{
    alloc_state, alloc_zero, first_free, free_count, lemma_first_free_bounds, FrameState,
    PhysicalMap,
};

verus! {

/// The index into the table of level `level` (4 is the root, 1 holds the
/// leaves) that virtual address `v` selects: nine bits above bit `12 + 9 * (level - 1)`.
pub open spec fn table_index(v: u64, level: int) -> int {
    ((v >> ((12 + 9 * (level - 1)) as u64)) & 0x1FF) as int
}

/// Entry `i` of the table in frame `t`.
pub open spec fn entry_of(mem: Seq<u64>, t: u64, i: int) -> u64 {
    mem[slot(t, i)]
}

/// The table of level `target` that a walk for `v` reaches from table `t`
/// of level `level`, or `None` where an entry on the way is absent.
pub open spec fn descend(mem: Seq<u64>, t: u64, v: u64, level: int, target: int) -> Option<u64>
    decreases level - target,
{
    if level <= target {
        Some(t)
    } else {
        let e = entry_of(mem, t, table_index(v, level));
        if !is_present(e) {
            None
        } else {
            descend(mem, entry_frame(e), v, level - 1, target)
        }
    }
}

/// The leaf entry for `v` under root table `root`, if every level above it is present.
pub open spec fn lookup(mem: Seq<u64>, root: u64, v: u64) -> Option<u64> {
    match descend(mem, root, v, 4, 1) {
        Some(t) => Some(entry_of(mem, t, table_index(v, 1))),
        None => None,
    }
}

/// Number of tables that must be created below table `t` of level `level`
/// before `v` has a leaf entry.
pub open spec fn missing_from(mem: Seq<u64>, t: u64, v: u64, level: int) -> nat
    decreases level,
{
    if level <= 1 {
        0
    } else {
        let e = entry_of(mem, t, table_index(v, level));
        if !is_present(e) {
            (level - 1) as nat
        } else {
            missing_from(mem, entry_frame(e), v, level - 1)
        }
    }
}

/// Number of intermediate tables that mapping `v` under `root` must create.
pub open spec fn missing_tables(mem: Seq<u64>, root: u64, v: u64) -> nat {
    missing_from(mem, root, v, 4)
}

/// The entry at level `level` on the walk for `v` from `root`, if the walk
/// gets that far.
pub open spec fn path_entry(mem: Seq<u64>, root: u64, v: u64, level: int) -> Option<u64> {
    match descend(mem, root, v, 4, level) {
        Some(t) => Some(entry_of(mem, t, table_index(v, level))),
        None => None,
    }
}

/// `o` is an entry with the present bit.
pub open spec fn present_entry(o: Option<u64>) -> bool {
    o matches Some(e) && is_present(e)
}

/// Flags of an entry that links a table created on the way to `v`:
/// present and writeable, and user-accessible below the higher half.
pub open spec fn table_flags(v: u64) -> u64 {
    if v > HIGHER_HALF {
        PAGE_TABLE_FLAGS
    } else {
        PAGE_TABLE_FLAGS | PAGE_USERMODE
    }
}

/// The frame that the `j`-th allocation (counting from 0) hands out from
/// frame table `frames`, when allocations follow one another.
pub open spec fn created_frame(frames: Seq<FrameState>, j: nat) -> u64 {
    (first_free(alloc_n(frames, j)) * PAGE_SIZE) as u64
}

/// Which allocation of `map(v, ..)`, counting from 0, creates the table
/// linked at level `level`: the tables are made top-down.
pub open spec fn creation_order(mem0: Seq<u64>, root: u64, v: u64, level: int) -> nat {
    (missing_tables(mem0, root, v) + 1 - level) as nat
}

/// After `map(v, ..)` took memory from `mem0` to `mem` and the frame table
/// from `frames0` on, the entry at level `level` on the walk for `v` is
/// present: the entry that was there if it was present, else a link to the
/// frame of the matching allocation with `table_flags(v)`.
pub open spec fn path_linked(
    mem0: Seq<u64>,
    frames0: Seq<FrameState>,
    mem: Seq<u64>,
    root: u64,
    v: u64,
    level: int,
) -> bool {
    &&& present_entry(path_entry(mem, root, v, level))
    &&& present_entry(path_entry(mem0, root, v, level)) ==> path_entry(mem, root, v, level)
        == path_entry(mem0, root, v, level)
    &&& !present_entry(path_entry(mem0, root, v, level)) ==> path_entry(mem, root, v, level)
        == Some(created_frame(frames0, creation_order(mem0, root, v, level)) | table_flags(v))
}

/// A table that `map(v, ..)` created for level `level - 1` holds nothing but
/// the entry on the walk for `v`.
pub open spec fn created_table_clear(
    mem0: Seq<u64>,
    frames0: Seq<FrameState>,
    mem: Seq<u64>,
    root: u64,
    v: u64,
    level: int,
) -> bool {
    !present_entry(path_entry(mem0, root, v, level)) ==> forall|i: int|
        0 <= i < 512 && i != table_index(v, level - 1) ==> #[trigger] entry_of(
            mem,
            created_frame(frames0, creation_order(mem0, root, v, level)),
            i,
        ) == 0
}

/// Index of the word that holds the leaf entry for `v`, if every table
/// above it is present.
pub open spec fn leaf_slot(mem: Seq<u64>, root: u64, v: u64) -> Option<int> {
    match descend(mem, root, v, 4, 1) {
        Some(t) => Some(slot(t, table_index(v, 1))),
        None => None,
    }
}

/// The leaf entry that `map` installs.
pub open spec fn leaf_entry(p: PhysicalPage, flags: u64) -> u64 {
    p.0 | (flags | PAGE_PRESENT)
}

/// Every table of `tables` lies in memory and has a level from 1 to 4, and
/// every present entry of a table above level 1 names a table of `tables`
/// one level down.
spec fn tables_closed(tables: Map<u64, int>, mem: Seq<u64>) -> bool {
    &&& mem.len() % 512 == 0
    &&& mem.len() / 512 <= MAX_FRAMES
    &&& forall|t: u64| #[trigger]
        tables.contains_key(t) ==> is_frame_address(t) && frame_of(t) < mem.len() / 512 && 1
            <= tables[t] <= 4
    &&& forall|t: u64, i: int|
        #![trigger entry_of(mem, t, i)]
        tables.contains_key(t) && tables[t] >= 2 && 0 <= i < 512 && is_present(entry_of(mem, t, i))
            ==> tables.contains_key(entry_frame(entry_of(mem, t, i))) && tables[entry_frame(
            entry_of(mem, t, i),
        )] == tables[t] - 1
}

/// The table created for level `level - 1` by `map(v, ..)` is one of
/// `tables`, at that level.
spec fn created_in(
    tables: Map<u64, int>,
    mem0: Seq<u64>,
    frames0: Seq<FrameState>,
    root: u64,
    v: u64,
    level: int,
) -> bool {
    !present_entry(path_entry(mem0, root, v, level)) ==> {
        let c = created_frame(frames0, creation_order(mem0, root, v, level));
        tables.contains_key(c) && tables[c] == level - 1
    }
}

/// `m1` and `m2` agree on every entry of every table above level `target`.
spec fn same_above(tables: Map<u64, int>, m1: Seq<u64>, m2: Seq<u64>, target: int) -> bool {
    forall|t: u64, i: int|
        #![trigger entry_of(m1, t, i)]
        #![trigger entry_of(m2, t, i)]
        tables.contains_key(t) && tables[t] > target && 0 <= i < 512 ==> entry_of(m1, t, i)
            == entry_of(m2, t, i)
}

proof fn lemma_same_above_mono(tables: Map<u64, int>, m1: Seq<u64>, m2: Seq<u64>, a: int, b: int)
    requires
        a <= b,
        same_above(tables, m1, m2, a),
    ensures
        same_above(tables, m1, m2, b),
{
}

/// A walk for `v` that reached level `level` in both memories reads the same
/// entry there when the memories agree on the tables at and above that level.
proof fn lemma_path_entry_frame(
    tables: Map<u64, int>,
    m1: Seq<u64>,
    m2: Seq<u64>,
    root: u64,
    v: u64,
    level: int,
)
    requires
        tables_closed(tables, m1),
        tables.contains_key(root),
        tables[root] == 4,
        1 <= level <= 4,
        same_above(tables, m1, m2, level - 1),
    ensures
        path_entry(m1, root, v, level) == path_entry(m2, root, v, level),
{
    lemma_same_above_mono(tables, m1, m2, level - 1, level);
    lemma_descend_frame(tables, m1, m2, root, v, 4, level);
    lemma_index_bound(v, level);
}

/// A walk through present entries of tables above level 1 is kept by any
/// change that keeps those entries.
proof fn lemma_descend_present_frame(
    tables: Map<u64, int>,
    m1: Seq<u64>,
    m2: Seq<u64>,
    t: u64,
    v: u64,
    level: int,
)
    requires
        tables_closed(tables, m1),
        tables.contains_key(t),
        tables[t] == level,
        1 <= level,
        forall|u: u64, i: int|
            #![trigger entry_of(m2, u, i)]
            tables.contains_key(u) && tables[u] >= 2 && 0 <= i < 512 && is_present(entry_of(m1, u, i))
                ==> entry_of(m2, u, i) == entry_of(m1, u, i),
    ensures
        descend(m1, t, v, level, 1) is Some ==> descend(m2, t, v, level, 1) == descend(
            m1,
            t,
            v,
            level,
            1,
        ),
        descend(m1, t, v, level, 1) matches Some(u) ==> tables.contains_key(u) && tables[u] == 1,
    decreases level,
{
    if level > 1 {
        lemma_index_bound(v, level);
        let e = entry_of(m1, t, table_index(v, level));
        if is_present(e) {
            assert(entry_of(m2, t, table_index(v, level)) == e);
            lemma_descend_present_frame(tables, m1, m2, entry_frame(e), v, level - 1);
        }
    }
}

/// A walk through memory `m` whose tables `tables` extend the tables
/// `tables0` of memory `mem0`, where every entry that changed, and every
/// entry of a new table, links only to new tables: it ends at a new table,
/// or where the walk in `mem0` ended.
proof fn lemma_walk_into_new(
    tables: Map<u64, int>,
    tables0: Map<u64, int>,
    m: Seq<u64>,
    mem0: Seq<u64>,
    t: u64,
    w: u64,
    k: int,
)
    requires
        tables_closed(tables, m),
        tables.contains_key(t),
        tables[t] == k,
        1 <= k,
        forall|u: u64| #[trigger]
            tables0.contains_key(u) ==> tables.contains_key(u) && tables[u] == tables0[u],
        forall|u: u64, i: int|
            #![trigger entry_of(m, u, i)]
            tables.contains_key(u) && !tables0.contains_key(u) && tables[u] >= 2 && 0 <= i < 512
                && is_present(entry_of(m, u, i)) ==> !tables0.contains_key(
                entry_frame(entry_of(m, u, i)),
            ),
        forall|u: u64, i: int|
            #![trigger entry_of(m, u, i)]
            tables0.contains_key(u) && tables0[u] >= 2 && 0 <= i < 512 && entry_of(m, u, i)
                != entry_of(mem0, u, i) && is_present(entry_of(m, u, i)) ==> !tables0.contains_key(
                entry_frame(entry_of(m, u, i)),
            ),
    ensures
        descend(m, t, w, k, 1) matches Some(u) ==> !tables0.contains_key(u) || (
        tables0.contains_key(t) && descend(mem0, t, w, k, 1) == Some(u)),
    decreases k,
{
    if k > 1 {
        lemma_index_bound(w, k);
        let e = entry_of(m, t, table_index(w, k));
        if is_present(e) {
            lemma_walk_into_new(tables, tables0, m, mem0, entry_frame(e), w, k - 1);
        }
    }
}

proof fn lemma_link_flags(n: u64, f: u64)
    requires
        n % PAGE_SIZE == 0,
        f < 0x1000,
    ensures
        (n | f) & 0xFFF == f,
{
    assert((n | f) & 0xFFF == f) by (bit_vector)
        requires
            n % 0x1000 == 0,
            f < 0x1000,
    ;
}

proof fn lemma_index_bound(v: u64, level: int)
    ensures
        0 <= table_index(v, level) < 512,
{
    let x = v >> ((12 + 9 * (level - 1)) as u64);
    assert(x & 0x1FF < 512) by (bit_vector);
}

/// Entries of distinct tables lie in distinct words.
proof fn lemma_slots_distinct(t1: u64, i1: int, t2: u64, i2: int)
    requires
        t1 % PAGE_SIZE == 0,
        t2 % PAGE_SIZE == 0,
        0 <= i1 < 512,
        0 <= i2 < 512,
    ensures
        slot(t1, i1) == slot(t2, i2) <==> t1 == t2 && i1 == i2,
{
}

/// A walk that stays above level `target` reads only tables above that
/// level, and it ends at a table of level `target`.
proof fn lemma_descend_frame(
    tables: Map<u64, int>,
    m1: Seq<u64>,
    m2: Seq<u64>,
    t: u64,
    v: u64,
    level: int,
    target: int,
)
    requires
        tables_closed(tables, m1),
        tables.contains_key(t),
        tables[t] == level,
        1 <= target <= level,
        same_above(tables, m1, m2, target),
    ensures
        descend(m1, t, v, level, target) == descend(m2, t, v, level, target),
        descend(m1, t, v, level, target) matches Some(u) ==> tables.contains_key(u) && tables[u]
            == target,
    decreases level - target,
{
    if level > target {
        lemma_index_bound(v, level);
        let e = entry_of(m1, t, table_index(v, level));
        assert(e == entry_of(m2, t, table_index(v, level)));
        if is_present(e) {
            lemma_descend_frame(tables, m1, m2, entry_frame(e), v, level - 1, target);
        }
    }
}

/// The count of missing tables reads only tables above level 1.
proof fn lemma_missing_frame(
    tables: Map<u64, int>,
    m1: Seq<u64>,
    m2: Seq<u64>,
    t: u64,
    v: u64,
    level: int,
)
    requires
        tables_closed(tables, m1),
        tables.contains_key(t),
        tables[t] == level,
        same_above(tables, m1, m2, 1),
    ensures
        missing_from(m1, t, v, level) == missing_from(m2, t, v, level),
        missing_from(m1, t, v, level) <= if level >= 1 { level - 1 } else { 0 },
    decreases level,
{
    if level > 1 {
        lemma_index_bound(v, level);
        let e = entry_of(m1, t, table_index(v, level));
        assert(e == entry_of(m2, t, table_index(v, level)));
        if is_present(e) {
            lemma_missing_frame(tables, m1, m2, entry_frame(e), v, level - 1);
        }
    }
}

/// A walk to level `target - 1` is a walk to level `target` and one step more.
proof fn lemma_descend_extend(mem: Seq<u64>, t: u64, v: u64, level: int, target: int)
    requires
        1 < target <= level,
    ensures
        descend(mem, t, v, level, target - 1) == match descend(mem, t, v, level, target) {
            Some(u) => if is_present(entry_of(mem, u, table_index(v, target))) {
                Some(entry_frame(entry_of(mem, u, table_index(v, target))))
            } else {
                None
            },
            None => None,
        },
    decreases level - target,
{
    let e = entry_of(mem, t, table_index(v, level));
    if level > target {
        if is_present(e) {
            lemma_descend_extend(mem, entry_frame(e), v, level - 1, target);
        }
    } else if is_present(e) {
        assert(descend(mem, entry_frame(e), v, level - 1, target - 1) == Some(entry_frame(e)));
    }
}

/// No table is missing exactly when the walk reaches level 1.
proof fn lemma_missing_zero(mem: Seq<u64>, t: u64, v: u64, level: int)
    requires
        level >= 1,
    ensures
        (missing_from(mem, t, v, level) == 0) == (descend(mem, t, v, level, 1) is Some),
    decreases level,
{
    if level > 1 {
        let e = entry_of(mem, t, table_index(v, level));
        if is_present(e) {
            lemma_missing_zero(mem, entry_frame(e), v, level - 1);
        }
    }
}

/// Walks for two addresses that select the same entries above level
/// `target` reach the same table.
proof fn lemma_descend_same_path(mem: Seq<u64>, t: u64, v1: u64, v2: u64, level: int, target: int)
    requires
        forall|l: int| target < l <= level ==> table_index(v1, l) == table_index(v2, l),
    ensures
        descend(mem, t, v1, level, target) == descend(mem, t, v2, level, target),
    decreases level - target,
{
    if level > target {
        let e = entry_of(mem, t, table_index(v1, level));
        if is_present(e) {
            lemma_descend_same_path(mem, entry_frame(e), v1, v2, level - 1, target);
        }
    }
}

/// Once `map(v, p, flags)` has installed its leaf, the entry that `pte(v)`
/// returns names frame `p` and is present, for a frame address `p` and
/// flags clear of the address bits.
pub proof fn lemma_map_then_pte(mem: Seq<u64>, root: u64, v: u64, p: PhysicalPage, flags: u64)
    requires
        lookup(mem, root, v) == Some(leaf_entry(p, flags)),
        is_frame_address(p.0),
        flags & PAGE_ADDR_MASK == 0,
    ensures
        lookup(mem, root, v) matches Some(e) && entry_frame(e) == p.0 && is_present(e),
{
    assert((flags | 1) & 0x000F_FFFF_FFFF_F000 == 0 && (flags | 1) & 1 != 0) by (bit_vector)
        requires
            flags & 0x000F_FFFF_FFFF_F000 == 0,
    ;
    lemma_entry_fields(p.0, flags | PAGE_PRESENT);
}

/// Once `unmap(v)` has cleared its leaf, the entry that `pte(v)` returns is
/// not present.
pub proof fn lemma_unmap_then_pte(mem: Seq<u64>, root: u64, v: u64)
    requires
        lookup(mem, root, v) == Some(0u64),
    ensures
        lookup(mem, root, v) matches Some(e) && !is_present(e),
{
    assert(0u64 & 1 == 0) by (bit_vector);
}

/// Two addresses that differ only below bit 21 walk through the same tables
/// down to level 1: once one of them has a leaf, mapping the other needs no
/// new table, so their shared tables are created once.
pub proof fn lemma_same_region_shares_tables(mem: Seq<u64>, root: u64, v1: u64, v2: u64)
    requires
        v1 >> 21 == v2 >> 21,
        lookup(mem, root, v1) is Some,
    ensures
        descend(mem, root, v1, 4, 1) == descend(mem, root, v2, 4, 1),
        missing_tables(mem, root, v2) == 0,
{
    assert((v1 >> 21u64) & 0x1FF == (v2 >> 21u64) & 0x1FF && (v1 >> 30u64) & 0x1FF == (v2
        >> 30u64) & 0x1FF && (v1 >> 39u64) & 0x1FF == (v2 >> 39u64) & 0x1FF) by (bit_vector)
        requires
            v1 >> 21 == v2 >> 21,
    ;
    assert forall|l: int| 1 < l <= 4 implies table_index(v1, l) == table_index(v2, l) by {
        if l == 2 {
            assert((12 + 9 * (l - 1)) as u64 == 21u64);
        } else if l == 3 {
            assert((12 + 9 * (l - 1)) as u64 == 30u64);
        } else {
            assert((12 + 9 * (l - 1)) as u64 == 39u64);
        }
    }
    lemma_descend_same_path(mem, root, v1, v2, 4, 1);
    lemma_missing_zero(mem, root, v2, 4);
}

/// In a well-formed address space the root frame is held in the frame
/// table, and so is every frame that a present entry above the leaves names
/// on any walk: such entries name frames of the same table, never foreign ones.
pub proof fn lemma_tables_held(
    pt: PageTable,
    mem: Seq<u64>,
    frames: Seq<FrameState>,
    w: u64,
    level: int,
)
    requires
        pt.wf(mem, frames),
    ensures
        frame_of(pt.root_addr()) < frames.len(),
        frames[frame_of(pt.root_addr())] is InUse,
        2 <= level <= 4 && present_entry(path_entry(mem, pt.root_addr(), w, level)) ==> {
            let f = entry_frame(path_entry(mem, pt.root_addr(), w, level).unwrap());
            &&& is_frame_address(f)
            &&& frame_of(f) < frames.len()
            &&& frames[frame_of(f)] is InUse
        },
{
    let tables = pt.tables@;
    let root = pt.root.0;
    assert(pt.valid(mem) && pt.holds(frames));
    assert(tables.contains_key(root));
    if 2 <= level <= 4 && present_entry(path_entry(mem, root, w, level)) {
        lemma_descend_frame(tables, mem, mem, root, w, 4, level);
        lemma_index_bound(w, level);
        let t = descend(mem, root, w, 4, level).unwrap();
        let e = entry_of(mem, t, table_index(w, level));
        assert(tables.contains_key(entry_frame(e)));
    }
}

/// An address space: the frame of its root table, and the level of each
/// table frame that belongs to it.
pub struct PageTable {
    pub root: PhysicalPage,
    /// The level of each table frame of this address space.
    pub tables: Ghost<Map<u64, int>>,
}

impl PageTable {
    /// Address of the root table.
    pub open spec fn root_addr(&self) -> u64 {
        self.root.0
    }

    /// The tables are laid out in `mem` as a tree of levels below the root.
    pub closed spec fn valid(&self, mem: Seq<u64>) -> bool {
        &&& tables_closed(self.tables@, mem)
        &&& self.tables@.contains_key(self.root.0)
        &&& self.tables@[self.root.0] == 4
    }

    /// Every table frame is held in `frames`, so no allocation can hand one
    /// out again.
    pub closed spec fn holds(&self, frames: Seq<FrameState>) -> bool {
        forall|t: u64| #[trigger] self.tables@.contains_key(t) ==> frames[frame_of(t)] is InUse
    }

    /// Valid in `mem`, with every table frame held in `frames`, a table of
    /// the frames of `mem`.
    pub open spec fn wf(&self, mem: Seq<u64>, frames: Seq<FrameState>) -> bool {
        &&& self.valid(mem)
        &&& mem.len() == frames.len() * 512
        &&& self.holds(frames)
    }

    /// The index into the table of level `level` that `v` selects.
    fn offset(v: VirtualAddress, level: u64) -> (r: usize)
        requires
            1 <= level <= 4,
        ensures
            r == table_index(v.0, level as int),
            r < 512,
    {
        proof {
            lemma_index_bound(v.0, level as int);
        }
        ((v.0 >> (12 + (level - 1) * 9)) & 0x1FF) as usize
    }

    /// The level-1 table that holds the leaf entry for `v`, without creating
    /// any table; the entry is the one at `table_index(v, 1)` there.
    pub fn pte_mut(&self, mem: &PhysicalMemory, v: VirtualAddress) -> (r: Result<
        PhysicalPage,
        MemoryError,
    >)
        requires
            self.valid(mem@),
        ensures
            r == match descend(mem@, self.root_addr(), v.0, 4, 1) {
                Some(t) => Ok::<PhysicalPage, MemoryError>(PhysicalPage(t)),
                None => Err(MemoryError::PageNotPresent),
            },
    {
        let mut table = self.root;
        let mut level: u64 = 4;
        proof {
            lemma_descend_frame(self.tables@, mem@, mem@, table.0, v.0, 4, 1);
        }
        while level > 1
            invariant
                self.valid(mem@),
                1 <= level <= 4,
                self.tables@.contains_key(table.0),
                self.tables@[table.0] == level,
                descend(mem@, self.root_addr(), v.0, 4, 1) == descend(mem@, table.0, v.0, level as int, 1),
            decreases level,
        {
            let e = mem.entry(table, Self::offset(v, level));
            if !e.present() {
                return Err(MemoryError::PageNotPresent);
            }
            table = e.deref();
            level = level - 1;
        }
        Ok(table)
    }

    /// The leaf entry for `v`, if every table above it is present.
    pub fn pte(&self, mem: &PhysicalMemory, v: VirtualAddress) -> (r: Option<PageTableEntry>)
        requires
            self.valid(mem@),
        ensures
            r == match lookup(mem@, self.root_addr(), v.0) {
                Some(e) => Some(PageTableEntry(e)),
                None => None::<PageTableEntry>,
            },
    {
        proof {
            lemma_descend_frame(self.tables@, mem@, mem@, self.root.0, v.0, 4, 1);
        }
        match self.pte_mut(mem, v) {
            Ok(t) => Some(mem.entry(t, Self::offset(v, 1))),
            Err(_) => None,
        }
    }

    /// The physical address that `v` translates to: the frame of its leaf
    /// entry and the offset of `v` in its page.
    pub fn resolve(&self, mem: &PhysicalMemory, v: VirtualAddress) -> (r: Option<PhysicalAddress>)
        requires
            self.valid(mem@),
        ensures
            r == match lookup(mem@, self.root_addr(), v.0) {
                Some(e) => Some(PhysicalAddress(entry_frame(e) | (v.0 % PAGE_SIZE))),
                None => None::<PhysicalAddress>,
            },
    {
        match self.pte(mem, v) {
            Some(pte) => Some(PhysicalAddress(pte.page_usize() | v.page_offset())),
            None => None,
        }
    }

    /// A new address space with a zeroed root table and no mappings.
    pub fn new(frames: &mut PhysicalMap, mem: &mut PhysicalMemory) -> (r: Result<
        PageTable,
        MemoryError,
    >)
        requires
            old(mem).wf(),
            old(mem).frames() == old(frames)@.len(),
        ensures
            final(frames)@ == alloc_state(old(frames)@),
            match r {
                Ok(pt) => {
                    &&& first_free(old(frames)@) < old(frames)@.len()
                    &&& pt.root_addr() == first_free(old(frames)@) * PAGE_SIZE
                    &&& pt.wf(final(mem)@, final(frames)@)
                    &&& forall|v: u64| #[trigger] lookup(final(mem)@, pt.root_addr(), v) is None
                    &&& final(mem)@.len() == old(mem)@.len()
                    &&& forall|i: int|
                        0 <= i < old(mem)@.len() ==> #[trigger] final(mem)@[i] == if frame_of(
                            pt.root_addr(),
                        ) * 512 <= i < frame_of(pt.root_addr()) * 512 + 512 {
                            0
                        } else {
                            old(mem)@[i]
                        }
                },
                Err(e) => {
                    &&& first_free(old(frames)@) == old(frames)@.len()
                    &&& e == MemoryError::OutOfMemory
                    &&& final(mem)@ == old(mem)@
                },
            },
    {
        proof {
            lemma_first_free_bounds(frames@, 0);
        }
        let root = alloc_zero(frames, mem)?;
        let ghost n = root.0;
        let ghost tables = Map::empty().insert(n, 4int);
        proof {
            assert(0u64 & 1 == 0) by (bit_vector);
            assert(frame_of(n) == first_free(old(frames)@));
            assert forall|t: u64, i: int|
                #![trigger entry_of(mem@, t, i)]
                tables.contains_key(t) && tables[t] >= 2 && 0 <= i < 512 implies !is_present(
                entry_of(mem@, t, i),
            ) by {
                assert(entry_of(mem@, t, i) == 0);
            }
            assert forall|v: u64| #[trigger] lookup(mem@, n, v) is None by {
                lemma_index_bound(v, 4);
                assert(entry_of(mem@, n, table_index(v, 4)) == 0);
            }
        }
        Ok(PageTable { root: PhysicalPage(root.0), tables: Ghost(tables) })
    }

    /// Maps page `v` to frame `p` with `flags` and the present bit, creating
    /// each missing table on the way as a zeroed frame linked in as present
    /// and writeable (and user-accessible below the higher half). A mapping
    /// already there is overwritten. Where frames run out, the tables made so
    /// far stay.
    pub fn map(
        &mut self,
        mem: &mut PhysicalMemory,
        frames: &mut PhysicalMap,
        v: VirtualAddress,
        p: PhysicalPage,
        flags: u64,
    ) -> (r: Result<(), MemoryError>)
        requires
            old(self).wf(old(mem)@, old(frames)@),
        ensures
            final(self).root_addr() == old(self).root_addr(),
            final(self).wf(final(mem)@, final(frames)@),
            missing_tables(old(mem)@, old(self).root_addr(), v.0) <= 3,
            (r is Ok) == (missing_tables(old(mem)@, old(self).root_addr(), v.0) <= free_count(
                old(frames)@,
            )),
            r is Ok ==> lookup(final(mem)@, final(self).root_addr(), v.0) == Some(leaf_entry(p, flags)),
            r is Ok ==> forall|w: u64|
                #![trigger lookup(final(mem)@, old(self).root_addr(), w)]
                lookup(old(mem)@, old(self).root_addr(), w) is Some && leaf_slot(
                    old(mem)@,
                    old(self).root_addr(),
                    w,
                ) != leaf_slot(final(mem)@, old(self).root_addr(), v.0) ==> lookup(
                    final(mem)@,
                    old(self).root_addr(),
                    w,
                ) == lookup(old(mem)@, old(self).root_addr(), w),
            r is Ok ==> forall|w: u64|
                #![trigger lookup(final(mem)@, old(self).root_addr(), w)]
                lookup(old(mem)@, old(self).root_addr(), w) is None ==> {
                    ||| lookup(final(mem)@, old(self).root_addr(), w) is None
                    ||| lookup(final(mem)@, old(self).root_addr(), w) == Some(0u64)
                    ||| leaf_slot(final(mem)@, old(self).root_addr(), w) == leaf_slot(
                        final(mem)@,
                        old(self).root_addr(),
                        v.0,
                    )
                },
            r is Err ==> forall|w: u64|
                #![trigger lookup(final(mem)@, old(self).root_addr(), w)]
                lookup(old(mem)@, old(self).root_addr(), w) is Some ==> lookup(
                    final(mem)@,
                    old(self).root_addr(),
                    w,
                ) == lookup(old(mem)@, old(self).root_addr(), w),
            r is Ok ==> forall|l: int|
                2 <= l <= 4 ==> #[trigger] created_table_clear(
                    old(mem)@,
                    old(frames)@,
                    final(mem)@,
                    old(self).root_addr(),
                    v.0,
                    l,
                ),
            r is Ok ==> forall|l: int|
                2 <= l <= 4 ==> #[trigger] path_linked(
                    old(mem)@,
                    old(frames)@,
                    final(mem)@,
                    old(self).root_addr(),
                    v.0,
                    l,
                ),
            r is Ok ==> final(frames)@ == alloc_n(
                old(frames)@,
                missing_tables(old(mem)@, old(self).root_addr(), v.0),
            ),
            r is Ok ==> free_count(final(frames)@) == free_count(old(frames)@) - missing_tables(
                old(mem)@,
                old(self).root_addr(),
                v.0,
            ),
            r is Err ==> r == Err::<(), MemoryError>(MemoryError::OutOfMemory) && final(frames)@
                == alloc_n(old(frames)@, free_count(old(frames)@)),
    {
        let ghost mem0 = mem@;
        let ghost frames0 = frames@;
        let ghost root = self.root.0;
        let ghost mut allocs: nat = 0;
        let ghost mut created = false;
        let ghost tables0 = self.tables@;
        proof {
            lemma_missing_frame(self.tables@, mem@, mem@, root, v.0, 4);
            lemma_descend_frame(self.tables@, mem@, mem@, root, v.0, 4, 4);
        }
        let mut table = self.root;
        let mut level: u64 = 4;
        while level > 1
            invariant
                1 <= level <= 4,
                self.wf(mem@, frames@),
                self.root.0 == root,
                root == old(self).root.0,
                mem0 == old(mem)@,
                frames0 == old(frames)@,
                missing_from(mem0, root, v.0, 4) <= 3,
                self.tables@.contains_key(table.0),
                self.tables@[table.0] == level,
                descend(mem@, root, v.0, 4, level as int) == Some(table.0),
                frames@ == alloc_n(frames0, allocs),
                allocs + missing_from(mem@, table.0, v.0, level as int) == missing_from(
                    mem0,
                    root,
                    v.0,
                    4,
                ),
                allocs <= free_count(frames0),
                frames@.len() == frames0.len(),
                forall|l: int| level < l <= 4 ==> #[trigger] path_linked(mem0, frames0, mem@, root, v.0, l),
                forall|l: int|
                    level < l <= 4 ==> #[trigger] created_table_clear(
                        mem0,
                        frames0,
                        mem@,
                        root,
                        v.0,
                        l,
                    ) && created_in(self.tables@, mem0, frames0, root, v.0, l),
                !created ==> mem@ == mem0,
                created ==> descend(mem0, root, v.0, 4, level as int) is None,
                created ==> forall|i: int| 0 <= i < 512 ==> #[trigger] entry_of(mem@, table.0, i) == 0,
                tables0 == old(self).tables@,
                forall|t: u64| #[trigger]
                    self.tables@.contains_key(t) && !tables0.contains_key(t) ==> self.tables@[t] + 1
                        > level && !present_entry(path_entry(mem0, root, v.0, self.tables@[t] + 1))
                        && t == created_frame(
                        frames0,
                        creation_order(mem0, root, v.0, self.tables@[t] + 1),
                    ),
                forall|t: u64, i: int|
                    #![trigger entry_of(mem@, t, i)]
                    self.tables@.contains_key(t) && !tables0.contains_key(t) && self.tables@[t] >= 2
                        && 0 <= i < 512 && is_present(entry_of(mem@, t, i)) ==> !tables0.contains_key(
                        entry_frame(entry_of(mem@, t, i)),
                    ),
                forall|t: u64, i: int|
                    #![trigger entry_of(mem@, t, i)]
                    tables0.contains_key(t) && tables0[t] >= 2 && 0 <= i < 512 && entry_of(mem@, t, i)
                        != entry_of(mem0, t, i) && is_present(entry_of(mem@, t, i))
                        ==> !tables0.contains_key(entry_frame(entry_of(mem@, t, i))),
                tables_closed(tables0, mem0),
                tables0.contains_key(root) && tables0[root] == 4,
                forall|t: u64| #[trigger]
                    tables0.contains_key(t) ==> self.tables@.contains_key(t) && self.tables@[t]
                        == tables0[t],
                forall|t: u64, i: int|
                    #![trigger entry_of(mem@, t, i)]
                    tables0.contains_key(t) && 0 <= i < 512 && (tables0[t] == 1 || is_present(
                        entry_of(mem0, t, i),
                    )) ==> entry_of(mem@, t, i) == entry_of(mem0, t, i),
            decreases level,
        {
            let idx = Self::offset(v, level);
            let e = mem.entry(table, idx);
            if !e.present() {
                let ghost mem1 = mem@;
                let ghost frames1 = frames@;
                let ghost tables = self.tables@;
                proof {
                    lemma_alloc_prefix(frames0, allocs);
                    lemma_first_free_bounds(frames1, 0);
                    lemma_free_count_positive(frames1, 0);
                }
                let new = match alloc_zero(frames, mem) {
                    Ok(a) => a,
                    Err(err) => {
                        proof {
                            assert(mem@ =~= mem1);
                            assert forall|w: u64|
                                #![trigger lookup(mem@, root, w)]
                                lookup(mem0, root, w) is Some implies lookup(mem@, root, w)
                                == lookup(mem0, root, w) by {
                                lemma_descend_present_frame(tables0, mem0, mem1, root, w, 4);
                                lemma_index_bound(w, 1);
                            }
                        }
                        return Err(err);
                    },
                };
                let ghost n = new.0;
                let ghost mem2 = mem@;
                proof {
                    assert(frames@ == alloc_n(frames0, allocs + 1));
                    assert(frame_of(n) == first_free(frames1));
                    assert(!tables.contains_key(n));
                    assert forall|t: u64, i: int|
                        #![trigger entry_of(mem1, t, i)]
                        #![trigger entry_of(mem2, t, i)]
                        tables.contains_key(t) && 0 <= i < 512 implies entry_of(mem1, t, i)
                        == entry_of(mem2, t, i) by {
                        assert(t != n);
                        assert(frame_of(t) != frame_of(n));
                    }
                    assert(same_above(tables, mem1, mem2, level as int));
                    lemma_descend_frame(tables, mem1, mem2, root, v.0, 4, level as int);
                    assert(self.holds(frames@));
                }
                let table_flags = if v.is_higher_half() {
                    PAGE_TABLE_FLAGS
                } else {
                    PAGE_TABLE_FLAGS | PAGE_USERMODE
                };
                proof {
                    assert(3u64 | 4u64 == 7) by (bit_vector);
                    assert(3u64 & 1 != 0 && 7u64 & 1 != 0) by (bit_vector);
                    assert(0u64 & 1 == 0) by (bit_vector);
                    lemma_small_flags(table_flags);
                    lemma_entry_fields(n, table_flags);
                }
                let link = PageTableEntry::from_page_flags(PhysicalPage(new.0), table_flags);
                mem.set_entry(table, idx, link);
                self.tables = Ghost(self.tables@.insert(new.0, (level - 1) as int));
                let ghost mem3 = mem@;
                let ghost tables3 = self.tables@;
                proof {
                    assert forall|t: u64, i: int|
                        #![trigger entry_of(mem3, t, i)]
                        tables3.contains_key(t) && tables3[t] >= 2 && 0 <= i < 512 && is_present(
                            entry_of(mem3, t, i),
                        ) implies tables3.contains_key(entry_frame(entry_of(mem3, t, i)))
                        && tables3[entry_frame(entry_of(mem3, t, i))] == tables3[t] - 1 by {
                        lemma_slots_distinct(t, i, table.0, idx as int);
                        if t == n {
                            assert(entry_of(mem3, t, i) == entry_of(mem2, t, i));
                            assert(entry_of(mem2, t, i) == 0);
                        } else if t == table.0 && i == idx {
                        } else {
                            assert(entry_of(mem3, t, i) == entry_of(mem2, t, i));
                            assert(entry_of(mem2, t, i) == entry_of(mem1, t, i));
                        }
                    }
                    assert forall|t: u64, i: int|
                        #![trigger entry_of(mem2, t, i)]
                        #![trigger entry_of(mem3, t, i)]
                        tables.contains_key(t) && tables[t] > level && 0 <= i < 512 implies entry_of(
                            mem2,
                            t,
                            i,
                        ) == entry_of(mem3, t, i) by {
                        lemma_slots_distinct(t, i, table.0, idx as int);
                    }
                    assert(tables_closed(tables, mem2));
                    lemma_descend_frame(tables, mem2, mem3, root, v.0, 4, level as int);
                    lemma_descend_extend(mem3, root, v.0, 4, level as int);
                    if level > 2 {
                        lemma_index_bound(v.0, level - 1);
                        lemma_slots_distinct(
                            n,
                            table_index(v.0, level - 1),
                            table.0,
                            idx as int,
                        );
                        assert(entry_of(mem3, n, table_index(v.0, level - 1)) == 0);
                    }
                    assert(same_above(tables, mem1, mem3, level as int));
                    assert forall|l: int| level < l <= 4 implies #[trigger] path_linked(
                        mem0,
                        frames0,
                        mem3,
                        root,
                        v.0,
                        l,
                    ) by {
                        assert(path_linked(mem0, frames0, mem1, root, v.0, l));
                        lemma_same_above_mono(tables, mem1, mem3, level as int, l - 1);
                        lemma_path_entry_frame(tables, mem1, mem3, root, v.0, l);
                    }
                    lemma_link_flags(n, table_flags);
                    lemma_index_bound(v.0, level as int);
                    assert(path_entry(mem3, root, v.0, level as int) == Some(link.0));
                    lemma_descend_extend(mem0, root, v.0, 4, level as int);
                    assert(!present_entry(path_entry(mem0, root, v.0, level as int)));
                    assert(path_linked(mem0, frames0, mem3, root, v.0, level as int));
                    assert forall|i: int| 0 <= i < 512 implies #[trigger] entry_of(mem3, n, i) == 0 by {
                        lemma_slots_distinct(n, i, table.0, idx as int);
                    }
                    assert forall|t: u64, i: int|
                        #![trigger entry_of(mem3, t, i)]
                        tables0.contains_key(t) && 0 <= i < 512 && (tables0[t] == 1 || is_present(
                            entry_of(mem0, t, i),
                        )) implies entry_of(mem3, t, i) == entry_of(mem0, t, i) by {
                        assert(entry_of(mem1, t, i) == entry_of(mem0, t, i));
                        assert(tables.contains_key(t));
                        assert(entry_of(mem2, t, i) == entry_of(mem1, t, i));
                        lemma_slots_distinct(t, i, table.0, idx as int);
                    }
                    assert forall|t: u64| #[trigger]
                        tables0.contains_key(t) implies tables3.contains_key(t) && tables3[t]
                        == tables0[t] by {
                        assert(tables.contains_key(t));
                    }
                    assert(frames1 == alloc_n(frames0, allocs));
                    assert(allocs == creation_order(mem0, root, v.0, level as int));
                    assert(n == created_frame(frames0, allocs));
                    assert(created_table_clear(mem0, frames0, mem3, root, v.0, level as int));
                    assert(created_in(tables3, mem0, frames0, root, v.0, level as int));
                    assert forall|l: int| level < l <= 4 implies #[trigger] created_table_clear(
                        mem0,
                        frames0,
                        mem3,
                        root,
                        v.0,
                        l,
                    ) && created_in(tables3, mem0, frames0, root, v.0, l) by {
                        assert(created_table_clear(mem0, frames0, mem1, root, v.0, l));
                        assert(created_in(tables, mem0, frames0, root, v.0, l));
                        if !present_entry(path_entry(mem0, root, v.0, l)) {
                            let c = created_frame(frames0, creation_order(mem0, root, v.0, l));
                            assert(tables.contains_key(c));
                            assert forall|i: int|
                                0 <= i < 512 && i != table_index(v.0, l - 1) implies #[trigger] entry_of(
                                mem3,
                                c,
                                i,
                            ) == 0 by {
                                assert(entry_of(mem1, c, i) == 0);
                                assert(entry_of(mem2, c, i) == entry_of(mem1, c, i));
                                lemma_slots_distinct(c, i, table.0, idx as int);
                            }
                        }
                    }
                    assert forall|t: u64| #[trigger]
                        tables3.contains_key(t) && !tables0.contains_key(t) implies tables3[t] + 1
                        > level - 1 && !present_entry(path_entry(mem0, root, v.0, tables3[t] + 1))
                        && t == created_frame(
                        frames0,
                        creation_order(mem0, root, v.0, tables3[t] + 1),
                    ) by {
                        if t != n {
                            assert(tables.contains_key(t));
                        }
                    }
                    assert forall|t: u64, i: int|
                        #![trigger entry_of(mem3, t, i)]
                        tables3.contains_key(t) && !tables0.contains_key(t) && tables3[t] >= 2 && 0
                            <= i < 512 && is_present(entry_of(mem3, t, i)) implies !tables0.contains_key(
                        entry_frame(entry_of(mem3, t, i)),
                    ) by {
                        lemma_slots_distinct(t, i, table.0, idx as int);
                        if t == n {
                            assert(entry_of(mem3, t, i) == 0);
                        } else if t == table.0 && i == idx {
                        } else {
                            assert(entry_of(mem3, t, i) == entry_of(mem2, t, i));
                            assert(entry_of(mem2, t, i) == entry_of(mem1, t, i));
                        }
                    }
                    assert forall|t: u64, i: int|
                        #![trigger entry_of(mem3, t, i)]
                        tables0.contains_key(t) && tables0[t] >= 2 && 0 <= i < 512 && entry_of(
                            mem3,
                            t,
                            i,
                        ) != entry_of(mem0, t, i) && is_present(entry_of(mem3, t, i))
                            implies !tables0.contains_key(entry_frame(entry_of(mem3, t, i))) by {
                        lemma_slots_distinct(t, i, table.0, idx as int);
                        assert(tables.contains_key(t));
                        if !(t == table.0 && i == idx) {
                            assert(entry_of(mem3, t, i) == entry_of(mem2, t, i));
                            assert(entry_of(mem2, t, i) == entry_of(mem1, t, i));
                        }
                    }
                    allocs = allocs + 1;
                    created = true;
                }
                table = PhysicalPage(new.0);
            } else {
                proof {
                    assert(0u64 & 1 == 0) by (bit_vector);
                    lemma_descend_extend(mem@, root, v.0, 4, level as int);
                    lemma_descend_extend(mem0, root, v.0, 4, level as int);
                    assert(path_linked(mem0, frames0, mem@, root, v.0, level as int));
                    assert(created_table_clear(mem0, frames0, mem@, root, v.0, level as int));
                    assert(created_in(self.tables@, mem0, frames0, root, v.0, level as int));
                }
                table = e.deref();
            }
            level = level - 1;
        }
        let ghost mem_end = mem@;
        let leaf = PageTableEntry::from_page_flags(p, flags | PAGE_PRESENT);
        let idx = Self::offset(v, 1);
        mem.set_entry(table, idx, leaf);
        proof {
            let tables = self.tables@;
            let m = mem@;
            assert forall|t: u64, i: int|
                #![trigger entry_of(mem_end, t, i)]
                #![trigger entry_of(m, t, i)]
                tables.contains_key(t) && tables[t] > 1 && 0 <= i < 512 implies entry_of(
                    mem_end,
                    t,
                    i,
                ) == entry_of(m, t, i) by {
                lemma_slots_distinct(t, i, table.0, idx as int);
            }
            lemma_descend_frame(tables, mem_end, m, root, v.0, 4, 1);
            lemma_alloc_prefix(frames0, allocs);
            assert(same_above(tables, mem_end, m, 1));
            assert forall|u: u64, i: int|
                #![trigger entry_of(m, u, i)]
                tables0.contains_key(u) && tables0[u] >= 2 && 0 <= i < 512 && is_present(
                    entry_of(mem0, u, i),
                ) implies entry_of(m, u, i) == entry_of(mem0, u, i) by {
                assert(entry_of(mem_end, u, i) == entry_of(mem0, u, i));
                lemma_slots_distinct(u, i, table.0, idx as int);
            }
            assert forall|w: u64|
                #![trigger lookup(m, root, w)]
                lookup(mem0, root, w) is Some && leaf_slot(mem0, root, w) != leaf_slot(m, root, v.0)
                    implies lookup(m, root, w) == lookup(mem0, root, w) by {
                lemma_descend_present_frame(tables0, mem0, m, root, w, 4);
                lemma_index_bound(w, 1);
                let t2 = descend(mem0, root, w, 4, 1).unwrap();
                assert(entry_of(mem_end, t2, table_index(w, 1)) == entry_of(mem0, t2, table_index(w, 1)));
            }
            assert forall|l: int| 2 <= l <= 4 implies #[trigger] path_linked(mem0, frames0, m, root, v.0, l) by {
                assert(path_linked(mem0, frames0, mem_end, root, v.0, l));
                lemma_same_above_mono(tables, mem_end, m, 1, l - 1);
                lemma_path_entry_frame(tables, mem_end, m, root, v.0, l);
            }
            assert forall|t: u64, i: int|
                #![trigger entry_of(m, t, i)]
                tables.contains_key(t) && !tables0.contains_key(t) && tables[t] >= 2 && 0 <= i < 512
                    && is_present(entry_of(m, t, i)) implies !tables0.contains_key(
                entry_frame(entry_of(m, t, i)),
            ) by {
                lemma_slots_distinct(t, i, table.0, idx as int);
                assert(entry_of(m, t, i) == entry_of(mem_end, t, i));
            }
            assert forall|t: u64, i: int|
                #![trigger entry_of(m, t, i)]
                tables0.contains_key(t) && tables0[t] >= 2 && 0 <= i < 512 && entry_of(m, t, i)
                    != entry_of(mem0, t, i) && is_present(entry_of(m, t, i)) implies !tables0.contains_key(
                entry_frame(entry_of(m, t, i)),
            ) by {
                lemma_slots_distinct(t, i, table.0, idx as int);
                assert(entry_of(m, t, i) == entry_of(mem_end, t, i));
            }
            assert forall|l: int| 2 <= l <= 4 implies #[trigger] created_table_clear(
                mem0,
                frames0,
                m,
                root,
                v.0,
                l,
            ) by {
                assert(created_table_clear(mem0, frames0, mem_end, root, v.0, l));
                assert(created_in(tables, mem0, frames0, root, v.0, l));
                if !present_entry(path_entry(mem0, root, v.0, l)) {
                    let c = created_frame(frames0, creation_order(mem0, root, v.0, l));
                    assert(tables.contains_key(c));
                    assert forall|i: int|
                        0 <= i < 512 && i != table_index(v.0, l - 1) implies #[trigger] entry_of(
                        m,
                        c,
                        i,
                    ) == 0 by {
                        assert(entry_of(mem_end, c, i) == 0);
                        lemma_slots_distinct(c, i, table.0, idx as int);
                    }
                }
            }
            assert forall|w: u64| #[trigger]
                lookup(m, root, w) is Some && lookup(mem0, root, w) is None && lookup(m, root, w)
                    != Some(0u64) implies leaf_slot(m, root, w) == leaf_slot(m, root, v.0) by {
                lemma_walk_into_new(tables, tables0, m, mem0, root, w, 4);
                lemma_descend_frame(tables, m, m, root, w, 4, 1);
                let u = descend(m, root, w, 4, 1).unwrap();
                assert(!tables0.contains_key(u));
                assert(created_table_clear(mem0, frames0, m, root, v.0, 2));
                assert(path_linked(mem0, frames0, m, root, v.0, 2));
                let f = table_flags(v.0);
                assert(3u64 | 4u64 == 7) by (bit_vector);
                lemma_small_flags(f);
                lemma_entry_fields(u, f);
                lemma_descend_extend(m, root, v.0, 4, 2);
                lemma_index_bound(w, 1);
                lemma_index_bound(v.0, 1);
                if table_index(w, 1) != table_index(v.0, 1) {
                    assert(entry_of(m, u, table_index(w, 1)) == 0);
                }
            }
        }
        Ok(())
    }

    /// Clears the leaf entry for `v`: no frame and no flags. Tables stay,
    /// and no reference is dropped.
    pub fn unmap(&mut self, mem: &mut PhysicalMemory, v: VirtualAddress) -> (r: Result<
        (),
        MemoryError,
    >)
        requires
            old(self).valid(old(mem)@),
        ensures
            *final(self) == *old(self),
            final(self).valid(final(mem)@),
            final(mem)@.len() == old(mem)@.len(),
            match descend(old(mem)@, old(self).root_addr(), v.0, 4, 1) {
                Some(t) => r is Ok && final(mem)@ == old(mem)@.update(
                    slot(t, table_index(v.0, 1)),
                    0,
                ),
                None => r == Err::<(), MemoryError>(MemoryError::PageNotPresent) && final(mem)@
                    == old(mem)@,
            },
            r is Ok ==> lookup(final(mem)@, final(self).root_addr(), v.0) == Some(0u64),
    {
        self.set_leaf(mem, v, PageTableEntry::nil())
    }

    /// Replaces the flags of the leaf entry for `v` with `flags`, keeping its frame.
    pub fn edit_flags(&mut self, mem: &mut PhysicalMemory, v: VirtualAddress, flags: u64) -> (r:
        Result<(), MemoryError>)
        requires
            old(self).valid(old(mem)@),
        ensures
            *final(self) == *old(self),
            final(self).valid(final(mem)@),
            final(mem)@.len() == old(mem)@.len(),
            match descend(old(mem)@, old(self).root_addr(), v.0, 4, 1) {
                Some(t) => r is Ok && final(mem)@ == old(mem)@.update(
                    slot(t, table_index(v.0, 1)),
                    entry_frame(entry_of(old(mem)@, t, table_index(v.0, 1))) | flags,
                ) && lookup(final(mem)@, old(self).root_addr(), v.0) == Some(
                    entry_frame(entry_of(old(mem)@, t, table_index(v.0, 1))) | flags,
                ),
                None => r == Err::<(), MemoryError>(MemoryError::PageNotPresent) && final(mem)@
                    == old(mem)@,
            },
    {
        proof {
            lemma_descend_frame(self.tables@, mem@, mem@, self.root.0, v.0, 4, 1);
        }
        let t = self.pte_mut(mem, v)?;
        let old_entry = mem.entry(t, Self::offset(v, 1));
        self.set_leaf(mem, v, PageTableEntry((old_entry.0 & PAGE_ADDR_MASK) | flags))
    }

    /// Stores `e` as the leaf entry for `v`, where every table above it is present.
    fn set_leaf(&mut self, mem: &mut PhysicalMemory, v: VirtualAddress, e: PageTableEntry) -> (r:
        Result<(), MemoryError>)
        requires
            old(self).valid(old(mem)@),
        ensures
            *final(self) == *old(self),
            final(self).valid(final(mem)@),
            final(mem)@.len() == old(mem)@.len(),
            match descend(old(mem)@, old(self).root_addr(), v.0, 4, 1) {
                Some(t) => r is Ok && final(mem)@ == old(mem)@.update(
                    slot(t, table_index(v.0, 1)),
                    e.0,
                ),
                None => r == Err::<(), MemoryError>(MemoryError::PageNotPresent) && final(mem)@
                    == old(mem)@,
            },
            r is Ok ==> lookup(final(mem)@, final(self).root_addr(), v.0) == Some(e.0),
    {
        proof {
            lemma_descend_frame(self.tables@, mem@, mem@, self.root.0, v.0, 4, 1);
        }
        let t = self.pte_mut(mem, v)?;
        let ghost m0 = mem@;
        let idx = Self::offset(v, 1);
        mem.set_entry(t, idx, e);
        proof {
            let tables = self.tables@;
            let m = mem@;
            assert forall|u: u64, i: int|
                #![trigger entry_of(m0, u, i)]
                #![trigger entry_of(m, u, i)]
                tables.contains_key(u) && tables[u] > 1 && 0 <= i < 512 implies entry_of(m0, u, i)
                == entry_of(m, u, i) by {
                lemma_slots_distinct(u, i, t.0, idx as int);
            }
            lemma_descend_frame(tables, m0, m, self.root.0, v.0, 4, 1);
        }
        Ok(())
    }
}

} // verus!
