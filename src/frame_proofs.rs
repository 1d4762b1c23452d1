//! Facts about sequences of frame-table operations.
use vstd::prelude::*;

use crate::memory::{frame_of, PhysicalRange, MAX_FRAMES, PAGE_SIZE};
use crate::phy_map::{
    alloc_state, decref_state, first_free, first_free_from, free_count, free_count_from,
    incref_state, lemma_first_free_bounds, region_state, set_range_state,
    FrameState, MAX_REFS,
};

verus! {

/// The table after `k` allocations in a row.
pub open spec fn alloc_n(s: Seq<FrameState>, k: nat) -> Seq<FrameState>
    decreases k,
{
    if k == 0 {
        s
    } else {
        alloc_state(alloc_n(s, (k - 1) as nat))
    }
}

/// A table holds a free frame exactly when some frame is free.
pub proof fn lemma_free_count_positive(s: Seq<FrameState>, i: int)
    requires
        0 <= i <= s.len(),
    ensures
        (free_count_from(s, i) > 0) == (first_free_from(s, i) < s.len()),
    decreases s.len() - i,
{
    if i < s.len() {
        lemma_free_count_positive(s, i + 1);
    }
}

/// Changing one frame changes the free count by what that frame contributes.
pub proof fn lemma_free_count_update(s: Seq<FrameState>, i: int, j: int, x: FrameState)
    requires
        0 <= i <= s.len(),
        0 <= j < s.len(),
    ensures
        free_count_from(s.update(j, x), i) + (if j >= i && s[j] is Free { 1int } else { 0 })
            == free_count_from(s, i) + (if j >= i && x is Free { 1int } else { 0 }),
    decreases s.len() - i,
{
    if i < s.len() {
        lemma_free_count_update(s, i + 1, j, x);
    }
}

/// One allocation uses up exactly one free frame, if there is one.
proof fn lemma_alloc_step(s: Seq<FrameState>)
    ensures
        alloc_state(s).len() == s.len(),
        free_count(s) > 0 ==> free_count(alloc_state(s)) == free_count(s) - 1,
        0 <= first_free(s) <= s.len(),
        free_count(s) > 0 ==> first_free(s) < s.len() && s[first_free(s)] is Free,
        free_count(s) == 0 ==> first_free(s) == s.len(),
{
    lemma_free_count_positive(s, 0);
    lemma_first_free_bounds(s, 0);
    if first_free(s) < s.len() {
        lemma_free_count_update(s, 0, first_free(s), FrameState::InUse(1));
    }
}

/// After `k` allocations from a table with at least `k` free frames, each
/// of them handed out a frame that still holds exactly the one reference.
pub proof fn lemma_alloc_prefix(s: Seq<FrameState>, k: nat)
    requires
        k <= free_count(s),
    ensures
        alloc_n(s, k).len() == s.len(),
        free_count(alloc_n(s, k)) == free_count(s) - k,
        forall|j: nat|
            j < k ==> 0 <= first_free(#[trigger] alloc_n(s, j)) < s.len() && alloc_n(s, k)[first_free(
                alloc_n(s, j),
            )] == FrameState::InUse(1),
    decreases k,
{
    if k > 0 {
        let p = (k - 1) as nat;
        lemma_alloc_prefix(s, p);
        let t = alloc_n(s, p);
        lemma_alloc_step(t);
        assert(alloc_n(s, k) == alloc_state(t));
        assert(free_count(t) > 0);
        let f = first_free(t);
        assert(alloc_state(t) == t.update(f, FrameState::InUse(1)));
        assert forall|j: nat| j < k implies 0 <= first_free(#[trigger] alloc_n(s, j)) < s.len()
            && alloc_n(s, k)[first_free(alloc_n(s, j))] == FrameState::InUse(1) by {
            if j < p {
                let g = first_free(alloc_n(s, j));
                assert(g < s.len());
                assert(t[g] == FrameState::InUse(1));
                assert(g != f);
                assert(alloc_state(t)[g] == FrameState::InUse(1));
            } else {
                assert(j == p);
                assert(f < s.len());
                assert(alloc_state(t)[f] == FrameState::InUse(1));
            }
        }
    }
}

/// Allocating over and over from a table with `free_count(s)` free frames:
/// each of the first `free_count(s)` allocations succeeds with a frame
/// that was free and that no earlier one of them handed out, and the next
/// one finds no frame.
pub proof fn lemma_alloc_until_exhausted(s: Seq<FrameState>)
    ensures
        forall|k: nat|
            k < free_count(s) ==> first_free(#[trigger] alloc_n(s, k)) < s.len() && alloc_n(
                s,
                k,
            )[first_free(alloc_n(s, k))] is Free,
        forall|j: nat, k: nat|
            j < k < free_count(s) ==> first_free(#[trigger] alloc_n(s, j)) != first_free(
                #[trigger] alloc_n(s, k),
            ),
        first_free(alloc_n(s, free_count(s))) == s.len(),
{
    let f = free_count(s);
    assert forall|k: nat| k < f implies first_free(#[trigger] alloc_n(s, k)) < s.len() && alloc_n(
        s,
        k,
    )[first_free(alloc_n(s, k))] is Free by {
        lemma_alloc_prefix(s, k);
        lemma_alloc_step(alloc_n(s, k));
    }
    assert forall|j: nat, k: nat| j < k < f implies first_free(#[trigger] alloc_n(s, j))
        != first_free(#[trigger] alloc_n(s, k)) by {
        lemma_alloc_prefix(s, k);
        lemma_alloc_step(alloc_n(s, k));
    }
    lemma_alloc_prefix(s, f);
    lemma_alloc_step(alloc_n(s, f));
}

/// A frame that none of the first `k` allocations in a row handed out is
/// as it was.
proof fn lemma_untouched_frame(s: Seq<FrameState>, i: int, k: nat)
    requires
        0 <= i < s.len(),
        forall|j: nat| j < k ==> first_free(#[trigger] alloc_n(s, j)) != i,
    ensures
        alloc_n(s, k).len() == s.len(),
        alloc_n(s, k)[i] == s[i],
    decreases k,
{
    if k > 0 {
        let p = (k - 1) as nat;
        assert(first_free(alloc_n(s, p)) != i);
        lemma_untouched_frame(s, i, p);
        lemma_alloc_step(alloc_n(s, p));
    }
}

/// A free frame (one just freed, say) is handed out again by one of the
/// next `free_count(s)` allocations in a row, before they run out.
pub proof fn lemma_free_frame_comes_back(s: Seq<FrameState>, i: int)
    requires
        0 <= i < s.len(),
        s[i] is Free,
    ensures
        exists|j: nat| j < free_count(s) && first_free(#[trigger] alloc_n(s, j)) == i,
{
    let f = free_count(s);
    if forall|j: nat| j < f ==> first_free(#[trigger] alloc_n(s, j)) != i {
        lemma_untouched_frame(s, i, f);
        lemma_alloc_until_exhausted(s);
        lemma_first_free_bounds(alloc_n(s, f), 0);
        assert(false);
    }
}

/// An allocation never hands out a frame that a live allocation holds.
pub proof fn lemma_alloc_skips_held(s: Seq<FrameState>, i: int)
    requires
        0 <= i < s.len(),
        s[i] is InUse || s[i] is Leaked || s[i] is Unavailable,
    ensures
        first_free(s) != i,
        alloc_state(s)[i] == s[i],
{
    lemma_first_free_bounds(s, 0);
}

/// Freeing the frame that an allocation just handed out puts the table back
/// as it was, so the next allocation hands out the same frame again.
pub proof fn lemma_alloc_then_free(s: Seq<FrameState>)
    requires
        s.len() <= MAX_FRAMES,
        first_free(s) < s.len(),
    ensures
        ({
            let a = (first_free(s) * PAGE_SIZE) as u64;
            let t = alloc_state(s);
            &&& t[frame_of(a)] == FrameState::InUse(1)
            &&& t.update(frame_of(a), decref_state(t[frame_of(a)])) == s
            &&& s[frame_of(a)] == FrameState::Free
        }),
{
    lemma_first_free_bounds(s, 0);
    let i = first_free(s);
    let a = (i * PAGE_SIZE) as u64;
    assert(frame_of(a) == i);
    let t = alloc_state(s);
    assert(t.update(i, decref_state(t[i])) =~= s);
}

/// Taking a reference past `MAX_REFS` leaks the frame, and a leaked frame
/// stays leaked under every later operation and is never allocated.
pub proof fn lemma_overflow_leaks(s: Seq<FrameState>, i: int, r: PhysicalRange, v: FrameState)
    requires
        0 <= i < s.len(),
        s[i] == FrameState::InUse(MAX_REFS),
    ensures
        incref_state(s[i]) == FrameState::Leaked,
        ({
            let t = s.update(i, incref_state(s[i]));
            &&& first_free(t) != i
            &&& alloc_state(t)[i] is Leaked
            &&& set_range_state(t, r, v)[i] is Leaked
            &&& incref_state(t[i]) is Leaked
            &&& decref_state(t[i]) is Leaked
        }),
{
    let t = s.update(i, incref_state(s[i]));
    lemma_alloc_skips_held(t, i);
}

/// Marking a region available and leaking a range give the same table in
/// either order, and every frame that overlaps the leaked range ends up leaked.
pub proof fn lemma_leak_order_independent(
    s: Seq<FrameState>,
    region: PhysicalRange,
    available: bool,
    leaked: PhysicalRange,
)
    ensures
        set_range_state(set_range_state(s, region, region_state(available)), leaked, FrameState::Leaked)
            == set_range_state(set_range_state(s, leaked, FrameState::Leaked), region, region_state(available)),
        forall|i: int|
            0 <= i < s.len() && crate::memory::overlaps(leaked, i) ==> (#[trigger] set_range_state(
                set_range_state(s, region, region_state(available)),
                leaked,
                FrameState::Leaked,
            )[i]) is Leaked,
{
    let a = set_range_state(set_range_state(s, region, region_state(available)), leaked, FrameState::Leaked);
    let b = set_range_state(set_range_state(s, leaked, FrameState::Leaked), region, region_state(available));
    assert(a =~= b);
}

} // verus!
