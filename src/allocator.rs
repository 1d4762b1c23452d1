//! The early kernel heap: a bump allocator over a fixed region, behind a lock.
use vstd::prelude::*;

use crate::sync::{Mutex, MutexGuard};
use crate::util::{is_pow2, lemma_pow2_positive, round_up, round_up_spec};

verus! {

/// Size in bytes of the early heap.
pub const HEAP_LEN: usize = 1024 * 1024;

/// A value behind a `Mutex`, so that a shared reference can hand out
/// exclusive access.
#[verifier::reject_recursive_types(A)]
pub struct Locked<A> {
    inner: Mutex<A>,
}

impl<A> Locked<A> {
    pub fn new(inner: A) -> Self {
        Locked { inner: Mutex::new(inner) }
    }

    pub fn lock(&self) -> MutexGuard<'_, A> {
        self.inner.lock()
    }
}

/// A bump allocator over `HEAP_LEN` bytes: blocks are handed out in order
/// and never given back.
pub struct EarlyHeap {
    index: usize,
}

impl View for EarlyHeap {
    type V = nat;

    /// Offset of the first byte not handed out yet.
    closed spec fn view(&self) -> nat {
        self.index as nat
    }
}

impl EarlyHeap {
    pub fn new() -> (r: Self)
        ensures
            r@ == 0,
    {
        EarlyHeap { index: 0 }
    }

    /// Offset of a new block of `size` bytes aligned to `align`, placed at
    /// the first such offset past the blocks handed out so far, or `None`
    /// where the heap has no room for it.
    pub fn bump(&mut self, size: usize, align: usize) -> (r: Option<usize>)
        requires
            is_pow2(align),
            old(self)@ <= HEAP_LEN,
        ensures
            final(self)@ <= HEAP_LEN,
            match r {
                Some(base) => {
                    &&& base == round_up_spec(old(self)@ as int, align as int)
                    &&& base + size <= HEAP_LEN
                    &&& final(self)@ == base + size
                },
                None => {
                    &&& round_up_spec(old(self)@ as int, align as int) + size > HEAP_LEN
                    &&& final(self)@ == old(self)@
                },
            },
    {
        proof {
            lemma_pow2_positive(align);
        }
        if align - 1 > usize::MAX - self.index {
            proof {
                lemma_round_up_large(self.index as int, align as int);
            }
            return None;
        }
        let new_base = round_up(self.index, align);
        if size > HEAP_LEN || new_base > HEAP_LEN - size {
            return None;
        }
        self.index = new_base + size;
        Some(new_base)
    }
}

/// Rounding a positive value up to a multiple larger than the heap lands past the heap.
proof fn lemma_round_up_large(v: int, p: int)
    requires
        v > 0,
        p > HEAP_LEN,
        v + p - 1 > usize::MAX,
    ensures
        round_up_spec(v, p) >= p,
{
    let x = v + p - 1;
    vstd::arithmetic::div_mod::lemma_fundamental_div_mod(x, p);
    assert(x / p >= 1) by {
        vstd::arithmetic::div_mod::lemma_div_pos_is_pos(x, p);
        if x / p == 0 {
            assert(x == x % p);
        }
    }
    assert(p * (x / p) >= p) by (nonlinear_arith)
        requires
            x / p >= 1,
            p > 0,
    ;
}

} // verus!
