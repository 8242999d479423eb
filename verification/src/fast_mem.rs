//! The scratch arena: a fixed-capacity bump allocator over the fast on-chip
//! region, dedicated to ephemeral Huffman-tree nodes. Live handles are
//! counted; releasing the last one resets the cursor to the arena base — an
//! all-or-nothing reclaim, not a stack discipline.

use vstd::prelude::*;

verus! {

/// Allocation failure: the padded request would pass the arena's capacity.
/// Legitimate inputs are bounded by the known maximum table sizes, so this
/// signals a sizing defect and is fatal for the decode in progress.
#[derive(Debug, PartialEq, Eq, Structural)]
pub struct OutOfScratch;

/// The arena: its capacity in bytes, the bump cursor as an offset from the
/// base, and the number of live handles.
pub struct FastAllocator {
    pub capacity: usize,
    pub cursor: usize,
    pub live: usize,
}

/// The padding that brings `cursor` up to the next multiple of `align`.
pub open spec fn align_pad(cursor: int, align: int) -> int {
    (align - cursor % align) % align
}

/// Taking one more handle.
pub open spec fn spec_acquire(a: FastAllocator) -> FastAllocator {
    FastAllocator { capacity: a.capacity, cursor: a.cursor, live: (a.live + 1) as usize }
}

/// Dropping one handle; the last one out resets the cursor.
pub open spec fn spec_release(a: FastAllocator) -> FastAllocator {
    FastAllocator {
        capacity: a.capacity,
        cursor: if a.live == 1 {
            0
        } else {
            a.cursor
        },
        live: (a.live - 1) as usize,
    }
}

/// The arena after `n` nested acquires.
pub open spec fn after_acquires(a: FastAllocator, n: nat) -> FastAllocator
    decreases n,
{
    if n == 0 {
        a
    } else {
        spec_acquire(after_acquires(a, (n - 1) as nat))
    }
}

/// The arena after `n` releases.
pub open spec fn after_releases(a: FastAllocator, n: nat) -> FastAllocator
    decreases n,
{
    if n == 0 {
        a
    } else {
        spec_release(after_releases(a, (n - 1) as nat))
    }
}

proof fn lemma_after_acquires(a: FastAllocator, n: nat)
    requires
        a.live + n <= usize::MAX,
    ensures
        after_acquires(a, n).live == a.live + n,
        after_acquires(a, n).cursor == a.cursor,
        after_acquires(a, n).capacity == a.capacity,
    decreases n,
{
    if n > 0 {
        lemma_after_acquires(a, (n - 1) as nat);
    }
}

/// From an arena with no live handles, `n` nested acquires followed by `k`
/// releases leave the cursor untouched while any handle lives (`k < n`) and
/// reset it to the arena base exactly at the last release (`k == n`), never
/// prematurely.
pub proof fn lemma_scratch_reset_once(a: FastAllocator, n: nat, k: nat)
    requires
        a.live == 0,
        k <= n,
        n <= usize::MAX,
    ensures
        after_releases(after_acquires(a, n), k).live == n - k,
        after_releases(after_acquires(a, n), k).capacity == a.capacity,
        k < n ==> after_releases(after_acquires(a, n), k).cursor == a.cursor,
        k == n && n > 0 ==> after_releases(after_acquires(a, n), k).cursor == 0,
    decreases k,
{
    lemma_after_acquires(a, n);
    if k > 0 {
        lemma_scratch_reset_once(a, n, (k - 1) as nat);
    }
}

impl FastAllocator {
    /// The cursor never passes the capacity.
    pub open spec fn wf(self) -> bool {
        self.cursor <= self.capacity
    }

    /// A fresh arena over a scratch region of `capacity` bytes, with no
    /// live handles and the cursor at the base.
    pub fn new(capacity: usize) -> (r: Self)
        ensures
            r.wf(),
            r.capacity == capacity,
            r.cursor == 0,
            r.live == 0,
    {
        FastAllocator { capacity, cursor: 0, live: 0 }
    }

    /// Hand out one more live handle. Allocations stay valid until every
    /// live handle has been released.
    pub fn acquire(&mut self)
        requires
            old(self).live < usize::MAX,
        ensures
            *final(self) == spec_acquire(*old(self)),
    {
        self.live = self.live + 1;
    }

    /// Release one live handle; releasing more than were acquired is a
    /// logic error. The last release resets the cursor to the arena base.
    pub fn release(&mut self)
        requires
            old(self).live >= 1,
        ensures
            *final(self) == spec_release(*old(self)),
    {
        self.live = self.live - 1;
        if self.live == 0 {
            self.cursor = 0;
        }
    }

    /// Bump the cursor by `size` bytes after padding it to `align`; fails,
    /// changing nothing, exactly when the padded request passes capacity.
    pub fn allocate(&mut self, size: usize, align: usize) -> (r: Result<usize, OutOfScratch>)
        requires
            old(self).wf(),
            align >= 1,
        ensures
            final(self).wf(),
            final(self).live == old(self).live,
            final(self).capacity == old(self).capacity,
            r is Ok <==> old(self).cursor + align_pad(old(self).cursor as int, align as int)
                + size <= old(self).capacity,
            match r {
                Ok(off) => {
                    &&& off == old(self).cursor + align_pad(
                        old(self).cursor as int,
                        align as int,
                    )
                    &&& off as int % align as int == 0
                    &&& final(self).cursor == off + size
                },
                Err(_) => *final(self) == *old(self),
            },
    {
        let rem = self.cursor % align;
        let pad = if rem == 0 {
            0
        } else {
            align - rem
        };
        proof {
            if rem == 0 {
                vstd::arithmetic::div_mod::lemma_mod_self_0(align as int);
            } else {
                vstd::arithmetic::div_mod::lemma_small_mod((align - rem) as nat, align as nat);
            }
            assert(pad == align_pad(self.cursor as int, align as int));
        }
        let left = self.capacity - self.cursor;
        if pad > left || size > left - pad {
            return Err(OutOfScratch);
        }
        let off = self.cursor + pad;
        proof {
            assert(off as int % align as int == 0) by (nonlinear_arith)
                requires
                    align >= 1,
                    off == self.cursor + (if self.cursor % align == 0 {
                        0usize
                    } else {
                        (align - self.cursor % align) as usize
                    }),
        ;
        }
        self.cursor = off + size;
        Ok(off)
    }

    /// Per-object deallocation is deliberately a no-op: space comes back
    /// only when the last live handle is released.
    pub fn deallocate(&self, _off: usize, _size: usize) {
    }
}

} // verus!
