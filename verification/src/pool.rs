//! The mathematical model of one size-class pool: a block size, a free
//! list of block offsets, and the note whether the region has been cut
//! into blocks yet. `SlabCache` is specified against this model.

use vstd::prelude::*;
use crate::region::{
    block_aligned, block_count, lemma_block_index, lemma_blocks_apart, lemma_indexed_block,
};

verus! {

/// Abstract state of a size-class pool. Blocks are named by their byte
/// offset from the start of the pool's region.
pub struct PoolModel {
    /// Size in bytes of every block of this pool.
    pub block_size: nat,
    /// Whether the region has been cut into blocks. This happens once, on
    /// the first request that finds the free list empty.
    pub carved: bool,
    /// The free blocks, the next one to be handed out first.
    pub free: Seq<nat>,
}

/// The first `count` blocks of a region in the order in which cutting the
/// region leaves them on the free list: the highest offset in front.
pub open spec fn stacked_blocks(block_size: nat, count: nat) -> Seq<nat> {
    Seq::new(count, |i: int| ((count - 1 - i) * block_size) as nat)
}

impl PoolModel {
    /// A pool that has handed out nothing and has not touched its region.
    pub open spec fn fresh(block_size: nat) -> PoolModel {
        PoolModel { block_size, carved: false, free: Seq::empty() }
    }

    /// Number of blocks that the region holds.
    pub open spec fn capacity(self) -> nat {
        block_count(self.block_size)
    }

    /// `off` names a block of this pool.
    pub open spec fn is_block(self, off: nat) -> bool {
        block_aligned(self.block_size, off)
    }

    /// `off` names a block that is handed out at present.
    pub open spec fn is_allocated(self, off: nat) -> bool {
        self.carved && self.is_block(off) && !self.free.contains(off)
    }

    /// Number of requests that can still be served before a block is given
    /// back.
    pub open spec fn available(self) -> nat {
        if self.carved {
            self.free.len()
        } else {
            self.capacity()
        }
    }

    /// The invariant of a pool: the free list names blocks of this pool
    /// only, none of them twice, and it is empty until the region is cut.
    pub open spec fn wf(self) -> bool {
        &&& !self.carved ==> self.free.len() == 0
        &&& forall|i: int| 0 <= i < self.free.len() ==> self.is_block(#[trigger] self.free[i])
        &&& self.free.no_duplicates()
    }

    /// The pool after its region has been cut into blocks, all of them
    /// free.
    pub open spec fn carve(self) -> PoolModel {
        PoolModel { carved: true, free: stacked_blocks(self.block_size, self.capacity()), ..self }
    }

    /// The pool as a request finds it after the refill rule has been
    /// applied: an empty free list is refilled from the region, once.
    pub open spec fn primed(self) -> PoolModel {
        if self.free.len() == 0 && !self.carved {
            self.carve()
        } else {
            self
        }
    }

    /// The block that the next request hands out, or `None` when the pool
    /// is exhausted.
    pub open spec fn taken(self) -> Option<nat> {
        if self.primed().free.len() == 0 {
            None
        } else {
            Some(self.primed().free.first())
        }
    }

    /// The pool after the next request.
    pub open spec fn after_take(self) -> PoolModel {
        if self.primed().free.len() == 0 {
            self.primed()
        } else {
            PoolModel { free: self.primed().free.drop_first(), ..self.primed() }
        }
    }

    /// The pool after `off` has been given back: it becomes the head of the
    /// free list, whatever it is.
    pub open spec fn after_give(self, off: nat) -> PoolModel {
        PoolModel { free: seq![off] + self.free, ..self }
    }

    /// The pool after `n` requests in a row.
    pub open spec fn after_takes(self, n: nat) -> PoolModel
        decreases n,
    {
        if n == 0 {
            self
        } else {
            self.after_takes((n - 1) as nat).after_take()
        }
    }

    /// Cutting one more block puts it in front of those cut before, and
    /// it is none of them.
    pub proof fn lemma_stack_one_more(block_size: nat, count: nat)
        ensures
            stacked_blocks(block_size, count + 1)
                == seq![count * block_size] + stacked_blocks(block_size, count),
            block_size > 0 ==> !stacked_blocks(block_size, count).contains(count * block_size),
    {
        let shorter = stacked_blocks(block_size, count);
        let longer = stacked_blocks(block_size, count + 1);
        let pushed = seq![count * block_size] + shorter;
        assert(longer =~= pushed);
        if block_size > 0 {
            assert forall|i: int| 0 <= i < count implies shorter[i] != count * block_size by {
                let d = block_size as int;
                let x = count - 1 - i;
                let y = count as int;
                assert(x * d != y * d) by (nonlinear_arith)
                    requires
                        d > 0,
                        x != y,
                ;
            }
        }
    }

    /// Up to `capacity` stacked blocks are blocks of the pool, each named
    /// once.
    pub proof fn lemma_stacked_blocks_wf(self, count: nat)
        requires
            count <= self.capacity(),
        ensures
            stacked_blocks(self.block_size, count).no_duplicates(),
            forall|i: int|
                0 <= i < count ==> self.is_block(
                    #[trigger] stacked_blocks(self.block_size, count)[i],
                ),
    {
        let blocks = stacked_blocks(self.block_size, count);
        assert forall|i: int| 0 <= i < count implies self.is_block(#[trigger] blocks[i]) by {
            lemma_indexed_block(self.block_size, (count - 1 - i) as nat);
        }
        assert forall|i: int, j: int| 0 <= i < count && 0 <= j < count && i != j implies blocks[i]
            != blocks[j] by {
            let d = self.block_size as int;
            let x = count - 1 - i;
            let y = count - 1 - j;
            assert(x * d != y * d) by (nonlinear_arith)
                requires
                    d > 0,
                    x != y,
            ;
        }
    }

    /// Cutting the region establishes the invariant.
    pub proof fn lemma_carve_wf(self)
        ensures
            self.carve().wf(),
            self.carve().free.len() == self.capacity(),
    {
        self.lemma_stacked_blocks_wf(self.capacity());
    }

    /// A request keeps the invariant. The block it hands out was not
    /// handed out before and is so afterwards; no other block changes.
    pub proof fn lemma_take(self)
        requires
            self.wf(),
        ensures
            self.after_take().wf(),
            self.after_take().block_size == self.block_size,
            self.after_take().carved,
            self.taken() is None <==> self.available() == 0,
            self.taken() is None ==> self.after_take().available() == 0,
            forall|o: nat| self.is_allocated(o) ==> self.after_take().is_allocated(o),
            self.taken() matches Some(b) ==> {
                &&& self.is_block(b)
                &&& !self.is_allocated(b)
                &&& self.after_take().is_allocated(b)
                &&& self.after_take().available() == self.available() - 1
                &&& forall|o: nat|
                    o != b ==> (self.after_take().is_allocated(o) <==> self.is_allocated(o))
            },
    {
        self.lemma_carve_wf();
        let p = self.primed();
        if p.free.len() > 0 {
            let b = p.free.first();
            let rest = p.free.drop_first();
            assert forall|o: nat| o != b implies (rest.contains(o) <==> p.free.contains(o)) by {
                if p.free.contains(o) {
                    let i = choose|i: int| 0 <= i < p.free.len() && p.free[i] == o;
                    assert(rest[i - 1] == o);
                }
            }
            assert forall|o: nat| o != b implies (self.after_take().is_allocated(o)
                <==> self.is_allocated(o)) by {
                if !self.carved && self.is_block(o) {
                    lemma_block_index(self.block_size, o);
                    let k = o / self.block_size;
                    let c = self.capacity();
                    assert(p.free[c - 1 - k] == o);
                }
            }
        }
    }

    /// Giving back a block that is handed out keeps the invariant and
    /// frees that block alone.
    pub proof fn lemma_give(self, off: nat)
        requires
            self.wf(),
            self.is_allocated(off),
        ensures
            self.after_give(off).wf(),
            self.after_give(off).block_size == self.block_size,
            self.after_give(off).available() == self.available() + 1,
            !self.after_give(off).is_allocated(off),
            forall|o: nat|
                o != off ==> (self.after_give(off).is_allocated(o) <==> self.is_allocated(o)),
    {
        let g = self.after_give(off);
        assert(g.free[0] == off);
        assert forall|o: nat| o != off implies (g.free.contains(o) <==> self.free.contains(o)) by {
            if self.free.contains(o) {
                let i = choose|i: int| 0 <= i < self.free.len() && self.free[i] == o;
                assert(g.free[i + 1] == o);
            }
        }
    }

    /// Two blocks of a pool that differ share no byte.
    pub proof fn lemma_blocks_disjoint(self, a: nat, b: nat)
        requires
            self.is_block(a),
            self.is_block(b),
            a != b,
        ensures
            a + self.block_size <= b || b + self.block_size <= a,
    {
        lemma_blocks_apart(self.block_size, a, b);
    }

    /// A block that was given back is the next one handed out, and the
    /// pool is then as it was before the block came back.
    pub proof fn lemma_reuse(self, off: nat)
        ensures
            self.after_give(off).taken() == Some(off),
            self.after_give(off).after_take() == self,
    {
        let g = self.after_give(off);
        assert(g.free.drop_first() =~= self.free);
    }

    /// Blocks come back out in the reverse of the order in which they
    /// were given back.
    pub proof fn lemma_lifo(self, a: nat, b: nat)
        ensures
            self.after_give(a).after_give(b).taken() == Some(b),
            self.after_give(a).after_give(b).after_take().taken() == Some(a),
            self.after_give(a).after_give(b).after_take().after_take() == self,
    {
        self.after_give(a).lemma_reuse(b);
        self.lemma_reuse(a);
    }

    /// A run of requests, with nothing given back in between, walks down
    /// the free list as the first request found it: request number `n`,
    /// counted from zero, hands out entry `n`, and the request after the
    /// last entry finds the pool exhausted.
    pub proof fn lemma_takes(self, n: nat)
        requires
            self.wf(),
            n <= self.available(),
        ensures
            self.primed().free.len() == self.available(),
            self.after_takes(n).wf(),
            self.after_takes(n).block_size == self.block_size,
            self.after_takes(n).available() == self.available() - n,
            n > 0 ==> self.after_takes(n) == (PoolModel {
                free: self.primed().free.skip(n as int),
                ..self.primed()
            }),
            n < self.available()
                ==> self.after_takes(n).taken() == Some(self.primed().free[n as int]),
            n == self.available() ==> self.after_takes(n).taken() is None,
        decreases n,
    {
        self.lemma_carve_wf();
        if n > 0 {
            let before = self.after_takes((n - 1) as nat);
            self.lemma_takes((n - 1) as nat);
            before.lemma_take();
            assert(before.primed().free.drop_first() =~= self.primed().free.skip(n as int));
        }
    }
}

} // verus!
