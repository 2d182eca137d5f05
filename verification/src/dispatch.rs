//! The mathematical model of the allocator: a table of size-class pools
//! in the order of their block sizes, the rule that routes a request to a
//! class, and the laws that follow from the two.
//!
//! The pools own disjoint regions laid out one after another, so that a
//! block of class `c` at offset `off` of its region has the address
//! `c * REGION_SIZE + off`.

use vstd::prelude::*;
use crate::error::AllocError;
use crate::pool::PoolModel;
use crate::region::REGION_SIZE;

verus! {

/// Abstract state of the allocator: the pools, smallest block size first.
pub struct AllocatorModel {
    pub pools: Seq<PoolModel>,
}

/// Two byte ranges, each given by its first address and its length, have
/// no byte in common.
pub open spec fn ranges_disjoint(a: nat, a_len: nat, b: nat, b_len: nat) -> bool {
    a + a_len <= b || b + b_len <= a
}

impl AllocatorModel {
    /// An allocator that has handed out nothing, with one pool for each of
    /// the given block sizes.
    pub open spec fn fresh(sizes: Seq<nat>) -> AllocatorModel {
        AllocatorModel { pools: Seq::new(sizes.len(), |c: int| PoolModel::fresh(sizes[c])) }
    }

    /// The block sizes of the classes, in the order of the table.
    pub open spec fn block_sizes(self) -> Seq<nat> {
        Seq::new(self.pools.len(), |c: int| self.pools[c].block_size)
    }

    /// The address at which the region of class `c` starts.
    pub open spec fn base(c: int) -> nat {
        (c * REGION_SIZE) as nat
    }

    /// The offset of `addr` in the region of class `c`.
    pub open spec fn offset(c: int, addr: nat) -> nat {
        (addr - Self::base(c)) as nat
    }

    /// The invariant of the allocator: every pool keeps its own invariant
    /// and the block sizes grow strictly along the table.
    pub open spec fn wf(self) -> bool {
        &&& forall|c: int| 0 <= c < self.pools.len() ==> (#[trigger] self.pools[c]).wf()
        &&& forall|c: int, d: int|
            0 <= c < d < self.pools.len() ==> self.pools[c].block_size < self.pools[d].block_size
    }

    /// A request for `size` bytes goes to class `c`: the first class of the
    /// table whose blocks are large enough.
    pub open spec fn routes_to(self, size: nat, c: int) -> bool {
        &&& 0 <= c < self.pools.len()
        &&& size <= self.pools[c].block_size
        &&& forall|d: int| 0 <= d < c ==> (#[trigger] self.pools[d]).block_size < size
    }

    /// Some class has blocks of at least `size` bytes.
    pub open spec fn supports(self, size: nat) -> bool {
        exists|c: int| self.routes_to(size, c)
    }

    /// The class that serves requests for `size` bytes, where one does.
    pub open spec fn class_of(self, size: nat) -> int {
        choose|c: int| self.routes_to(size, c)
    }

    /// The pool of the class that serves requests for `size` bytes.
    pub open spec fn pool_of(self, size: nat) -> PoolModel {
        self.pools[self.class_of(size)]
    }

    /// The allocator with `pool` in the place of the pool of class `c`.
    pub open spec fn with_pool(self, c: int, pool: PoolModel) -> AllocatorModel {
        AllocatorModel { pools: self.pools.update(c, pool) }
    }

    /// `addr` is the address of a block of class `c`: it lies in the region
    /// of that class, a whole number of blocks from its start.
    pub open spec fn is_block_of(self, c: int, addr: nat) -> bool {
        &&& 0 <= c < self.pools.len()
        &&& Self::base(c) <= addr
        &&& self.pools[c].is_block(Self::offset(c, addr))
    }

    /// `addr` is the address of a block of class `c` that is handed out at
    /// present.
    pub open spec fn holds(self, c: int, addr: nat) -> bool {
        &&& 0 <= c < self.pools.len()
        &&& Self::base(c) <= addr
        &&& self.pools[c].is_allocated(Self::offset(c, addr))
    }

    /// `addr` is a block handed out at present by the class that serves
    /// requests for `size` bytes. Only such a pair of address and size may
    /// be released.
    pub open spec fn is_live(self, addr: nat, size: nat) -> bool {
        self.supports(size) && self.holds(self.class_of(size), addr)
    }

    /// What a request for `size` bytes returns: the address of the block
    /// that the pool of its class hands out, `Exhausted` when that pool has
    /// none left, `Unsupported` when no class is large enough.
    pub open spec fn outcome(self, size: nat) -> Result<nat, AllocError> {
        if !self.supports(size) {
            Err(AllocError::Unsupported)
        } else {
            match self.pool_of(size).taken() {
                Some(off) => Ok(Self::base(self.class_of(size)) + off),
                None => Err(AllocError::Exhausted),
            }
        }
    }

    /// The allocator after a request for `size` bytes: the pool of its
    /// class has served one request, the others are untouched.
    pub open spec fn after_allocate(self, size: nat) -> AllocatorModel {
        if !self.supports(size) {
            self
        } else {
            self.with_pool(self.class_of(size), self.pool_of(size).after_take())
        }
    }

    /// The allocator after the block at `addr` has been released with
    /// `size`: the pool that `size` routes to has that block at the head of
    /// its free list, the others are untouched.
    pub open spec fn after_release(self, addr: nat, size: nat) -> AllocatorModel {
        if !self.supports(size) {
            self
        } else {
            self.with_pool(
                self.class_of(size),
                self.pool_of(size).after_give(Self::offset(self.class_of(size), addr)),
            )
        }
    }

    /// The allocator after one request for each entry of `sizes`, in
    /// order, with no release in between.
    pub open spec fn after_run(self, sizes: Seq<nat>) -> AllocatorModel
        decreases sizes.len(),
    {
        if sizes.len() == 0 {
            self
        } else {
            self.after_run(sizes.drop_last()).after_allocate(sizes.last())
        }
    }

    /// What request number `i` of such a run returns.
    pub open spec fn run_outcome(self, sizes: Seq<nat>, i: int) -> Result<nat, AllocError> {
        self.after_run(sizes.take(i)).outcome(sizes[i])
    }

    /// All requests of a run go to class `c`.
    pub open spec fn run_routes_to(self, sizes: Seq<nat>, c: int) -> bool {
        forall|i: int| 0 <= i < sizes.len() ==> self.routes_to(#[trigger] sizes[i], c)
    }

    /// A request routes to one class at most.
    pub proof fn lemma_route_unique(self, size: nat, c: int)
        requires
            self.routes_to(size, c),
        ensures
            self.supports(size),
            self.class_of(size) == c,
    {
    }

    /// Routing looks at the block sizes alone.
    proof fn lemma_same_routes(self, other: AllocatorModel, size: nat, c: int)
        requires
            other.routes_to(size, c),
            self.pools.len() == other.pools.len(),
            forall|d: int|
                0 <= d < self.pools.len() ==> (#[trigger] self.pools[d]).block_size
                    == other.pools[d].block_size,
        ensures
            self.routes_to(size, c),
            self.supports(size),
            self.class_of(size) == c,
    {
        assert forall|d: int| 0 <= d < c implies (#[trigger] self.pools[d]).block_size < size by {
            assert(other.pools[d].block_size < size);
        }
        self.lemma_route_unique(size, c);
    }

    /// Where class `d` is large enough for `size`, the request routes to a
    /// class.
    proof fn lemma_first_sufficient(self, size: nat, d: int)
        requires
            0 <= d < self.pools.len(),
            size <= self.pools[d].block_size,
        ensures
            self.supports(size),
        decreases d,
    {
        if forall|e: int| 0 <= e < d ==> (#[trigger] self.pools[e]).block_size < size {
            assert(self.routes_to(size, d));
        } else {
            let e = choose|e: int| 0 <= e < d && !((#[trigger] self.pools[e]).block_size < size);
            self.lemma_first_sufficient(size, e);
        }
    }

    /// A request is served by the smallest class that is large enough for
    /// it: the class that a request routes to has room for `size` bytes,
    /// and no class with room for `size` bytes has smaller blocks.
    pub proof fn lemma_smallest_sufficient_class(self, size: nat, d: int)
        requires
            self.wf(),
            0 <= d < self.pools.len(),
            size <= self.pools[d].block_size,
        ensures
            self.supports(size),
            size <= self.pool_of(size).block_size,
            self.pool_of(size).block_size <= self.pools[d].block_size,
    {
        self.lemma_first_sufficient(size, d);
    }

    /// A request is refused as unsupported exactly when it asks for more
    /// than the largest block size of the table, and it then changes
    /// nothing.
    pub proof fn lemma_unsupported(self, size: nat)
        requires
            self.wf(),
            self.pools.len() > 0,
        ensures
            self.outcome(size) == Err::<nat, AllocError>(AllocError::Unsupported)
                <==> size > self.pools.last().block_size,
            size > self.pools.last().block_size ==> self.after_allocate(size) == self,
    {
        if size <= self.pools.last().block_size {
            self.lemma_first_sufficient(size, self.pools.len() - 1);
        }
    }

    /// A request keeps the invariant and the block sizes of the table. It
    /// succeeds exactly when some class is large enough for it and the
    /// pool of that class has a block available. The block it returns is a
    /// block of the class that the request routes to, large enough for the
    /// request, not handed out before and handed out afterwards. Every
    /// block that was handed out stays so.
    pub proof fn lemma_allocate(self, size: nat)
        requires
            self.wf(),
        ensures
            self.after_allocate(size).wf(),
            self.after_allocate(size).block_sizes() == self.block_sizes(),
            self.outcome(size) is Ok
                <==> self.supports(size) && self.pool_of(size).available() > 0,
            self.outcome(size) == Err::<nat, AllocError>(AllocError::Exhausted)
                <==> self.supports(size) && self.pool_of(size).available() == 0,
            self.outcome(size) == Err::<nat, AllocError>(AllocError::Unsupported)
                <==> !self.supports(size),
            self.outcome(size) matches Ok(addr) ==> {
                &&& size <= self.pool_of(size).block_size
                &&& self.is_block_of(self.class_of(size), addr)
                &&& !self.holds(self.class_of(size), addr)
                &&& self.after_allocate(size).holds(self.class_of(size), addr)
                &&& self.after_allocate(size).is_live(addr, size)
            },
            forall|other: nat, s: nat| #[trigger]
                self.is_live(other, s) ==> self.after_allocate(size).is_live(other, s),
    {
        let next = self.after_allocate(size);
        if self.supports(size) {
            let c = self.class_of(size);
            self.pools[c].lemma_take();
            next.lemma_same_routes(self, size, c);
            assert forall|other: nat, s: nat| #[trigger]
                self.is_live(other, s) implies next.is_live(other, s) by {
                let k = self.class_of(s);
                next.lemma_same_routes(self, s, k);
            }
        }
    }

    /// A refused request leaves the allocator as it was, unless it found
    /// the region of its class still whole and too small for a single
    /// block: then the region counts as cut from there on.
    pub proof fn lemma_refusal(self, size: nat)
        requires
            self.wf(),
            self.outcome(size) is Err,
        ensures
            !self.supports(size) || self.pool_of(size).carved || self.pool_of(size).capacity() > 0
                ==> self.after_allocate(size) == self,
            self.after_allocate(size).outcome(size) == self.outcome(size),
    {
        if self.supports(size) {
            let c = self.class_of(size);
            let next = self.after_allocate(size);
            self.pools[c].lemma_take();
            self.pools[c].lemma_carve_wf();
            next.lemma_same_routes(self, size, c);
            if self.pools[c].carved {
                assert(next.pools =~= self.pools);
            }
        }
    }

    /// A release of a live block keeps the invariant and the block sizes
    /// of the table, and frees that block alone: every other block that was
    /// handed out stays so.
    pub proof fn lemma_release(self, addr: nat, size: nat)
        requires
            self.wf(),
            self.is_live(addr, size),
        ensures
            self.after_release(addr, size).wf(),
            self.after_release(addr, size).block_sizes() == self.block_sizes(),
            !self.after_release(addr, size).holds(self.class_of(size), addr),
            forall|c: int, other: nat|
                (c != self.class_of(size) || other != addr) ==> (self.after_release(
                    addr,
                    size,
                ).holds(c, other) <==> self.holds(c, other)),
            forall|other: nat, s: nat| #[trigger]
                self.is_live(other, s) && other != addr
                    ==> self.after_release(addr, size).is_live(other, s),
    {
        let c = self.class_of(size);
        let next = self.after_release(addr, size);
        self.pools[c].lemma_give(Self::offset(c, addr));
        assert forall|other: nat, s: nat| #[trigger]
            self.is_live(other, s) && other != addr implies next.is_live(other, s) by {
            let k = self.class_of(s);
            next.lemma_same_routes(self, s, k);
        }
    }

    /// Two different blocks share no byte, whether they belong to one
    /// class or to two.
    pub proof fn lemma_blocks_disjoint(self, c: int, a: nat, d: int, b: nat)
        requires
            self.is_block_of(c, a),
            self.is_block_of(d, b),
            c != d || a != b,
        ensures
            a != b,
            ranges_disjoint(a, self.pools[c].block_size, b, self.pools[d].block_size),
    {
        if c == d {
            self.pools[c].lemma_blocks_disjoint(Self::offset(c, a), Self::offset(c, b));
        }
    }

    /// A block of a class lies within the region of that class, and the
    /// regions of two classes share no byte: blocks of one class never
    /// overlap with blocks of another.
    pub proof fn lemma_classes_isolated(self, c: int, a: nat, d: int, b: nat)
        requires
            self.is_block_of(c, a),
            self.is_block_of(d, b),
            c != d,
        ensures
            Self::base(c) <= a && a + self.pools[c].block_size <= Self::base(c) + REGION_SIZE,
            Self::base(d) <= b && b + self.pools[d].block_size <= Self::base(d) + REGION_SIZE,
            ranges_disjoint(Self::base(c), REGION_SIZE as nat, Self::base(d), REGION_SIZE as nat),
            ranges_disjoint(a, self.pools[c].block_size, b, self.pools[d].block_size),
    {
    }

    /// A block that is released is the next one that a request of its
    /// class gets, and the allocator is then as it was before the release.
    pub proof fn lemma_reuse(self, addr: nat, size: nat)
        requires
            self.is_live(addr, size),
        ensures
            self.after_release(addr, size).outcome(size) == Ok::<nat, AllocError>(addr),
            self.after_release(addr, size).after_allocate(size) == self,
    {
        let c = self.class_of(size);
        let released = self.after_release(addr, size);
        released.lemma_same_routes(self, size, c);
        self.pools[c].lemma_reuse(Self::offset(c, addr));
        assert(released.after_allocate(size).pools =~= self.pools);
    }

    /// Blocks are handed out again in the reverse of the order of their
    /// release: of two blocks released one after the other, the later one
    /// is reused first, the earlier one second.
    pub proof fn lemma_lifo(self, a: nat, b: nat, size: nat)
        requires
            self.is_live(a, size),
            self.is_live(b, size),
        ensures
            self.after_release(a, size).after_release(b, size).outcome(size)
                == Ok::<nat, AllocError>(b),
            self.after_release(a, size).after_release(b, size).after_allocate(size).outcome(size)
                == Ok::<nat, AllocError>(a),
            self.after_release(a, size).after_release(b, size).after_allocate(size).after_allocate(
                size,
            ) == self,
    {
        let c = self.class_of(size);
        let one = self.after_release(a, size);
        let two = one.after_release(b, size);
        one.lemma_same_routes(self, size, c);
        two.lemma_same_routes(self, size, c);
        let off_a = Self::offset(c, a);
        let off_b = Self::offset(c, b);
        self.pools[c].lemma_lifo(off_a, off_b);
        self.pools[c].after_give(off_a).lemma_reuse(off_b);
        assert(two.after_allocate(size).pools =~= one.pools);
        assert(one.after_allocate(size).pools =~= self.pools);
    }

    /// A run of requests that all route to class `c` is a run of requests
    /// to the pool of that class.
    pub proof fn lemma_run_in_class(self, c: int, sizes: Seq<nat>)
        requires
            self.wf(),
            0 <= c < self.pools.len(),
            self.run_routes_to(sizes, c),
            sizes.len() <= self.pools[c].available(),
        ensures
            self.after_run(sizes).wf(),
            self.after_run(sizes) == self.with_pool(c, self.pools[c].after_takes(sizes.len())),
        decreases sizes.len(),
    {
        let n = sizes.len();
        self.pools[c].lemma_takes(n);
        if n == 0 {
            assert(self.pools.update(c, self.pools[c]) =~= self.pools);
        } else {
            let shorter = sizes.drop_last();
            let size = sizes.last();
            self.lemma_run_in_class(c, shorter);
            let mid = self.after_run(shorter);
            self.pools[c].lemma_takes((n - 1) as nat);
            mid.lemma_same_routes(self, size, c);
            mid.lemma_allocate(size);
            assert(mid.after_allocate(size).pools =~= self.pools.update(
                c,
                self.pools[c].after_takes(n),
            ));
        }
    }

    /// Request number `i` of a run in class `c` returns entry `i` of the
    /// free list as the first request of the run found it.
    proof fn lemma_nth_of_run(self, c: int, sizes: Seq<nat>, i: int)
        requires
            self.wf(),
            0 <= c < self.pools.len(),
            self.run_routes_to(sizes, c),
            sizes.len() <= self.pools[c].available(),
            0 <= i < sizes.len(),
        ensures
            self.pools[c].primed().free.len() == self.pools[c].available(),
            self.pools[c].primed().wf(),
            self.run_outcome(sizes, i) == Ok::<nat, AllocError>(
                Self::base(c) + self.pools[c].primed().free[i],
            ),
    {
        let pool = self.pools[c];
        let head = sizes.take(i);
        pool.lemma_carve_wf();
        pool.lemma_takes(i as nat);
        assert(self.run_routes_to(head, c));
        self.lemma_run_in_class(c, head);
        let mid = self.after_run(head);
        mid.lemma_same_routes(self, sizes[i], c);
    }

    /// As long as the pool of a class has blocks available, requests for
    /// that class in a row, with no release in between, all succeed; each
    /// returns a block of that class, aligned to the block size within the
    /// region of the class; the blocks differ and no two of them share a
    /// byte. For a pool that has handed out nothing, that holds of as many
    /// requests as blocks fit into its region.
    pub proof fn lemma_sequential_allocations(self, c: int, sizes: Seq<nat>)
        requires
            self.wf(),
            0 <= c < self.pools.len(),
            self.run_routes_to(sizes, c),
            sizes.len() <= self.pools[c].available(),
        ensures
            !self.pools[c].carved ==> self.pools[c].available() == self.pools[c].capacity(),
            forall|i: int|
                0 <= i < sizes.len() ==> {
                    &&& (#[trigger] self.run_outcome(sizes, i)) is Ok
                    &&& self.is_block_of(c, self.run_outcome(sizes, i)->Ok_0)
                },
            forall|i: int, j: int|
                0 <= i < j < sizes.len() ==> {
                    &&& (#[trigger] self.run_outcome(sizes, i)) != (#[trigger] self.run_outcome(
                        sizes,
                        j,
                    ))
                    &&& ranges_disjoint(
                        self.run_outcome(sizes, i)->Ok_0,
                        self.pools[c].block_size,
                        self.run_outcome(sizes, j)->Ok_0,
                        self.pools[c].block_size,
                    )
                },
    {
        let pool = self.pools[c];
        let list = pool.primed().free;
        assert forall|i: int| 0 <= i < sizes.len() implies (#[trigger] self.run_outcome(sizes, i))
            == Ok::<nat, AllocError>(Self::base(c) + list[i]) && pool.is_block(list[i]) by {
            self.lemma_nth_of_run(c, sizes, i);
        }
        assert forall|i: int, j: int| 0 <= i < j < sizes.len() implies {
            &&& (#[trigger] self.run_outcome(sizes, i)) != (#[trigger] self.run_outcome(sizes, j))
            &&& ranges_disjoint(
                self.run_outcome(sizes, i)->Ok_0,
                self.pools[c].block_size,
                self.run_outcome(sizes, j)->Ok_0,
                self.pools[c].block_size,
            )
        } by {
            self.lemma_nth_of_run(c, sizes, i);
            self.lemma_nth_of_run(c, sizes, j);
            pool.lemma_blocks_disjoint(list[i], list[j]);
        }
    }

    /// Once a run of requests has used up what the pool of a class had
    /// available, and nothing was released, the next request for that class
    /// is refused as exhausted. For a pool that has handed out nothing,
    /// that is after as many requests as blocks fit into its region.
    pub proof fn lemma_exhaustion(self, c: int, sizes: Seq<nat>, size: nat)
        requires
            self.wf(),
            0 <= c < self.pools.len(),
            self.run_routes_to(sizes, c),
            sizes.len() == self.pools[c].available(),
            self.routes_to(size, c),
        ensures
            !self.pools[c].carved ==> sizes.len() == self.pools[c].capacity(),
            self.after_run(sizes).outcome(size) == Err::<nat, AllocError>(AllocError::Exhausted),
    {
        self.lemma_run_in_class(c, sizes);
        self.pools[c].lemma_takes(sizes.len());
        self.after_run(sizes).lemma_same_routes(self, size, c);
    }
}

} // verus!
