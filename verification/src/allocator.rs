//! The allocator: a table of pools, one for each size class, and the
//! dispatcher that routes a request to the smallest class that fits.

use vstd::prelude::*;
use crate::cache::SlabCache;
use crate::dispatch::AllocatorModel;
use crate::error::AllocError;
use crate::region::{lemma_room_for_block, REGION_SIZE};

verus! {

/// Number of size classes of the allocator.
pub const CLASS_COUNT: usize = 8;

/// Block size of the largest class: the most that a request may ask for.
pub const MAX_BLOCK_SIZE: usize = 1024;

/// The block sizes of the classes, in the order of the table.
pub open spec fn class_sizes() -> Seq<nat> {
    seq![8, 16, 32, 64, 128, 256, 512, 1024]
}

/// A slab allocator with the size classes 8, 16, 32, 64, 128, 256, 512 and
/// 1024 bytes. Each class owns a region of `REGION_SIZE` bytes; the region of
/// class `c` starts at the address `c * REGION_SIZE`, and a block is named
/// by the address of its first byte.
pub struct SlabAllocator {
    caches: [SlabCache; CLASS_COUNT],
}

impl View for SlabAllocator {
    type V = AllocatorModel;

    closed spec fn view(&self) -> AllocatorModel {
        AllocatorModel { pools: Seq::new(CLASS_COUNT as nat, |c: int| self.caches@[c]@) }
    }
}

impl SlabAllocator {
    /// Every pool of the table has its links in order.
    pub closed spec fn linked(&self) -> bool {
        forall|c: int| 0 <= c < CLASS_COUNT ==> (#[trigger] self.caches@[c]).linked()
    }

    /// The invariant that every operation keeps: that of the model, the
    /// block sizes that the table was made with, and the links in order.
    pub open spec fn wf(&self) -> bool {
        &&& self@.wf()
        &&& self@.block_sizes() == class_sizes()
        &&& self.linked()
    }

    /// An allocator that has handed out nothing.
    pub fn new() -> (slab: Self)
        ensures
            slab.wf(),
            slab@ == AllocatorModel::fresh(class_sizes()),
    {
        let slab = SlabAllocator {
            caches: [
                SlabCache::new(8),
                SlabCache::new(16),
                SlabCache::new(32),
                SlabCache::new(64),
                SlabCache::new(128),
                SlabCache::new(256),
                SlabCache::new(512),
                SlabCache::new(1024),
            ],
        };
        assert(slab@.pools =~= AllocatorModel::fresh(class_sizes()).pools);
        assert(slab@.block_sizes() =~= class_sizes());
        slab
    }

    /// Hands out a block of at least `size` bytes from the smallest class
    /// that is large enough, and returns its address.
    ///
    /// Fails with `Unsupported` when `size` exceeds `MAX_BLOCK_SIZE`, and
    /// with `Exhausted` when the class that serves `size` has no block
    /// left. A refused request changes nothing.
    pub fn allocate(&mut self, size: usize) -> (res: Result<usize, AllocError>)
        requires
            old(self).wf(),
        ensures
            final(self).wf(),
            final(self)@ == old(self)@.after_allocate(size as nat),
            match res {
                Ok(addr) => old(self)@.outcome(size as nat) == Ok::<nat, AllocError>(addr as nat),
                Err(e) => old(self)@.outcome(size as nat) == Err::<nat, AllocError>(e),
            },
            res == Err::<usize, AllocError>(AllocError::Unsupported) <==> size > MAX_BLOCK_SIZE,
            res is Err ==> final(self)@ == old(self)@,
            res matches Ok(addr) ==> final(self)@.is_live(addr as nat, size as nat),
    {
        let mut c: usize = 0;
        while c < CLASS_COUNT
            invariant
                c <= CLASS_COUNT,
                *self == *old(self),
                self.wf(),
                forall|d: int| 0 <= d < c ==> (#[trigger] self@.pools[d]).block_size < size,
            decreases CLASS_COUNT - c,
        {
            if size <= self.caches[c].block_size() {
                proof {
                    self@.lemma_route_unique(size as nat, c as int);
                    self@.lemma_allocate(size as nat);
                    lemma_room_for_block(self@.pools[c as int].block_size, 0);
                    if self@.outcome(size as nat) is Err {
                        self@.lemma_refusal(size as nat);
                    }
                }
                let taken = self.caches[c].allocate();
                assert(self@.pools =~= old(self)@.pools.update(
                    c as int,
                    old(self)@.pools[c as int].after_take(),
                ));
                return match taken {
                    Some(off) => Ok(c * REGION_SIZE + off),
                    None => Err(AllocError::Exhausted),
                };
            }
            c += 1;
        }
        Err(AllocError::Unsupported)
    }

    /// Takes back the block at `ptr`. `size` decides which class the block
    /// returns to, by the rule that routes requests: the caller passes a
    /// block that is handed out, with a size that routes to the class the
    /// block came from. The block is the next one handed out by its class.
    pub fn dealloc(&mut self, ptr: usize, size: usize)
        requires
            old(self).wf(),
            old(self)@.is_live(ptr as nat, size as nat),
        ensures
            final(self).wf(),
            final(self)@ == old(self)@.after_release(ptr as nat, size as nat),
    {
        let mut c: usize = 0;
        while c < CLASS_COUNT
            invariant
                c <= CLASS_COUNT,
                *self == *old(self),
                self.wf(),
                self@.is_live(ptr as nat, size as nat),
                forall|d: int| 0 <= d < c ==> (#[trigger] self@.pools[d]).block_size < size,
            decreases CLASS_COUNT - c,
        {
            if size <= self.caches[c].block_size() {
                proof {
                    self@.lemma_route_unique(size as nat, c as int);
                    self@.lemma_release(ptr as nat, size as nat);
                }
                self.caches[c].dealloc(ptr - c * REGION_SIZE);
                assert(self@.pools =~= old(self)@.pools.update(
                    c as int,
                    old(self)@.pools[c as int].after_give((ptr - c * REGION_SIZE) as nat),
                ));
                return;
            }
            c += 1;
        }
        // A live block has a class that serves `size`, and the loop returns
        // when it comes to that class: it never ends without a release.
        assert(!self@.routes_to(size as nat, self@.class_of(size as nat)));
    }
}

} // verus!
