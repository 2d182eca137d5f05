//! The pool of one size class: a free list threaded through a table of
//! links, one link per byte offset of the pool's region.

use vstd::prelude::*;
use crate::pool::{stacked_blocks, PoolModel};
use crate::region::{block_count, lemma_indexed_block, lemma_room_for_block, REGION_SIZE};

verus! {

/// The link that ends a free list. No block starts at this offset.
const NIL: u16 = 4096;

/// What the link behind position `i` of a free list must hold: the next
/// entry of the list, or `NIL` behind the last one. Position `-1` stands
/// for the head of the list.
spec fn successor(free: Seq<nat>, i: int) -> nat {
    if i + 1 < free.len() {
        free[i + 1]
    } else {
        NIL as nat
    }
}

/// The links spell out the list `free`: `head` names its first entry, the
/// link of every entry names the entry behind it, and the link of the last
/// one ends the list.
spec fn links_spell(head: u16, next: Seq<u16>, free: Seq<nat>) -> bool {
    &&& next.len() == REGION_SIZE
    &&& head as nat == successor(free, -1)
    &&& forall|i: int| 0 <= i < free.len() ==> (#[trigger] free[i]) < REGION_SIZE
    &&& forall|i: int|
        0 <= i < free.len() ==> next[free[i] as int] as nat == #[trigger] successor(free, i)
}

/// Linking a block that is not on the list in front of the head puts it
/// in front of the list.
proof fn lemma_push_link(head: u16, next: Seq<u16>, free: Seq<nat>, off: u16)
    requires
        links_spell(head, next, free),
        off < REGION_SIZE,
        !free.contains(off as nat),
    ensures
        links_spell(off, next.update(off as int, head), seq![off as nat] + free),
{
    let pushed = seq![off as nat] + free;
    let linked = next.update(off as int, head);
    assert forall|i: int| 0 <= i < pushed.len() implies linked[pushed[i] as int] as nat
        == #[trigger] successor(pushed, i) by {
        if i > 0 {
            assert(successor(free, i - 1) == successor(pushed, i));
        }
    }
}

/// The head names the first entry of a list that is not empty, and
/// following its link takes that entry off the list.
proof fn lemma_pop_link(head: u16, next: Seq<u16>, free: Seq<nat>)
    requires
        links_spell(head, next, free),
    ensures
        head == NIL <==> free.len() == 0,
        free.len() > 0 ==> head == free[0] && head < REGION_SIZE && links_spell(
            next[head as int],
            next,
            free.drop_first(),
        ),
{
    if free.len() > 0 {
        let rest = free.drop_first();
        assert(next[free[0] as int] as nat == successor(free, 0));
        assert forall|i: int| 0 <= i < rest.len() implies next[rest[i] as int] as nat
            == #[trigger] successor(rest, i) by {
            assert(successor(free, i + 1) == successor(rest, i));
        }
    }
}

/// A pool of equal blocks cut from a region of `REGION_SIZE` bytes that the
/// pool alone manages. A block is named by its byte offset in that region.
///
/// The free blocks form a singly linked list: `head` is the offset of the
/// first free block and `next[o]` the offset of the free block after the
/// one at `o`. The links live beside the region, not in the free blocks,
/// so that a block may be as small as one byte and the pool never reads
/// what a caller left in a block. The region is cut into blocks when a
/// request first finds the list empty, and never again.
pub struct SlabCache {
    size: usize,
    head: u16,
    next: [u16; REGION_SIZE],
    carved: bool,
    free: Ghost<Seq<nat>>,
}

impl View for SlabCache {
    type V = PoolModel;

    closed spec fn view(&self) -> PoolModel {
        PoolModel { block_size: self.size as nat, carved: self.carved, free: self.free@ }
    }
}

impl SlabCache {
    /// The links spell out the free list of the model, entry by entry.
    pub closed spec fn linked(&self) -> bool {
        links_spell(self.head, self.next@, self.free@)
    }

    /// The invariant that every operation keeps.
    pub open spec fn wf(&self) -> bool {
        self@.wf() && self.linked()
    }

    /// A pool for blocks of `size` bytes. Its region is untouched until the
    /// first request.
    pub fn new(size: usize) -> (cache: Self)
        ensures
            cache.wf(),
            cache@ == PoolModel::fresh(size as nat),
    {
        SlabCache {
            size,
            head: NIL,
            next: [NIL; REGION_SIZE],
            carved: false,
            free: Ghost(Seq::empty()),
        }
    }

    /// The size in bytes of the blocks of this pool.
    pub fn block_size(&self) -> (size: usize)
        ensures
            size == self@.block_size,
    {
        self.size
    }

    /// Hands out the block at the head of the free list, after cutting the
    /// region into blocks if the list is empty and the region still whole.
    /// Returns `None` when the pool is exhausted.
    pub fn allocate(&mut self) -> (res: Option<usize>)
        requires
            old(self).wf(),
        ensures
            final(self).wf(),
            final(self)@ == old(self)@.after_take(),
            match res {
                Some(off) => old(self)@.taken() == Some(off as nat),
                None => old(self)@.taken() is None,
            },
            res matches Some(off) ==> final(self)@.is_allocated(off as nat),
    {
        proof {
            lemma_pop_link(self.head, self.next@, self.free@);
        }
        if self.head == NIL {
            self.refill();
        }
        proof {
            old(self)@.lemma_take();
            lemma_pop_link(self.head, self.next@, self.free@);
        }
        let node: u16 = self.head;
        if node == NIL {
            return None;
        }
        self.head = self.next[node as usize];
        self.free = Ghost(self.free@.drop_first());
        Some(node as usize)
    }

    /// Puts `block` at the head of the free list. The caller names a block
    /// that this pool handed out and that has not come back since; the pool
    /// has no means to tell.
    pub fn dealloc(&mut self, block: usize)
        requires
            old(self).wf(),
            old(self)@.is_allocated(block as nat),
        ensures
            final(self).wf(),
            final(self)@ == old(self)@.after_give(block as nat),
    {
        proof {
            old(self)@.lemma_give(block as nat);
            lemma_push_link(self.head, self.next@, self.free@, block as u16);
        }
        self.next[block] = self.head;
        self.head = block as u16;
        self.free = Ghost(seq![block as nat] + self.free@);
    }

    /// Cuts the region into blocks and links them all into the free list,
    /// unless that has been done before. The block at the highest offset
    /// ends up at the head.
    fn refill(&mut self)
        requires
            old(self).wf(),
            old(self)@.free.len() == 0,
        ensures
            final(self).wf(),
            final(self)@ == old(self)@.primed(),
    {
        if self.carved {
            return;
        }
        self.carved = true;
        let ghost bs = self.size as nat;
        let ghost mut count: nat = 0;
        let mut offset: usize = 0;
        while self.size != 0 && self.size <= REGION_SIZE - offset
            invariant
                self.size == old(self).size,
                self.carved,
                bs == self.size,
                offset == count * bs,
                offset <= REGION_SIZE,
                count <= block_count(bs),
                self.free@ =~= stacked_blocks(bs, count),
                self.linked(),
            decreases REGION_SIZE - offset,
        {
            proof {
                lemma_room_for_block(bs, count);
                lemma_indexed_block(bs, count);
                PoolModel::lemma_stack_one_more(bs, count);
                lemma_push_link(self.head, self.next@, self.free@, offset as u16);
            }
            self.next[offset] = self.head;
            self.head = offset as u16;
            self.free = Ghost(seq![offset as nat] + self.free@);
            offset += self.size;
            proof {
                count = count + 1;
            }
        }
        proof {
            if bs > 0 {
                lemma_room_for_block(bs, count);
            }
            old(self)@.lemma_carve_wf();
        }
    }
}

} // verus!
