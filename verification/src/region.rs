//! Layout of a backing region: how a region of `REGION_SIZE` bytes is cut
//! into equal blocks, and the arithmetic facts about that cut.

use vstd::prelude::*;

verus! {

/// Number of bytes in the backing region that every size class owns.
pub const REGION_SIZE: usize = 4096;

/// How many blocks of `block_size` bytes fit into one region. A block size
/// of zero, like one larger than the region, leaves no room for any block.
pub open spec fn block_count(block_size: nat) -> nat {
    if block_size == 0 {
        0
    } else {
        REGION_SIZE as nat / block_size
    }
}

/// `off` is the offset of a block: a multiple of the block size, counted
/// from the start of the region, with the whole block inside the region.
pub open spec fn block_aligned(block_size: nat, off: nat) -> bool {
    &&& block_size > 0
    &&& off % block_size == 0
    &&& off + block_size <= REGION_SIZE
}

/// The blocks fill the region from its start: together they never need
/// more bytes than the region has.
pub proof fn lemma_blocks_fit(block_size: nat)
    ensures
        block_count(block_size) * block_size <= REGION_SIZE,
{
    if block_size > 0 {
        let n = REGION_SIZE as int;
        let d = block_size as int;
        assert((n / d) * d <= n) by (nonlinear_arith)
            requires
                d > 0,
                n >= 0,
        ;
    }
}

/// The `k`-th block of a region starts at `k * block_size`.
pub proof fn lemma_indexed_block(block_size: nat, k: nat)
    requires
        k < block_count(block_size),
    ensures
        block_aligned(block_size, k * block_size),
        k * block_size + block_size == (k + 1) * block_size,
{
    lemma_blocks_fit(block_size);
    let c = block_count(block_size) as int;
    let d = block_size as int;
    let i = k as int;
    assert((i * d) % d == 0 && i * d + d == (i + 1) * d && (i + 1) * d <= c * d && i * d >= 0)
        by (nonlinear_arith)
        requires
            d > 0,
            0 <= i < c,
    ;
}

/// Every block offset is the start of one of the `block_count` blocks.
pub proof fn lemma_block_index(block_size: nat, off: nat)
    requires
        block_aligned(block_size, off),
    ensures
        off == (off / block_size) * block_size,
        off / block_size < block_count(block_size),
{
    let n = REGION_SIZE as int;
    let d = block_size as int;
    let x = off as int;
    assert(x == (x / d) * d && x / d < n / d) by (nonlinear_arith)
        requires
            d > 0,
            x >= 0,
            x % d == 0,
            x + d <= n,
    ;
}

/// A region holds room for one more block exactly while fewer than
/// `block_count` blocks have been cut from it.
pub proof fn lemma_room_for_block(block_size: nat, k: nat)
    requires
        block_size > 0,
    ensures
        k < block_count(block_size) <==> k * block_size + block_size <= REGION_SIZE,
{
    let n = REGION_SIZE as int;
    let d = block_size as int;
    let i = k as int;
    assert(i < n / d <==> i * d + d <= n) by (nonlinear_arith)
        requires
            d > 0,
            i >= 0,
            n >= 0,
    ;
}

/// Two different blocks of one size share no byte.
pub proof fn lemma_blocks_apart(block_size: nat, a: nat, b: nat)
    requires
        block_aligned(block_size, a),
        block_aligned(block_size, b),
        a != b,
    ensures
        a + block_size <= b || b + block_size <= a,
{
    let d = block_size as int;
    let x = a as int;
    let y = b as int;
    assert(x + d <= y || y + d <= x) by (nonlinear_arith)
        requires
            d > 0,
            x >= 0,
            y >= 0,
            x % d == 0,
            y % d == 0,
            x != y,
    ;
}

} // verus!
