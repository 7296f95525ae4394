use vstd::arithmetic::power2::pow2;
use vstd::prelude::*;

verus! {

/// Size in bytes of the smallest block (a leaf of the tree).
pub const MIN_SIZE: usize = 4096;

/// Largest block size that a search will serve.
pub const MAX_SIZE: usize = 16777216;

/// Largest number of leaves a tree can manage.
pub const MAX_PAGES: usize = 32768;

/// Capacity of the node table and of the bitmap: the node count of a tree
/// with `MAX_PAGES` leaves.
pub const MAX_NODES: usize = 65535;

/// Why a tree could not be laid over a region.
#[derive(Debug, Clone, Copy, PartialEq, Eq, Structural)]
pub enum InitError {
    /// The region does not hold a single minimum-size block.
    TooSmall,
    /// The region needs more nodes than the table can hold.
    OverCapacity,
}

/// Why a search found no node.
#[derive(Debug, Clone, Copy, PartialEq, Eq, Structural)]
pub enum SearchError {
    /// The requested size is above `MAX_SIZE`.
    TooLarge,
    /// No node of the requested size class is in the requested state.
    NotFound,
}

/// Index of the leftmost node of `level` (level 1 is the root).
pub open spec fn first_index(level: nat) -> int {
    pow2((level - 1) as nat) - 1
}

/// `p` is the largest power of two that is at most `n`.
pub open spec fn is_floor_pow2(p: nat, n: nat) -> bool {
    &&& exists|k: nat| pow2(k) == p
    &&& p <= n < 2 * p
}

/// Size of a block at `level` in a tree of height `height`.
pub open spec fn block_size(height: nat, level: nat) -> nat {
    MIN_SIZE as nat * pow2((height - level) as nat)
}

/// `size` is the block size of some level of a tree of height `height`.
pub open spec fn is_block_size(height: nat, size: nat) -> bool {
    exists|l: nat| 1 <= l <= height && size == block_size(height, l)
}

/// The level whose blocks have `size` bytes.
pub open spec fn level_for(height: nat, size: nat) -> nat {
    choose|l: nat| 1 <= l <= height && size == block_size(height, l)
}

/// `i` lies in the band of descendants of `root` that is `d` levels below it.
pub open spec fn in_band(root: nat, d: nat, i: nat) -> bool {
    (root + 1) * pow2(d) <= i + 1 < (root + 2) * pow2(d)
}

/// `i` is `root` or one of its descendants.
pub open spec fn in_subtree(root: nat, i: nat) -> bool {
    exists|d: nat| #[trigger] in_band(root, d, i)
}

/// `bits` with the bit of every node of the subtree of `root` that is at
/// most `max` set to `v`.
pub open spec fn marked(bits: Seq<bool>, root: nat, max: nat, v: bool) -> Seq<bool> {
    Seq::new(
        bits.len(),
        |i: int| if i <= max && in_subtree(root, i as nat) { v } else { bits[i] },
    )
}

} // verus!
