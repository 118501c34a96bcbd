//! Index arithmetic of the binary max-heap over variable indices.
use vstd::prelude::*;

verus! {

/// The position of an index that is not on the heap.
pub const DISCONTAIN: u32 = 0xffff_ffff;

/// Whether a heap position marks an index as not contained
/// (its top bit is set, so it is negative as a signed word).
pub fn discontained(pos: u32) -> (r: bool)
    ensures
        r == (pos >= 0x8000_0000),
{
    pos >= 0x8000_0000
}

/// The position of the first child of `pos`.
pub fn heap_child(pos: u32) -> (r: u32)
    requires
        pos < 0x8000_0000,
    ensures
        r == 2 * pos + 1,
{
    2 * pos + 1
}

/// The position of the parent of `pos`.
pub fn heap_parent(pos: u32) -> (r: u32)
    requires
        pos > 0,
    ensures
        r == (pos - 1) / 2,
{
    (pos - 1) / 2
}

/// The parent of a child is the position itself.
pub proof fn lemma_parent_of_child(pos: u32)
    requires
        pos < 0x7fff_ffff,
    ensures
        ((2 * pos + 1) - 1) / 2 == pos,
        ((2 * pos + 2) - 1) / 2 == pos,
{
}

} // verus!
