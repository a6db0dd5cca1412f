//! Node identifiers: a kind in the two top bits, an index in the other thirty.

use vstd::prelude::*;

verus! {

/// The identifier that names no node. Used as the end of every linked list.
pub const NONE: u32 = 0xffff_ffff;

/// Kind of a belt.
pub const K_BELT: u32 = 0;

/// Kind of a machine.
pub const K_MACH: u32 = 1;

/// Kind of a sink.
pub const K_SINK: u32 = 2;

/// Kind of a source.
pub const K_SRC: u32 = 3;

const KIND_SHIFT: u32 = 30;

const IDX_MASK: u32 = 0x3fff_ffff;

/// The kind of the node that `id` names.
pub open spec fn kind(id: u32) -> int {
    id as int / 0x4000_0000
}

/// The index of the node that `id` names, among the nodes of its kind.
pub open spec fn idx(id: u32) -> int {
    id as int % 0x4000_0000
}

/// The identifier of the node of kind `k` with index `i`.
pub open spec fn node(k: u32, i: int) -> u32 {
    (k * 0x4000_0000 + i) as u32
}

/// Builds an identifier from a kind and an index.
pub fn mkid(kind: u32, idx: u32) -> (id: u32)
    ensures
        id == (kind << 30u32) | idx,
        kind < 4 && idx < 0x4000_0000 ==> id == node(kind, idx as int),
{
    assert(kind < 4 && idx < 0x4000_0000 ==> (kind << 30u32) | idx == kind * 0x4000_0000 + idx)
        by (bit_vector);
    (kind << KIND_SHIFT) | idx
}

/// The kind in an identifier.
pub fn kind_of(id: u32) -> (k: u32)
    ensures
        k == kind(id),
        k < 4,
        k == id >> 30u32,
{
    assert(id >> 30u32 == id / 0x4000_0000) by (bit_vector);
    id >> KIND_SHIFT
}

/// The index in an identifier.
pub fn idx_of(id: u32) -> (i: usize)
    ensures
        i == idx(id),
        i < 0x4000_0000,
        i as int == id & 0x3fff_ffff,
{
    assert(id & 0x3fff_ffffu32 == id % 0x4000_0000) by (bit_vector);
    (id & IDX_MASK) as usize
}

/// An identifier is put together from its kind and its index, and taken apart
/// into the two again.
pub proof fn law_id_round_trip(k: u32, i: int)
    requires
        k < 4,
        0 <= i < 0x4000_0000,
    ensures
        kind(node(k, i)) == k,
        idx(node(k, i)) == i,
        node(k, i) as int == k * 0x4000_0000 + i,
{
}

/// The identifiers of belts come first, then those of machines, of sinks and of sources.
pub proof fn law_kinds_in_order(id: u32)
    ensures
        kind(id) == K_BELT <==> id < 0x4000_0000,
        kind(id) == K_MACH <==> 0x4000_0000 <= id < 0x8000_0000,
        kind(id) == K_SINK <==> 0x8000_0000 <= id < 0xc000_0000,
        kind(id) == K_SRC <==> 0xc000_0000 <= id,
        K_BELT == 0 && K_MACH == 1 && K_SINK == 2 && K_SRC == 3,
{
}

/// Distinct identifiers differ in their kind or in their index.
pub proof fn law_id_unique(a: u32, b: u32)
    requires
        kind(a) == kind(b),
        idx(a) == idx(b),
    ensures
        a == b,
        a == node(kind(a) as u32, idx(a)),
{
}

} // verus!
