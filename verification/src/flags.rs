//! The flag bits of a node.

use vstd::prelude::*;

verus! {

/// Its output found no room (belts and sources).
pub const F_BLOCKED: u8 = 1;

/// It waits for another node.
pub const F_WAIT: u8 = 2;

/// It is on the timing wheel or among the far timers.
pub const F_WHEEL: u8 = 4;

/// It is at work (machines).
pub const F_BUSY: u8 = 8;

/// It holds a product (machines).
pub const F_HASOUT: u8 = 16;

/// It is to be handled within the current tick.
pub const F_READY: u8 = 32;

/// The flags `x` hold the flag `f`.
pub open spec fn flag_on(x: u8, f: u8) -> bool {
    x & f != 0
}

/// Setting or clearing one flag does that, and leaves the other flags as they
/// are.
pub proof fn lemma_flags(x: u8)
    by (bit_vector)
    ensures
        (x | 1u8) & 1u8 == 1u8,
        (x & !1u8) & 1u8 == 0u8,
        (x | 1u8) & 2u8 == x & 2u8,
        (x & !1u8) & 2u8 == x & 2u8,
        (x | 1u8) & 4u8 == x & 4u8,
        (x & !1u8) & 4u8 == x & 4u8,
        (x | 1u8) & 8u8 == x & 8u8,
        (x & !1u8) & 8u8 == x & 8u8,
        (x | 1u8) & 16u8 == x & 16u8,
        (x & !1u8) & 16u8 == x & 16u8,
        (x | 1u8) & 32u8 == x & 32u8,
        (x & !1u8) & 32u8 == x & 32u8,
        (x | 2u8) & 1u8 == x & 1u8,
        (x & !2u8) & 1u8 == x & 1u8,
        (x | 2u8) & 2u8 == 2u8,
        (x & !2u8) & 2u8 == 0u8,
        (x | 2u8) & 4u8 == x & 4u8,
        (x & !2u8) & 4u8 == x & 4u8,
        (x | 2u8) & 8u8 == x & 8u8,
        (x & !2u8) & 8u8 == x & 8u8,
        (x | 2u8) & 16u8 == x & 16u8,
        (x & !2u8) & 16u8 == x & 16u8,
        (x | 2u8) & 32u8 == x & 32u8,
        (x & !2u8) & 32u8 == x & 32u8,
        (x | 4u8) & 1u8 == x & 1u8,
        (x & !4u8) & 1u8 == x & 1u8,
        (x | 4u8) & 2u8 == x & 2u8,
        (x & !4u8) & 2u8 == x & 2u8,
        (x | 4u8) & 4u8 == 4u8,
        (x & !4u8) & 4u8 == 0u8,
        (x | 4u8) & 8u8 == x & 8u8,
        (x & !4u8) & 8u8 == x & 8u8,
        (x | 4u8) & 16u8 == x & 16u8,
        (x & !4u8) & 16u8 == x & 16u8,
        (x | 4u8) & 32u8 == x & 32u8,
        (x & !4u8) & 32u8 == x & 32u8,
        (x | 8u8) & 1u8 == x & 1u8,
        (x & !8u8) & 1u8 == x & 1u8,
        (x | 8u8) & 2u8 == x & 2u8,
        (x & !8u8) & 2u8 == x & 2u8,
        (x | 8u8) & 4u8 == x & 4u8,
        (x & !8u8) & 4u8 == x & 4u8,
        (x | 8u8) & 8u8 == 8u8,
        (x & !8u8) & 8u8 == 0u8,
        (x | 8u8) & 16u8 == x & 16u8,
        (x & !8u8) & 16u8 == x & 16u8,
        (x | 8u8) & 32u8 == x & 32u8,
        (x & !8u8) & 32u8 == x & 32u8,
        (x | 16u8) & 1u8 == x & 1u8,
        (x & !16u8) & 1u8 == x & 1u8,
        (x | 16u8) & 2u8 == x & 2u8,
        (x & !16u8) & 2u8 == x & 2u8,
        (x | 16u8) & 4u8 == x & 4u8,
        (x & !16u8) & 4u8 == x & 4u8,
        (x | 16u8) & 8u8 == x & 8u8,
        (x & !16u8) & 8u8 == x & 8u8,
        (x | 16u8) & 16u8 == 16u8,
        (x & !16u8) & 16u8 == 0u8,
        (x | 16u8) & 32u8 == x & 32u8,
        (x & !16u8) & 32u8 == x & 32u8,
        (x | 32u8) & 1u8 == x & 1u8,
        (x & !32u8) & 1u8 == x & 1u8,
        (x | 32u8) & 2u8 == x & 2u8,
        (x & !32u8) & 2u8 == x & 2u8,
        (x | 32u8) & 4u8 == x & 4u8,
        (x & !32u8) & 4u8 == x & 4u8,
        (x | 32u8) & 8u8 == x & 8u8,
        (x & !32u8) & 8u8 == x & 8u8,
        (x | 32u8) & 16u8 == x & 16u8,
        (x & !32u8) & 16u8 == x & 16u8,
        (x | 32u8) & 32u8 == 32u8,
        (x & !32u8) & 32u8 == 0u8,
{
}

/// No flag is set in the empty set of flags; two flags together.
pub proof fn lemma_flag_values(x: u8)
    by (bit_vector)
    ensures
        0u8 & 1u8 == 0u8,
        0u8 & 2u8 == 0u8,
        0u8 & 4u8 == 0u8,
        0u8 & 8u8 == 0u8,
        0u8 & 16u8 == 0u8,
        0u8 & 32u8 == 0u8,
        8u8 | 16u8 == 24u8,
        x & 24u8 == (x & 8u8) + (x & 16u8),
        x & 1u8 == 0u8 || x & 1u8 == 1u8,
        x & 8u8 == 0u8 || x & 8u8 == 8u8,
        x & 16u8 == 0u8 || x & 16u8 == 16u8,
{
}

} // verus!
