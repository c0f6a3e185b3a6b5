//! Rounding of in-page offsets to multiples of eight, the width of one bitmap byte.
use vstd::prelude::*;

verus! {

/// Rounds `x` down to a multiple of eight.
pub fn align_8(x: usize) -> (r: usize)
    ensures
        r == x - x % 8,
{
    let r: usize = x & !7usize;
    assert(x & !7usize == x - x % 8) by (bit_vector);
    r
}

/// Rounds `x` up to a multiple of eight; a multiple of eight is kept as it is.
pub fn align_next_8(x: usize) -> (r: usize)
    requires
        x + 7 <= usize::MAX,
    ensures
        r == if x % 8 == 0 { x as int } else { x + (8 - x % 8) },
{
    let y: usize = x + 7;
    let r: usize = y & !7usize;
    assert(y & !7usize == (if x % 8 == 0 { x as int } else { x + (8 - x % 8) })) by (bit_vector)
        requires
            y == x + 7,
    ;
    r
}

} // verus!
