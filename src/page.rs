//! One page of shadow memory: the patched byte values of an aligned window of
//! `PAGE_SIZE` bytes and a bitmap with one bit per byte that says which of
//! them were patched.
use vstd::prelude::*;

use crate::align::{align_8, align_next_8};

verus! {

/// Number of bytes that one page covers.
pub const PAGE_SIZE: usize = 0x1000;

/// Number of bitmap bytes of one page: one bit per byte of the page.
pub const MAP_LEN: usize = 0x200;

/// Whether bit `bit` (0 is the least significant) of `byte` is set.
pub open spec fn bit_set(byte: u8, bit: u8) -> bool {
    byte & (1u8 << bit) != 0
}

proof fn lemma_bit_set_after_or(x: u8, b: u8, c: u8)
    requires
        b < 8,
        c < 8,
    ensures
        bit_set(x | (1u8 << b), c) == (b == c || bit_set(x, c)),
{
    assert((x | (1u8 << b)) & (1u8 << c) != 0 <==> (b == c || x & (1u8 << c) != 0))
        by (bit_vector)
        requires
            b < 8,
            c < 8,
    ;
}

proof fn lemma_no_bit_set_in_zero(c: u8)
    requires
        c < 8,
    ensures
        !bit_set(0u8, c),
{
    assert(0u8 & (1u8 << c) == 0) by (bit_vector);
}

/// The patched bytes of one aligned window of the address space.
pub struct ShadowPage {
    buf: Vec<u8>,
    map: Vec<u8>,
}

impl View for ShadowPage {
    /// For each offset of the page, the value patched there, or `None` where
    /// nothing was patched.
    type V = Seq<Option<u8>>;

    closed spec fn view(&self) -> Seq<Option<u8>> {
        Seq::new(
            PAGE_SIZE as nat,
            |o: int|
                if bit_set(self.map@[o / 8], (o % 8) as u8) {
                    Some(self.buf@[o])
                } else {
                    None
                },
        )
    }
}

impl ShadowPage {
    /// The byte buffer and the bitmap have their fixed lengths.
    pub closed spec fn wf(&self) -> bool {
        &&& self.buf@.len() == PAGE_SIZE
        &&& self.map@.len() == MAP_LEN
    }

    /// Whether some offset in `[beg, end]` of the page was patched.
    pub open spec fn any_patched_in(&self, beg: int, end: int) -> bool {
        exists|o: int| beg <= o <= end && 0 <= o < PAGE_SIZE && (#[trigger] self@[o]) is Some
    }

    /// A page on which nothing is patched.
    pub fn new() -> (r: ShadowPage)
        ensures
            r.wf(),
            r@.len() == PAGE_SIZE,
            forall|o: int| 0 <= o < PAGE_SIZE ==> (#[trigger] r@[o]) is None,
    {
        let r = ShadowPage { buf: vec![0u8; PAGE_SIZE], map: vec![0u8; MAP_LEN] };
        assert forall|o: int| 0 <= o < PAGE_SIZE implies (#[trigger] r@[o]) is None by {
            assert(r.map@[o / 8] == 0u8);
            lemma_no_bit_set_in_zero((o % 8) as u8);
        }
        r
    }

    /// Stores `value` at `offset` and marks that offset as patched.
    pub fn mark(&mut self, offset: usize, value: u8)
        requires
            old(self).wf(),
            offset < PAGE_SIZE,
        ensures
            final(self).wf(),
            final(self)@ == old(self)@.update(offset as int, Some(value)),
    {
        let idx: usize = offset / 8;
        let bit: usize = offset % 8;
        let old_bits: u8 = self.map[idx];
        self.buf.set(offset, value);
        self.map.set(idx, old_bits | (1u8 << (bit as u8)));
        proof {
            let pre = old(self)@.update(offset as int, Some(value));
            assert forall|o: int| 0 <= o < PAGE_SIZE implies #[trigger] self@[o] == pre[o] by {
                if o / 8 == idx as int {
                    lemma_bit_set_after_or(old_bits, bit as u8, (o % 8) as u8);
                }
            }
            assert(self@ =~= pre);
        }
    }

    /// Whether `rel_offs` was patched. A bitmap byte of zero answers for
    /// its eight offsets at once.
    pub fn has_patch(&self, rel_offs: usize) -> (r: bool)
        requires
            self.wf(),
            rel_offs < PAGE_SIZE,
        ensures
            r == self@[rel_offs as int] is Some,
    {
        let bits: u8 = self.map[rel_offs / 8];
        if bits == 0 {
            proof {
                lemma_no_bit_set_in_zero((rel_offs % 8) as u8);
            }
            return false;
        }
        bits & (1u8 << ((rel_offs % 8) as u8)) != 0
    }

    /// The value patched at `rel_offs`, or `None` where nothing was patched.
    pub fn patched_value(&self, rel_offs: usize) -> (r: Option<u8>)
        requires
            self.wf(),
            rel_offs < PAGE_SIZE,
        ensures
            r == self@[rel_offs as int],
    {
        if self.has_patch(rel_offs) {
            Some(self.buf[rel_offs])
        } else {
            None
        }
    }

    /// Whether some offset in the inclusive range `range.0 ..= range.1` was
    /// patched; offsets past the page are not part of it. Eight offsets whose
    /// bitmap byte is zero are passed over in one step.
    pub fn has_patch_in_range(&self, range: (usize, usize)) -> (r: bool)
        requires
            self.wf(),
            range.1 <= PAGE_SIZE,
        ensures
            r == self.any_patched_in(range.0 as int, range.1 as int),
    {
        let (beg, end) = range;
        let mut i: usize = beg;
        while i <= end && i < PAGE_SIZE
            invariant
                self.wf(),
                beg == range.0,
                end == range.1,
                end <= PAGE_SIZE,
                beg <= i,
                forall|o: int| beg <= o < i && o <= end && o < PAGE_SIZE ==> (#[trigger] self@[o]) is None,
            decreases PAGE_SIZE - i,
        {
            let i_aligned: usize = align_8(i);
            let bits: u8 = self.map[i_aligned / 8];
            if bits > 0 {
                let bit_idx: usize = i - i_aligned;
                if bits & (1u8 << (bit_idx as u8)) != 0 {
                    assert(self@[i as int] is Some);
                    return true;
                }
                i = i + 1;
            } else {
                let next: usize = align_next_8(i + 1);
                proof {
                    assert forall|o: int| i <= o < next implies (#[trigger] self@[o]) is None by {
                        assert(o / 8 == i_aligned / 8);
                        lemma_no_bit_set_in_zero((o % 8) as u8);
                    }
                }
                i = next;
            }
        }
        false
    }
}

} // verus!
