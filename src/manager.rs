//! The shadow store: a sparse table from page-aligned base addresses to
//! pages, with pages created on the first patch inside them.
use vstd::prelude::*;

use std::collections::HashMap;
use vstd::std_specs::iter::IteratorSpec;

use crate::page::{ShadowPage, PAGE_SIZE};

verus! {

/// The base address of the page that holds `a`: `a` rounded down to a
/// multiple of `PAGE_SIZE`.
pub open spec fn page_base(a: u64) -> u64 {
    (a - a % (PAGE_SIZE as u64)) as u64
}

/// Whether `m` holds some address in the inclusive range `[beg, end]`.
pub open spec fn any_marked_in(m: Map<u64, u8>, beg: u64, end: u64) -> bool {
    exists|a: u64| beg <= a <= end && #[trigger] m.contains_key(a)
}

/// The page base of `a` is aligned and lies less than a page below `a`.
proof fn lemma_page_base(a: u64)
    ensures
        page_base(a) <= a,
        a - page_base(a) < PAGE_SIZE,
        page_base(a) % (PAGE_SIZE as u64) == 0,
{
    let b: u64 = (a - a % 4096) as u64;
    assert(b == (a - a % 4096) as u64 ==> b <= a && a - b < 4096 && b % 4096 == 0) by (bit_vector);
}

/// An address within the page that starts at the aligned `base` has `base`
/// as its page base.
proof fn lemma_page_base_within(base: u64, a: u64)
    requires
        base % (PAGE_SIZE as u64) == 0,
        base <= a,
        a < base + PAGE_SIZE,
    ensures
        page_base(a) == base,
{
    assert((a - a % 4096) as u64 == base) by (bit_vector)
        requires
            base % 4096 == 0,
            base <= a,
            a < base + 4096,
    ;
}

/// Two distinct aligned bases lie at least a page apart, and the base one
/// page above the lower is aligned too.
proof fn lemma_aligned_gap(lo: u64, hi: u64)
    requires
        lo % (PAGE_SIZE as u64) == 0,
        hi % (PAGE_SIZE as u64) == 0,
        lo < hi,
    ensures
        lo + PAGE_SIZE <= hi,
        ((lo + PAGE_SIZE) as u64) % (PAGE_SIZE as u64) == 0,
{
    assert(lo + 4096 <= hi && ((lo + 4096) as u64) % 4096 == 0) by (bit_vector)
        requires
            lo % 4096 == 0,
            hi % 4096 == 0,
            lo < hi,
    ;
}

/// Why a query was refused.
#[derive(Debug, Clone, Copy, PartialEq, Eq, Structural)]
pub enum ShadowError {
    /// The range's first address lies after its last one.
    InvalidRange { begin: u64, end: u64 },
}

/// A whole page fits above an aligned base address.
proof fn lemma_aligned_room(base: u64)
    requires
        base % (PAGE_SIZE as u64) == 0,
    ensures
        base + PAGE_SIZE <= u64::MAX + 1,
{
    assert(base + 4096 <= 0x1_0000_0000_0000_0000) by (bit_vector)
        requires
            base % 4096 == 0,
    ;
}

/// Addresses of one page come in increasing order.
pub open spec fn ascending_within_pages(s: Seq<u64>) -> bool {
    forall|i: int, j: int|
        0 <= i < j < s.len() && page_base(s[i]) == page_base(s[j]) ==> s[i] < s[j]
}

/// The addresses of each page stand together, in one run.
pub open spec fn pages_in_runs(s: Seq<u64>) -> bool {
    forall|i: int, j: int, k: int|
        0 <= i < j < k < s.len() && page_base(s[i]) == page_base(s[k]) ==> page_base(s[j])
            == page_base(s[i])
}

/// Whether `a` is patched in `m` and its page base is one of the first `n`
/// entries of `bases`.
spec fn marked_on_listed_page(m: Map<u64, u8>, bases: Seq<&u64>, n: int, a: u64) -> bool {
    m.contains_key(a) && exists|j: int| 0 <= j < n && *bases[j] == page_base(a)
}

/// Records patched bytes of a 64-bit address space.
pub struct ShadowManager {
    pages: HashMap<u64, ShadowPage>,
}

impl View for ShadowManager {
    /// Each patched address, with the value last patched there.
    type V = Map<u64, u8>;

    closed spec fn view(&self) -> Map<u64, u8> {
        Map::new(|a: u64| self.slot(a) is Some, |a: u64| self.slot(a)->0)
    }
}

impl ShadowManager {
    /// What the page table holds for `a`: its page's entry, or `None` where
    /// that page does not exist.
    closed spec fn slot(&self, a: u64) -> Option<u8> {
        if self.pages@.contains_key(page_base(a)) {
            self.pages@[page_base(a)]@[a - page_base(a)]
        } else {
            None
        }
    }

    /// Every page is keyed by its aligned base address, is well formed, and
    /// holds at least one patched byte.
    pub closed spec fn wf(&self) -> bool {
        forall|k: u64|
            #[trigger] self.pages@.contains_key(k) ==> {
                &&& k % (PAGE_SIZE as u64) == 0
                &&& self.pages@[k].wf()
                &&& self.pages@[k]@.len() == PAGE_SIZE
                &&& exists|o: int| 0 <= o < PAGE_SIZE && (#[trigger] self.pages@[k]@[o]) is Some
            }
    }

    proof fn lemma_view_contains(&self, a: u64)
        ensures
            self@.contains_key(a) == self.slot(a) is Some,
            self@.contains_key(a) ==> self@[a] == self.slot(a)->0,
    {
    }

    /// Once every base address of the page table is listed, every patched
    /// address lies on a listed page.
    proof fn lemma_all_pages_listed(&self, bases: Seq<&u64>)
        requires
            bases.unref().to_set() == self.pages@.dom(),
        ensures
            forall|a: u64|
                #[trigger] self@.contains_key(a) <==> marked_on_listed_page(self@, bases, bases.len() as int, a),
    {
        assert forall|a: u64|
            #[trigger] self@.contains_key(a) implies marked_on_listed_page(self@, bases, bases.len() as int, a) by {
            self.lemma_view_contains(a);
            assert(bases.unref().to_set().contains(page_base(a)));
            let j = choose|j: int| 0 <= j < bases.unref().len() && bases.unref()[j] == page_base(a);
            assert(*bases[j] == page_base(a));
        }
    }

    /// A shadow store in which nothing is patched.
    pub fn new() -> (r: ShadowManager)
        ensures
            r.wf(),
            r@ == Map::<u64, u8>::empty(),
    {
        let r = ShadowManager { pages: HashMap::new() };
        assert(r@ =~= Map::<u64, u8>::empty());
        r
    }

    /// The base address of the page that holds `offset`.
    pub fn get_page_offset(&self, offset: u64) -> (r: u64)
        ensures
            r == page_base(offset),
    {
        let r: u64 = offset & !0xfffu64;
        assert(offset & !0xfffu64 == (offset - offset % 4096) as u64) by (bit_vector);
        r
    }

    /// The bitmap byte and the bit within it that track the in-page offset
    /// `rel_offs`.
    pub fn get_bit_index(&self, rel_offs: usize) -> (r: (usize, usize))
        ensures
            r == (rel_offs / 8, rel_offs % 8),
    {
        (rel_offs / 8, rel_offs % 8)
    }

    /// Patches `offset` with `byte`, creating its page if needed.
    pub fn add_byte(&mut self, offset: u64, byte: u8)
        requires
            old(self).wf(),
        ensures
            final(self).wf(),
            final(self)@ == old(self)@.insert(offset, byte),
    {
        let base: u64 = self.get_page_offset(offset);
        proof {
            lemma_page_base(offset);
        }
        let rel_offs: usize = (offset - base) as usize;
        let mut page: ShadowPage = match self.pages.remove(&base) {
            Some(p) => p,
            None => ShadowPage::new(),
        };
        page.mark(rel_offs, byte);
        self.pages.insert(base, page);
        proof {
            let pre = old(self)@.insert(offset, byte);
            assert(self.pages@[base]@[rel_offs as int] is Some);
            assert forall|a: u64| #[trigger] pre.contains_key(a) == self@.contains_key(a)
                && (pre.contains_key(a) ==> pre[a] == self@[a]) by {
                old(self).lemma_view_contains(a);
                self.lemma_view_contains(a);
                lemma_page_base(a);
            }
            assert(self@ =~= pre);
        }
    }

    /// Whether `abs_offset` was patched.
    pub fn has_patch(&self, abs_offset: u64) -> (r: bool)
        requires
            self.wf(),
        ensures
            r == self@.contains_key(abs_offset),
    {
        let base: u64 = self.get_page_offset(abs_offset);
        proof {
            lemma_page_base(abs_offset);
            self.lemma_view_contains(abs_offset);
        }
        let rel_offs: usize = (abs_offset - base) as usize;
        match self.pages.get(&base) {
            Some(page) => page.has_patch(rel_offs),
            None => false,
        }
    }

    /// The value patched at `abs_offset`, or `None` where nothing was patched.
    pub fn patched_value(&self, abs_offset: u64) -> (r: Option<u8>)
        requires
            self.wf(),
        ensures
            r == (if self@.contains_key(abs_offset) {
                Some(self@[abs_offset])
            } else {
                None
            }),
    {
        let base: u64 = self.get_page_offset(abs_offset);
        proof {
            lemma_page_base(abs_offset);
            self.lemma_view_contains(abs_offset);
        }
        let rel_offs: usize = (abs_offset - base) as usize;
        match self.pages.get(&base) {
            Some(page) => page.patched_value(rel_offs),
            None => None,
        }
    }

    /// Whether some address in the inclusive range `range.0 ..= range.1` was
    /// patched. The range is split into its pages; a page that does not exist
    /// holds nothing and is passed over, and every page of the range, also one
    /// strictly inside it, is searched until the first patched byte. Where the
    /// range spans more pages than the table holds, the table's pages are
    /// visited instead.
    pub fn has_patch_in_range(&self, range: (u64, u64)) -> (r: bool)
        requires
            self.wf(),
            range.0 <= range.1,
        ensures
            r == any_marked_in(self@, range.0, range.1),
    {
        let (beg, end) = range;
        let first: u64 = self.get_page_offset(beg);
        let last: u64 = self.get_page_offset(end);
        proof {
            lemma_page_base(beg);
            lemma_page_base(end);
        }
        if first == last && beg == end {
            return self.has_patch(beg);
        }
        if (self.pages.len() as u64) < (last - first) / (PAGE_SIZE as u64) {
            return self.has_patch_in_range_over_table(beg, end);
        }
        let mut cur: u64 = first;
        loop
            invariant
                self.wf(),
                beg == range.0,
                end == range.1,
                beg <= end,
                first == page_base(beg),
                last == page_base(end),
                first <= cur <= last,
                cur % (PAGE_SIZE as u64) == 0,
                forall|a: u64| beg <= a <= end && a < cur ==> !#[trigger] self@.contains_key(a),
            decreases last - cur,
        {
            let lo: usize = if cur == first {
                (beg - cur) as usize
            } else {
                0
            };
            let hi: usize = if cur == last {
                (end - cur) as usize
            } else {
                PAGE_SIZE - 1
            };
            proof {
                if cur != first {
                    lemma_aligned_gap(first, cur);
                }
                if cur != last {
                    lemma_aligned_gap(cur, last);
                }
            }
            match self.pages.get(&cur) {
                Some(page) => {
                    if page.has_patch_in_range((lo, hi)) {
                        proof {
                            let o = choose|o: int| lo <= o <= hi && 0 <= o < PAGE_SIZE && (#[trigger] page@[o]) is Some;
                            let a = (cur + o) as u64;
                            lemma_page_base_within(cur, a);
                            self.lemma_view_contains(a);
                            assert(self@.contains_key(a));
                        }
                        return true;
                    }
                    proof {
                        assert forall|a: u64| beg <= a <= end && cur <= a < cur + PAGE_SIZE
                            implies !#[trigger] self@.contains_key(a) by {
                            lemma_page_base_within(cur, a);
                            self.lemma_view_contains(a);
                            let o = a - cur;
                            assert(!(lo <= o <= hi && 0 <= o < PAGE_SIZE && page@[o] is Some));
                        }
                    }
                }
                None => {
                    proof {
                        assert forall|a: u64| beg <= a <= end && cur <= a < cur + PAGE_SIZE
                            implies !#[trigger] self@.contains_key(a) by {
                            lemma_page_base_within(cur, a);
                            self.lemma_view_contains(a);
                        }
                    }
                }
            }
            if cur == last {
                return false;
            }
            cur = cur + PAGE_SIZE as u64;
        }
    }

    /// Whether some address in `[beg, end]` was patched, found by visiting the
    /// pages of the table rather than the pages of the range.
    fn has_patch_in_range_over_table(&self, beg: u64, end: u64) -> (r: bool)
        requires
            self.wf(),
            beg <= end,
        ensures
            r == any_marked_in(self@, beg, end),
    {
        proof {
            self.lemma_all_pages_listed(self.pages.keys().remaining());
        }
        for base in it: self.pages.keys()
            invariant
                self.wf(),
                beg <= end,
                it.seq().unref().to_set() == self.pages@.dom(),
                forall|a: u64|
                    beg <= a <= end && #[trigger] marked_on_listed_page(self@, it.seq(), it.index() as int, a)
                        ==> false,
                it.index() == it.seq().len() ==> !any_marked_in(self@, beg, end),
        {
            let ghost done = it.index() as int;
            let ghost bases = it.seq();
            assert(self.pages@.contains_key(*base)) by {
                assert(bases.unref().to_set().contains(*base)) by {
                    assert(bases.unref()[done] == *base);
                }
            }
            proof {
                lemma_aligned_room(*base);
            }
            let top: u64 = *base + (PAGE_SIZE - 1) as u64;
            if *base <= end && beg <= top {
                let lo: usize = if beg > *base {
                    (beg - *base) as usize
                } else {
                    0
                };
                let hi: usize = if end < top {
                    (end - *base) as usize
                } else {
                    PAGE_SIZE - 1
                };
                match self.pages.get(base) {
                    Some(page) => {
                        if page.has_patch_in_range((lo, hi)) {
                            proof {
                                let o = choose|o: int|
                                    lo <= o <= hi && 0 <= o < PAGE_SIZE && (#[trigger] page@[o]) is Some;
                                let a = (*base + o) as u64;
                                lemma_page_base_within(*base, a);
                                self.lemma_view_contains(a);
                                assert(self@.contains_key(a));
                            }
                            return true;
                        }
                        proof {
                            assert forall|a: u64| beg <= a <= end && *base <= a <= top
                                implies !#[trigger] self@.contains_key(a) by {
                                lemma_page_base_within(*base, a);
                                self.lemma_view_contains(a);
                                let o = a - *base;
                                assert(!(lo <= o <= hi && 0 <= o < PAGE_SIZE && page@[o] is Some));
                            }
                        }
                    }
                    None => {}
                }
            }
            proof {
                assert forall|a: u64|
                    beg <= a <= end && #[trigger] marked_on_listed_page(self@, bases, done + 1, a)
                        implies false by {
                    lemma_page_base(a);
                    if page_base(a) == *base {
                        lemma_page_base_within(*base, a);
                    } else {
                        assert(marked_on_listed_page(self@, bases, done, a));
                    }
                }
                self.lemma_all_pages_listed(bases);
            }
        }
        false
    }

    /// Like `has_patch_in_range`, but refuses a range whose first address lies
    /// after its last one instead of requiring the caller to exclude it.
    pub fn checked_has_patch_in_range(&self, range: (u64, u64)) -> (r: Result<bool, ShadowError>)
        requires
            self.wf(),
        ensures
            range.0 > range.1 ==> r == Err::<bool, ShadowError>(
                ShadowError::InvalidRange { begin: range.0, end: range.1 },
            ),
            range.0 <= range.1 ==> r == Ok::<bool, ShadowError>(any_marked_in(self@, range.0, range.1)),
    {
        if range.0 > range.1 {
            return Err(ShadowError::InvalidRange { begin: range.0, end: range.1 });
        }
        Ok(self.has_patch_in_range(range))
    }

    /// Every patched address, each once, page by page in the page table's
    /// order and by increasing offset within a page.
    pub fn marked_addresses(&self) -> (r: Vec<u64>)
        requires
            self.wf(),
        ensures
            r@.no_duplicates(),
            forall|a: u64| #[trigger] r@.contains(a) <==> self@.contains_key(a),
            ascending_within_pages(r@),
            pages_in_runs(r@),
    {
        let mut out: Vec<u64> = Vec::new();
        proof {
            self.lemma_all_pages_listed(self.pages.keys().remaining());
        }
        for base in it: self.pages.keys()
            invariant
                self.wf(),
                it.seq().unref().to_set() == self.pages@.dom(),
                it.seq().no_duplicates(),
                out@.no_duplicates(),
                ascending_within_pages(out@),
                pages_in_runs(out@),
                forall|a: u64|
                    #[trigger] out@.contains(a) <==> marked_on_listed_page(self@, it.seq(), it.index() as int, a),
                it.index() == it.seq().len() ==> forall|a: u64|
                    #[trigger] out@.contains(a) <==> self@.contains_key(a),
        {
            let ghost done = it.index() as int;
            let ghost bases = it.seq();
            assert(self.pages@.contains_key(*base)) by {
                assert(bases.unref().to_set().contains(*base)) by {
                    assert(bases.unref()[done] == *base);
                }
            }
            let ghost start = out@.len() as int;
            proof {
                lemma_aligned_room(*base);
                assert forall|x: int| 0 <= x < start implies page_base(#[trigger] out@[x]) != *base by {
                    assert(out@.contains(out@[x]));
                    let j = choose|j: int| 0 <= j < done && *bases[j] == page_base(out@[x]);
                    assert(bases[j] != bases[done]);
                }
            }
            match self.pages.get(base) {
                Some(page) => {
                    for i in 0..PAGE_SIZE
                        invariant
                            self.wf(),
                            self.pages@.contains_key(*base),
                            self.pages@[*base] == *page,
                            *base % (PAGE_SIZE as u64) == 0,
                            *base + PAGE_SIZE <= u64::MAX + 1,
                            bases == it.seq(),
                            0 <= done < bases.len(),
                            *bases[done] == *base,
                            bases.no_duplicates(),
                            out@.no_duplicates(),
                            ascending_within_pages(out@),
                            pages_in_runs(out@),
                            0 <= start <= out@.len(),
                            forall|x: int| 0 <= x < start ==> page_base(#[trigger] out@[x]) != *base,
                            forall|x: int|
                                start <= x < out@.len() ==> page_base(#[trigger] out@[x]) == *base && out@[x]
                                    < *base + i,
                            forall|a: u64|
                                #[trigger] out@.contains(a) <==> (marked_on_listed_page(self@, bases, done, a)
                                    || (self@.contains_key(a) && *base <= a < *base + i)),
                    {
                        let ghost out_before = out@;
                        let found: bool = page.has_patch(i);
                        if found {
                            let a: u64 = *base + i as u64;
                            proof {
                                lemma_page_base_within(*base, a);
                                self.lemma_view_contains(a);
                                if out@.contains(a) {
                                    let j = choose|j: int| 0 <= j < done && *bases[j] == page_base(a);
                                    assert(bases[j] == bases[done]);
                                }
                            }
                            out.push(a);
                        }
                        proof {
                            let a = (*base + i) as u64;
                            lemma_page_base_within(*base, a);
                            self.lemma_view_contains(a);
                            if found {
                                assert(out@ == out_before.push(a));
                                assert forall|x: int, y: int|
                                    0 <= x < y < out@.len() && page_base(out@[x]) == page_base(out@[y]) implies
                                    out@[x] < out@[y] by {
                                    if y < out_before.len() {
                                        assert(out@[x] == out_before[x] && out@[y] == out_before[y]);
                                    } else {
                                        assert(out@[x] == out_before[x]);
                                    }
                                }
                                assert forall|x: int, y: int, z: int|
                                    0 <= x < y < z < out@.len() && page_base(out@[x]) == page_base(out@[z])
                                    implies page_base(out@[y]) == page_base(out@[x]) by {
                                    assert(out@[x] == out_before[x] && out@[y] == out_before[y]);
                                    if z < out_before.len() {
                                        assert(out@[z] == out_before[z]);
                                    }
                                }
                            }
                            assert forall|x: int|
                                start <= x < out@.len() implies page_base(#[trigger] out@[x]) == *base && out@[x]
                                    < *base + i + 1 by {
                                if found && x < out_before.len() {
                                    assert(out@[x] == out_before[x]);
                                }
                            }
                            assert forall|x: u64|
                                #[trigger] out@.contains(x) <==> (marked_on_listed_page(self@, bases, done, x)
                                    || (self@.contains_key(x) && *base <= x < *base + i + 1)) by {
                                if found {
                                    assert(out@ == out_before.push(a));
                                    if out_before.contains(x) {
                                        let j = choose|j: int| 0 <= j < out_before.len() && out_before[j] == x;
                                        assert(out@[j] == x);
                                    }
                                    if x == a {
                                        assert(out@[out_before.len() as int] == x);
                                    }
                                    if out@.contains(x) && x != a {
                                        let j = choose|j: int| 0 <= j < out@.len() && out@[j] == x;
                                        assert(out_before[j] == x);
                                    }
                                }
                            }
                        }
                    }
                }
                None => {}
            }
            proof {
                assert forall|a: u64|
                    #[trigger] out@.contains(a) <==> marked_on_listed_page(self@, bases, done + 1, a) by {
                    lemma_page_base(a);
                    if self@.contains_key(a) && *base <= a < *base + PAGE_SIZE {
                        lemma_page_base_within(*base, a);
                    }
                }
                self.lemma_all_pages_listed(bases);
            }
        }
        out
    }
}

} // verus!
