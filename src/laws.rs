//! What holds of every shadow store, stated over the map of patched
//! addresses that `ShadowManager`'s operations are specified against.
use vstd::prelude::*;

use crate::manager::any_marked_in;

verus! {

/// The patched addresses, with their values, of a store that was created
/// empty and then given `records` in order, each as an address and a value.
pub open spec fn replay(records: Seq<(u64, u8)>) -> Map<u64, u8>
    decreases records.len(),
{
    if records.len() == 0 {
        Map::empty()
    } else {
        replay(records.drop_last()).insert(records.last().0, records.last().1)
    }
}

/// One more record patches its address with its value on top of what the
/// earlier records patched, as `ShadowManager::add_byte` does to its view.
pub proof fn lemma_replay_push(records: Seq<(u64, u8)>, a: u64, v: u8)
    ensures
        replay(records.push((a, v))) == replay(records).insert(a, v),
{
    assert(records.push((a, v)).drop_last() =~= records);
}

/// An address is patched exactly when some record named it: an address that
/// was never recorded is never reported as patched.
pub proof fn lemma_marked_iff_recorded(records: Seq<(u64, u8)>, a: u64)
    ensures
        replay(records).contains_key(a) <==> exists|i: int|
            0 <= i < records.len() && (#[trigger] records[i]).0 == a,
    decreases records.len(),
{
    if records.len() > 0 {
        let rest = records.drop_last();
        lemma_marked_iff_recorded(rest, a);
        if replay(records).contains_key(a) && records.last().0 != a {
            let i = choose|i: int| 0 <= i < rest.len() && (#[trigger] rest[i]).0 == a;
            assert(records[i] == rest[i]);
        }
        if exists|i: int| 0 <= i < records.len() && (#[trigger] records[i]).0 == a {
            let i = choose|i: int| 0 <= i < records.len() && (#[trigger] records[i]).0 == a;
            if i < rest.len() {
                assert(rest[i] == records[i]);
            }
        }
    }
}

/// After `a` is patched with `v`, `a` is patched and reads back as `v`,
/// whatever was patched before.
pub proof fn lemma_record_then_read(m: Map<u64, u8>, a: u64, v: u8)
    ensures
        m.insert(a, v).contains_key(a),
        m.insert(a, v)[a] == v,
{
}

/// A range of a single address is patched exactly when that address is.
pub proof fn lemma_single_point_range(m: Map<u64, u8>, a: u64)
    ensures
        any_marked_in(m, a, a) == m.contains_key(a),
{
}

/// A range that contains a patched address is reported as patched.
pub proof fn lemma_range_holds_marked(m: Map<u64, u8>, a: u64, beg: u64, end: u64)
    requires
        m.contains_key(a),
        beg <= a <= end,
    ensures
        any_marked_in(m, beg, end),
{
}

/// A range in which no record named an address is reported as not patched.
pub proof fn lemma_unrecorded_range(records: Seq<(u64, u8)>, beg: u64, end: u64)
    requires
        forall|i: int| 0 <= i < records.len() ==> !(beg <= (#[trigger] records[i]).0 <= end),
    ensures
        !any_marked_in(replay(records), beg, end),
{
    assert forall|a: u64| beg <= a <= end implies !#[trigger] replay(records).contains_key(a) by {
        lemma_marked_iff_recorded(records, a);
    }
}

} // verus!
