//! The smallest key of a `BTreeMap`: the first one its keys come out in.
use std::collections::BTreeMap;
use vstd::laws_cmp::obeys_cmp;
use vstd::prelude::*;
use vstd::std_specs::cmp::OrdSpec;
use vstd::std_specs::iter::IteratorSpec;

verus! {

/// The smallest key of the map, `None` when it is empty. The keys of a `BTreeMap`
/// come out in increasing order, so the smallest is the first of them.
pub(crate) fn first_key<K: Ord + Copy, V>(m: &BTreeMap<K, V>) -> (r: Option<K>)
    requires
        obeys_cmp::<K>(),
    ensures
        match r {
            Some(k) => m@.contains_key(k) && forall|j: K|
                #[trigger] m@.contains_key(j) && j != k ==> k.cmp_spec(&j) is Less,
            None => m@.dom().is_empty(),
        },
{
    broadcast use vstd::std_specs::btree::group_btree_axioms, vstd::laws_cmp::group_laws_cmp;
    let ghost ks = vstd::std_specs::btree::spec_keys_iter(m).remaining();
    for k in it: m.keys()
        invariant
            it.seq() == ks,
            it.index() == 0,
            ks.unref().to_set() == m@.dom(),
            obeys_cmp::<K>(),
            obeys_cmp::<&K>(),
            vstd::std_specs::btree::increasing_seq(ks),
    {
        let first = *k;
        proof {
            assert(first == *ks[0]);
            assert(ks.unref()[0] == first);
            assert(ks.unref().contains(first));
            assert forall|j: K| #[trigger] m@.contains_key(j) && j != first implies first.cmp_spec(&j) is Less by {
                assert(ks.unref().to_set().contains(j));
                let t = choose|t: int| 0 <= t < ks.len() && ks.unref()[t] == j;
                assert(*ks[t] == j);
                assert(t != 0);
                assert(OrdSpec::cmp_spec(&ks[0], &ks[t]) is Less);
            }
        }
        return Some(first);
    }
    assert(ks.len() == 0);
    assert(ks.unref() =~= Seq::<K>::empty());
    assert(m@.dom() =~= Set::<K>::empty());
    None
}

} // verus!
