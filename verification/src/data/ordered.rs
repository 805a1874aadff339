//! Walking std's ordered collections of row and column numbers in order.
use vstd::prelude::*;
use std::collections::{BTreeMap, BTreeSet};

verus! {

broadcast use {vstd::std_specs::btree::group_btree_axioms, vstd::laws_cmp::group_laws_cmp};

/// Strictly increasing, so nothing occurs twice.
pub open spec fn ascending(s: Seq<usize>) -> bool {
    forall|i: int, j: int| 0 <= i < j < s.len() ==> s[i] < s[j]
}

/// The members of `set`, smallest first.
pub fn sorted_members(set: &BTreeSet<usize>) -> (out: Vec<usize>)
    ensures
        ascending(out@),
        out@.to_set() == set@,
{
    let mut out: Vec<usize> = Vec::new();
    let ghost all = vstd::std_specs::iter::IteratorSpec::remaining(&set.iter());
    for x in it: set.iter()
        invariant
            it.seq() == all,
            out@.len() == it.index(),
            forall|i: int| 0 <= i < out@.len() ==> out@[i] == *it.seq()[i],
    {
        out.push(*x);
    }
    proof {
        assert(out@ =~= all.unref());
        assert(vstd::std_specs::btree::increasing_seq(all));
        assert forall|i: int, j: int| 0 <= i < j < out@.len() implies out@[i] < out@[j] by {
            assert(vstd::std_specs::cmp::OrdSpec::cmp_spec(&all[i], &all[j]) is Less);
        }
    }
    out
}

/// The keys of `map`, smallest first.
pub fn sorted_keys<V>(map: &BTreeMap<usize, V>) -> (out: Vec<usize>)
    ensures
        ascending(out@),
        forall|k: usize| out@.contains(k) <==> map@.contains_key(k),
{
    let mut out: Vec<usize> = Vec::new();
    let ghost all = vstd::std_specs::iter::IteratorSpec::remaining(&map.iter());
    for (k, v) in it: map.iter()
        invariant
            it.seq() == all,
            out@.len() == it.index(),
            forall|i: int| 0 <= i < out@.len() ==> out@[i] == *it.seq()[i].0,
    {
        out.push(*k);
    }
    proof {
        let keys = all.map_values(|kv: (&usize, &V)| *kv.0);
        assert(keys =~= out@);
        assert(vstd::std_specs::btree::increasing_seq(keys));
        assert forall|i: int, j: int| 0 <= i < j < out@.len() implies out@[i] < out@[j] by {
            assert(vstd::std_specs::cmp::OrdSpec::cmp_spec(&keys[i], &keys[j]) is Less);
        }
        assert forall|k: usize| map@.contains_key(k) implies out@.contains(k) by {
            let pair = (&k, &map@[k]);
            assert(all.contains(pair));
            let i = choose|i: int| 0 <= i < all.len() && all[i] == pair;
            assert(out@[i] == k);
        }
        assert forall|k: usize| out@.contains(k) implies map@.contains_key(k) by {
            let i = choose|i: int| 0 <= i < out@.len() && out@[i] == k;
            assert(map@.contains_key(*all[i].0));
        }
    }
    out
}

}
