//! Facts about the key order of `u32`-keyed B-tree maps.
use std::collections::BTreeMap;
use vstd::prelude::*;

verus! {

/// `u32` keys obey the ordering laws that `BTreeMap`'s specification asks for.
pub proof fn lemma_u32_laws()
    ensures
        vstd::std_specs::btree::key_obeys_cmp_spec::<u32>(),
        vstd::laws_cmp::obeys_cmp::<u32>(),
{
    broadcast use vstd::laws_cmp::group_laws_cmp;
    broadcast use vstd::std_specs::btree::group_btree_axioms;
}

/// A sequence of `u32` keys that `BTreeMap` calls increasing is strictly increasing.
pub proof fn lemma_increasing_keys(ks: Seq<u32>)
    requires
        vstd::std_specs::btree::increasing_seq(ks),
    ensures
        forall|i: int, j: int| 0 <= i < j < ks.len() ==> ks[i] < ks[j],
{
    broadcast use vstd::laws_cmp::group_laws_cmp;
    broadcast use vstd::std_specs::btree::group_btree_axioms;

    assert forall|i: int, j: int| 0 <= i < j < ks.len() implies ks[i] < ks[j] by {
        assert(vstd::std_specs::cmp::OrdSpec::cmp_spec(&ks[i], &ks[j]) is Less);
    }
}

} // verus!
