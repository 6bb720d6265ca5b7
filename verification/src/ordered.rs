//! Ordered sets of machine words: their least member and their members in
//! increasing order.

use std::collections::BTreeSet;
use vstd::laws_cmp::obeys_cmp;
use vstd::prelude::*;
use vstd::std_specs::btree::*;
use vstd::std_specs::cmp::OrdSpec;
use vstd::std_specs::iter::IteratorSpec;

verus! {

/// Each entry is smaller than the entries after it.
pub open spec fn strictly_increasing(s: Seq<usize>) -> bool {
    forall|i: int, j: int| 0 <= i < j < s.len() ==> s[i] < s[j]
}

/// `s` lists the members of `set` in increasing order.
pub open spec fn lists_in_order(s: Seq<usize>, set: Set<usize>) -> bool {
    &&& strictly_increasing(s)
    &&& forall|x: usize| s.contains(x) <==> set.contains(x)
}

/// A set has at most one listing in increasing order.
pub proof fn lemma_listing_unique(a: Seq<usize>, b: Seq<usize>, set: Set<usize>)
    requires
        lists_in_order(a, set),
        lists_in_order(b, set),
    ensures
        a == b,
    decreases a.len(),
{
    if a.len() == 0 {
        if b.len() > 0 {
            assert(b.contains(b[0]));
            assert(a.contains(b[0]));
        }
        assert(a =~= b);
    } else if b.len() == 0 {
        assert(a.contains(a[0]));
        assert(b.contains(a[0]));
    } else {
        let x = a.last();
        let y = b.last();
        assert(a.contains(x));
        assert(b.contains(y));
        assert(b.contains(x));
        assert(a.contains(y));
        let i = choose|i: int| 0 <= i < b.len() && b[i] == x;
        let j = choose|j: int| 0 <= j < a.len() && a[j] == y;
        assert(x == y);
        let rest = set.remove(x);
        assert forall|z: usize| a.drop_last().contains(z) <==> rest.contains(z) by {
            if a.drop_last().contains(z) {
                let k = choose|k: int| 0 <= k < a.drop_last().len() && a.drop_last()[k] == z;
                assert(a[k] == z);
                assert(a.contains(z));
            }
            if rest.contains(z) {
                assert(a.contains(z));
                let k = choose|k: int| 0 <= k < a.len() && a[k] == z;
                assert(a.drop_last()[k] == z);
            }
        }
        assert forall|z: usize| b.drop_last().contains(z) <==> rest.contains(z) by {
            if b.drop_last().contains(z) {
                let k = choose|k: int| 0 <= k < b.drop_last().len() && b.drop_last()[k] == z;
                assert(b[k] == z);
                assert(b.contains(z));
            }
            if rest.contains(z) {
                assert(b.contains(z));
                let k = choose|k: int| 0 <= k < b.len() && b[k] == z;
                assert(b.drop_last()[k] == z);
            }
        }
        lemma_listing_unique(a.drop_last(), b.drop_last(), rest);
        assert(a =~= a.drop_last().push(x));
        assert(b =~= b.drop_last().push(y));
    }
}

/// The members of `set`, in increasing order.
pub fn sorted_elements(set: &BTreeSet<usize>) -> (v: Vec<usize>)
    ensures
        lists_in_order(v@, set@),
{
    broadcast use vstd::laws_cmp::group_laws_cmp;

    let mut v: Vec<usize> = Vec::new();
    let ghost keys = spec_btree_keys_iter(set).remaining();
    for x in it: set.iter()
        invariant
            it.seq() == keys,
            v@.len() == it.index(),
            forall|j: int| 0 <= j < v@.len() ==> v@[j] == *keys[j],
    {
        v.push(*x);
    }
    proof {
        assert(keys.unref().to_set() == set@);
        assert(v@ =~= keys.unref());
        assert(obeys_cmp::<usize>());
        assert(obeys_cmp::<&usize>());
        axiom_increasing_seq_meaning::<&usize>(keys);
        assert forall|i: int, j: int| 0 <= i < j < v@.len() implies v@[i] < v@[j] by {
            assert(OrdSpec::cmp_spec(&keys[i], &keys[j]) is Less);
        }
        assert forall|x: usize| v@.contains(x) <==> set@.contains(x) by {
            assert(v@.to_set().contains(x) <==> v@.contains(x));
        }
    }
    v
}

/// The smallest member of `set`, if it has any.
pub fn smallest(set: &BTreeSet<usize>) -> (min: Option<usize>)
    ensures
        min is None <==> set@ =~= Set::<usize>::empty(),
        min matches Some(x) ==> set@.contains(x) && forall|y: usize| set@.contains(y) ==> x <= y,
{
    broadcast use vstd::laws_cmp::group_laws_cmp;

    let ghost keys = spec_btree_keys_iter(set).remaining();
    proof {
        assert(keys.unref().to_set() == set@);
        assert(obeys_cmp::<usize>());
        assert(obeys_cmp::<&usize>());
        axiom_increasing_seq_meaning::<&usize>(keys);
    }
    for x in it: set.iter()
        invariant
            it.seq() == keys,
            it.index() == 0,
    {
        proof {
            assert(keys.unref()[0] == *keys[0]);
            assert(keys.unref().contains(*keys[0]));
            assert forall|y: usize| set@.contains(y) implies *keys[0] <= y by {
                assert(keys.unref().contains(y));
                let j = choose|j: int| 0 <= j < keys.unref().len() && keys.unref()[j] == y;
                if j > 0 {
                    assert(OrdSpec::cmp_spec(&keys[0], &keys[j]) is Less);
                }
            }
        }
        return Some(*x);
    }
    proof {
        assert forall|y: usize| !set@.contains(y) by {
            assert(!keys.unref().contains(y));
        }
    }
    None
}

} // verus!
