//! Facts on sets and sequences of numbers below a bound.

use crate::ordered::{lists_in_order, strictly_increasing};
use vstd::prelude::*;

verus! {

/// Different numbers from `1..=m` are at most `m`.
pub proof fn lemma_distinct_bounded(s: Seq<usize>, m: nat)
    requires
        s.no_duplicates(),
        forall|i: int| 0 <= i < s.len() ==> 1 <= #[trigger] s[i] <= m,
    ensures
        s.len() <= m,
    decreases m,
{
    if s.len() > 0 {
        if m == 0 {
            assert(1 <= s[0] <= m);
        } else if exists|k: int| 0 <= k < s.len() && s[k] == m {
            let k = choose|k: int| 0 <= k < s.len() && s[k] == m;
            let rest = s.remove(k);
            assert forall|i: int| 0 <= i < rest.len() implies 1 <= #[trigger] rest[i] <= (m - 1) as nat by {
                if i < k {
                    assert(rest[i] == s[i]);
                } else {
                    assert(rest[i] == s[i + 1]);
                }
            }
            assert forall|i: int, j: int| 0 <= i < rest.len() && 0 <= j < rest.len() && i != j implies rest[i]
                != rest[j] by {
                let a = if i < k {
                    i
                } else {
                    i + 1
                };
                let b = if j < k {
                    j
                } else {
                    j + 1
                };
                assert(rest[i] == s[a] && rest[j] == s[b]);
            }
            lemma_distinct_bounded(rest, (m - 1) as nat);
        } else {
            assert forall|i: int| 0 <= i < s.len() implies 1 <= #[trigger] s[i] <= (m - 1) as nat by {
                assert(s[i] != m);
            }
            lemma_distinct_bounded(s, (m - 1) as nat);
        }
    }
}

/// Numbers in increasing order are all different.
pub proof fn lemma_increasing_distinct(s: Seq<usize>)
    requires
        strictly_increasing(s),
    ensures
        s.no_duplicates(),
{
    assert forall|i: int, j: int| 0 <= i < s.len() && 0 <= j < s.len() && i != j implies s[i] != s[j] by {
        if i < j {
            assert(s[i] < s[j]);
        } else {
            assert(s[j] < s[i]);
        }
    }
}

/// The members of `set` below `bound`, in increasing order.
pub open spec fn listing_below(set: Set<usize>, bound: nat) -> Seq<usize>
    decreases bound,
{
    if bound == 0 {
        Seq::empty()
    } else {
        let before = listing_below(set, (bound - 1) as nat);
        if set.contains((bound - 1) as usize) {
            before.push((bound - 1) as usize)
        } else {
            before
        }
    }
}

/// `listing_below` lists what it says.
pub proof fn lemma_listing_below(set: Set<usize>, bound: nat)
    requires
        bound <= usize::MAX + 1,
    ensures
        strictly_increasing(listing_below(set, bound)),
        forall|x: usize|
            #![trigger listing_below(set, bound).contains(x)]
            #![trigger set.contains(x)]
            listing_below(set, bound).contains(x) <==> (set.contains(x) && x < bound),
    decreases bound,
{
    if bound > 0 {
        let before = listing_below(set, (bound - 1) as nat);
        let now = listing_below(set, bound);
        let top = (bound - 1) as usize;
        lemma_listing_below(set, (bound - 1) as nat);
        assert forall|i: int, j: int| 0 <= i < j < now.len() implies now[i] < now[j] by {
            if j < before.len() {
                assert(now[i] == before[i] && now[j] == before[j]);
                assert(before[i] < before[j]);
            } else {
                assert(now[i] == before[i]);
                assert(before.contains(before[i]));
                assert(before[i] < bound - 1);
                assert(now[j] == top);
                assert(top == bound - 1);
            }
        }
        assert forall|x: usize| now.contains(x) <==> (set.contains(x) && x < bound) by {
            if now.contains(x) {
                let w = choose|w: int| 0 <= w < now.len() && now[w] == x;
                if w < before.len() {
                    assert(before[w] == x);
                    assert(before.contains(x));
                }
            }
            if set.contains(x) && x < bound {
                if x == top {
                    assert(now[before.len() as int] == x);
                } else {
                    assert(before.contains(x));
                    let w = choose|w: int| 0 <= w < before.len() && before[w] == x;
                    assert(now[w] == x);
                }
            }
        }
    }
}

/// A set of numbers that are all below some bound has a listing in increasing
/// order.
pub proof fn lemma_bounded_set_has_listing(set: Set<usize>, bound: nat) -> (q: Seq<usize>)
    requires
        bound <= usize::MAX + 1,
        forall|x: usize| set.contains(x) ==> x < bound,
    ensures
        lists_in_order(q, set),
{
    lemma_listing_below(set, bound);
    listing_below(set, bound)
}

/// A set of numbers with a member has a least member.
pub proof fn lemma_has_least(set: Set<usize>, x: usize) -> (c: usize)
    requires
        set.contains(x),
    ensures
        set.contains(c),
        forall|y: usize| set.contains(y) ==> c <= y,
    decreases x,
{
    if exists|y: usize| set.contains(y) && y < x {
        let y = choose|y: usize| set.contains(y) && y < x;
        lemma_has_least(set, y)
    } else {
        x
    }
}

} // verus!
