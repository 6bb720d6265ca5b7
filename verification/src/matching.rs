//! Pairings of clauses: greedy by joint probability, or at random.

use crate::probability::{lemma_le_transitive, lemma_order_by_exponent, Probability};
use crate::sat::{joint_probability, Formula, SAT};
use crate::utility::new_vector;
use crate::random_space::thread_generator;
use rand::rngs::ThreadRng;
use rand::seq::SliceRandom;
use vstd::prelude::*;

verus! {

/// The probability that clauses `u` and `v` are violated at once.
pub open spec fn joint(f: Formula, u: usize, v: usize) -> Probability {
    joint_probability(f, seq![u, v])
}

/// Clause `x` is one of the two clauses of the pair.
pub open spec fn holds(pair: (usize, usize), x: usize) -> bool {
    pair.0 == x || pair.1 == x
}

/// The clauses of the first `k` pairs.
pub open spec fn taken_by(e: Seq<(usize, usize)>, k: int) -> Set<usize> {
    Set::new(|x: usize| exists|j: int| 0 <= j < k && holds(#[trigger] e[j], x))
}

/// Among the later clauses that are not taken, `v` is the first of those that
/// are most likely to be violated together with `u`, and this is possible at
/// all.
pub open spec fn best_partner(f: Formula, u: usize, taken: Set<usize>, v: usize) -> bool {
    &&& u < v < f.clauses.len()
    &&& !taken.contains(v)
    &&& Probability::Zero.lt(joint(f, u, v))
    &&& forall|w: usize| u < w < f.clauses.len() && !taken.contains(w) ==> (#[trigger] joint(f, u, w)).le(joint(f, u, v))
    &&& forall|w: usize| u < w < v && !taken.contains(w) ==> (#[trigger] joint(f, u, w)).lt(joint(f, u, v))
}

/// Clause `u` was dealt with: it opens a pair, or it was taken by an earlier
/// pair, or it has no partner among the clauses that the earlier pairs left.
pub open spec fn settled(f: Formula, e: Seq<(usize, usize)>, u: usize) -> bool {
    exists|k: int| dealt(f, e, u, k)
}

/// The pairs before pair `k` open with clauses before `u`, the others do
/// not, and by them clause `u` is dealt with.
pub open spec fn dealt(f: Formula, e: Seq<(usize, usize)>, u: usize, k: int) -> bool {
    &&& 0 <= k <= e.len()
    &&& forall|j: int| 0 <= j < k ==> (#[trigger] e[j]).0 < u
    &&& forall|j: int| k <= j < e.len() ==> (#[trigger] e[j]).0 >= u
    &&& {
        ||| (k < e.len() && e[k].0 == u)
        ||| taken_by(e, k).contains(u)
        ||| forall|v: usize| !best_partner(f, u, taken_by(e, k), v)
    }
}

/// The pairs are those that the greedy walk forms from the clauses before
/// `upto`: each clause that is still free takes its best partner.
pub open spec fn greedy_upto(f: Formula, e: Seq<(usize, usize)>, upto: int) -> bool {
    &&& forall|k: int|
        0 <= k < e.len() ==> (#[trigger] e[k]).0 < upto && !taken_by(e, k).contains(e[k].0) && best_partner(
            f,
            e[k].0,
            taken_by(e, k),
            e[k].1,
        )
    &&& forall|j: int, k: int| 0 <= j < k < e.len() ==> (#[trigger] e[j]).0 < (#[trigger] e[k]).0
    &&& forall|u: usize| u < upto ==> #[trigger] settled(f, e, u)
}

/// The pairs name `2 * (n / 2)` different clauses below `n`.
pub open spec fn is_pairing(e: Seq<(usize, usize)>, n: nat) -> bool {
    &&& e.len() == n / 2
    &&& forall|k: int| 0 <= k < e.len() ==> (#[trigger] e[k]).0 < n && e[k].1 < n && e[k].0 != e[k].1
    &&& forall|j: int, k: int|
        0 <= j < k < e.len() ==> !holds(#[trigger] e[j], (#[trigger] e[k]).0) && !holds(e[j], e[k].1)
}

/// `SliceRandom::shuffle` of rand, on a slice of machine words: the entries
/// change places with one another. The claim is that the entries stay the
/// same, each as often as before; nothing is claimed of their order.
#[verifier::external_body]
fn shuffle(nums: &mut Vec<usize>, rng: &mut ThreadRng)
    ensures
        final(nums)@.to_multiset() == old(nums)@.to_multiset(),
{
    nums.shuffle(rng);
}

/// Pairs of clauses.
pub struct Match {
    edge: Vec<(usize, usize)>,
}

impl View for Match {
    type V = Seq<(usize, usize)>;

    closed spec fn view(&self) -> Seq<(usize, usize)> {
        self.edge@
    }
}

/// A pair more changes nothing in what the pairs before it hold.
proof fn lemma_taken_by_push(e: Seq<(usize, usize)>, pair: (usize, usize), k: int)
    requires
        0 <= k <= e.len(),
    ensures
        taken_by(e.push(pair), k) =~= taken_by(e, k),
        taken_by(e.push(pair), (e.len() + 1) as int) =~= taken_by(e, e.len() as int).insert(pair.0).insert(pair.1),
{
    let longer = e.push(pair);
    assert forall|x: usize| taken_by(longer, k).contains(x) <==> taken_by(e, k).contains(x) by {
        if taken_by(longer, k).contains(x) {
            let j = choose|j: int| 0 <= j < k && holds(#[trigger] longer[j], x);
            assert(holds(e[j], x));
        }
        if taken_by(e, k).contains(x) {
            let j = choose|j: int| 0 <= j < k && holds(#[trigger] e[j], x);
            assert(holds(longer[j], x));
        }
    }
    let all = taken_by(longer, (e.len() + 1) as int);
    let before = taken_by(e, e.len() as int);
    assert forall|x: usize| all.contains(x) <==> before.insert(pair.0).insert(pair.1).contains(x) by {
        if all.contains(x) {
            let j = choose|j: int| 0 <= j < e.len() + 1 && holds(#[trigger] longer[j], x);
            if j < e.len() {
                assert(holds(e[j], x));
            }
        }
        if before.contains(x) {
            let j = choose|j: int| 0 <= j < e.len() && holds(#[trigger] e[j], x);
            assert(holds(longer[j], x));
        }
        if x == pair.0 || x == pair.1 {
            assert(holds(longer[e.len() as int], x));
        }
    }
}

impl Match {
    /// The pairs, in the order in which they were formed.
    pub fn edges(&self) -> (e: &Vec<(usize, usize)>)
        ensures
            e@ == self@,
    {
        &self.edge
    }

    /// Pairs the clauses `0..n` at random: a clause is in at most one pair,
    /// and at most one clause is in none.
    pub fn from_random(n: usize) -> (m: Match)
        ensures
            is_pairing(m@, n as nat),
    {
        let mut nums: Vec<usize> = Vec::with_capacity(n);
        let mut i: usize = 0;
        while i < n
            invariant
                i <= n,
                nums@.len() == i,
                forall|j: int| 0 <= j < i ==> #[trigger] nums@[j] == j,
            decreases n - i,
        {
            nums.push(i);
            i += 1;
        }
        let ghost ordered = nums@;
        let mut rng = thread_generator();
        shuffle(&mut nums, &mut rng);
        proof {
            assert(ordered.no_duplicates());
            ordered.lemma_multiset_has_no_duplicates();
            nums@.lemma_multiset_has_no_duplicates_conv();
            vstd::seq_lib::to_multiset_len(ordered);
            vstd::seq_lib::to_multiset_len(nums@);
            assert forall|j: int| 0 <= j < nums@.len() implies #[trigger] nums@[j] < n by {
                vstd::seq_lib::to_multiset_contains(nums@, nums@[j]);
                vstd::seq_lib::to_multiset_contains(ordered, nums@[j]);
                assert(nums@.contains(nums@[j]));
                let w = choose|w: int| 0 <= w < ordered.len() && ordered[w] == nums@[j];
            }
        }
        let mut edge: Vec<(usize, usize)> = Vec::new();
        let mut i: usize = 0;
        while i < n / 2
            invariant
                i <= n / 2,
                nums@.len() == n,
                nums@.no_duplicates(),
                forall|j: int| 0 <= j < nums@.len() ==> #[trigger] nums@[j] < n,
                edge@.len() == i,
                forall|k: int| 0 <= k < i ==> #[trigger] edge@[k] == (nums@[2 * k], nums@[2 * k + 1]),
            decreases n / 2 - i,
        {
            edge.push((nums[i * 2], nums[i * 2 + 1]));
            i += 1;
        }
        Match { edge }
    }

    /// The most likely partner of clause `u` among the later clauses that are
    /// not chosen yet, if any pair with `u` can be violated at once.
    fn find_partner(sat: &SAT, choosed: &Vec<bool>, u: usize, Ghost(taken): Ghost<Set<usize>>) -> (candidate: Option<
        usize,
    >)
        requires
            sat.wf(),
            u < sat@.clauses.len(),
            choosed@.len() == sat@.clauses.len(),
            forall|x: usize| x < choosed@.len() ==> (#[trigger] choosed@[x as int] <==> taken.contains(x)),
        ensures
            match candidate {
                Some(v) => best_partner(sat@, u, taken, v),
                None => forall|v: usize| !best_partner(sat@, u, taken, v),
            },
    {
        let ghost f = sat@;
        let n = sat.size();
        let mut candidate: Option<usize> = None;
        let mut mx = Probability::Zero;
        let mut v: usize = u + 1;
        while v < n
            invariant
                u < v <= n,
                n == f.clauses.len(),
                f == sat@,
                sat.wf(),
                choosed@.len() == n,
                forall|x: usize| x < choosed@.len() ==> (#[trigger] choosed@[x as int] <==> taken.contains(x)),
                candidate is None ==> mx is Zero,
                forall|w: usize| u < w < v && !taken.contains(w) ==> (#[trigger] joint(f, u, w)).le(mx),
                candidate matches Some(c) ==> u < c < v && !taken.contains(c) && mx == joint(f, u, c)
                    && Probability::Zero.lt(mx) && forall|w: usize|
                    u < w < c && !taken.contains(w) ==> (#[trigger] joint(f, u, w)).lt(mx),
            decreases n - v,
        {
            if !choosed[v] {
                let pair = vec![u, v];
                assert(pair@ =~= seq![u, v]);
                let pairwise_pr = sat.pr_land(&pair);
                let ghost before = mx;
                proof {
                    lemma_order_by_exponent(mx, pairwise_pr);
                    lemma_order_by_exponent(pairwise_pr, mx);
                    lemma_order_by_exponent(Probability::Zero, pairwise_pr);
                    lemma_order_by_exponent(pairwise_pr, pairwise_pr);
                }
                if mx.less_than(&pairwise_pr) {
                    mx = pairwise_pr;
                    candidate = Some(v);
                    proof {
                        assert forall|w: usize| u < w < v && !taken.contains(w) implies (#[trigger] joint(f, u, w)).lt(
                            mx,
                        ) by {
                            lemma_order_by_exponent(joint(f, u, w), before);
                            lemma_order_by_exponent(joint(f, u, w), mx);
                        }
                        assert forall|w: usize| u < w < v + 1 && !taken.contains(w) implies (#[trigger] joint(
                            f,
                            u,
                            w,
                        )).le(mx) by {
                            if w < v {
                                lemma_le_transitive(joint(f, u, w), before, mx);
                            }
                        }
                    }
                }
            }
            v += 1;
        }
        proof {
            if candidate is None {
                assert forall|x: usize| !best_partner(f, u, taken, x) by {
                    if u < x < n && !taken.contains(x) {
                        lemma_order_by_exponent(joint(f, u, x), Probability::Zero);
                        lemma_order_by_exponent(Probability::Zero, joint(f, u, x));
                    }
                }
            }
        }
        candidate
    }

    /// Walks through the clauses in order and pairs each clause that is still
    /// free with the later free clause that is most likely to be violated
    /// together with it, the first of them where there are several; a clause
    /// stays alone where no such pair can be violated at once.
    #[verifier::loop_isolation(false)]
    pub fn from_sat_greedy(sat: &SAT) -> (m: Match)
        requires
            sat.wf(),
        ensures
            greedy_upto(sat@, m@, sat@.clauses.len() as int),
    {
        let ghost f = sat@;
        let mut edge: Vec<(usize, usize)> = Vec::new();
        let n = sat.size();
        let mut choosed: Vec<bool> = new_vector(n, false);
        let mut u: usize = 0;
        while u < n
            invariant
                u <= n,
                choosed@.len() == n,
                greedy_upto(f, edge@, u as int),
                forall|x: usize|
                    x < n ==> (#[trigger] choosed@[x as int] <==> taken_by(edge@, edge@.len() as int).contains(x)),
            decreases n - u,
        {
            let ghost e = edge@;
            let ghost taken = taken_by(e, e.len() as int);
            let mut candidate: Option<usize> = None;
            if !choosed[u] {
                candidate = Match::find_partner(sat, &choosed, u, Ghost(taken));
            }
            match candidate {
                Some(v) => {
                    edge.push((u, v));
                    choosed.set(u, true);
                    choosed.set(v, true);
                    proof {
                        let longer = edge@;
                        assert forall|k: int| 0 <= k <= e.len() implies #[trigger] taken_by(longer, k) == taken_by(
                            e,
                            k,
                        ) by {
                            lemma_taken_by_push(e, (u, v), k);
                        }
                        lemma_taken_by_push(e, (u, v), 0);
                        assert forall|k: int| 0 <= k < longer.len() implies (#[trigger] longer[k]).0 < u + 1
                            && !taken_by(longer, k).contains(longer[k].0) && best_partner(
                            f,
                            longer[k].0,
                            taken_by(longer, k),
                            longer[k].1,
                        ) by {
                            if k < e.len() {
                                assert(longer[k] == e[k]);
                                assert(taken_by(longer, k) == taken_by(e, k));
                            } else {
                                assert(taken_by(longer, k) == taken);
                            }
                        }
                        assert forall|x: usize| x < u + 1 implies #[trigger] settled(f, longer, x) by {
                            if x < u {
                                assert(settled(f, e, x));
                                let k = choose|k: int| dealt(f, e, x, k);
                                assert(taken_by(longer, k) == taken_by(e, k));
                                assert forall|j: int| 0 <= j < k implies (#[trigger] longer[j]).0 < x by {
                                    assert(longer[j] == e[j]);
                                }
                                assert forall|j: int| k <= j < longer.len() implies (#[trigger] longer[j]).0 >= x by {
                                    if j < e.len() {
                                        assert(longer[j] == e[j]);
                                    }
                                }
                                if k < e.len() && e[k].0 == x {
                                    assert(longer[k] == e[k]);
                                }
                                assert(dealt(f, longer, x, k));
                            } else {
                                assert forall|j: int| 0 <= j < e.len() implies (#[trigger] longer[j]).0 < x by {
                                    assert(longer[j] == e[j]);
                                }
                                assert(dealt(f, longer, x, e.len() as int));
                            }
                        }
                    }
                },
                None => {
                    proof {
                        assert(dealt(f, e, u, e.len() as int));
                    }
                },
            }
            u += 1;
        }
        Match { edge }
    }
}

/// The divisor of the correction that a matched pair takes off the estimates
/// of its two clauses.
pub const MATCH_DIVISOR: usize = 13;

/// The divisor of the correction in the conjectured, stronger variant.
pub const CONJECTURE_DIVISOR: usize = 2;

/// What a pair of clauses takes off the estimates of the two: `Some(e)`
/// stands for the square of `2^-e` over a divisor. A pair takes off nothing
/// where the two clauses cannot be violated at once, and where they have no
/// literal in common: then they have twice as many literals as the formula
/// has in a clause.
pub open spec fn pair_correction(f: Formula, u: usize, v: usize) -> Option<usize> {
    match joint(f, u, v) {
        Probability::Zero => None,
        Probability::PowerOfHalf(e) => if e == 2 * f.arity {
            None
        } else {
            Some(e)
        },
    }
}

/// The corrections that the pairs of a matching ask for, in the order of the
/// pairs: the two clauses and the exponent.
pub open spec fn corrections(f: Formula, e: Seq<(usize, usize)>) -> Seq<(usize, usize, usize)>
    decreases e.len(),
{
    if e.len() == 0 {
        Seq::empty()
    } else {
        let before = corrections(f, e.drop_last());
        match pair_correction(f, e.last().0, e.last().1) {
            Some(x) => before.push((e.last().0, e.last().1, x)),
            None => before,
        }
    }
}

impl Match {
    /// The corrections that the pairs of the matching take off the estimates
    /// of the clauses of `sat`; see [`corrections`].
    pub fn corrections(&self, sat: &SAT) -> (list: Vec<(usize, usize, usize)>)
        requires
            sat.wf(),
            forall|k: int|
                0 <= k < self@.len() ==> (#[trigger] self@[k]).0 < sat@.clauses.len() && self@[k].1
                    < sat@.clauses.len(),
        ensures
            list@ == corrections(sat@, self@),
    {
        let ghost f = sat@;
        let k = sat.clause_size();
        let mut list: Vec<(usize, usize, usize)> = Vec::new();
        let mut i: usize = 0;
        while i < self.edge.len()
            invariant
                i <= self@.len(),
                f == sat@,
                sat.wf(),
                k == f.arity,
                forall|j: int|
                    0 <= j < self@.len() ==> (#[trigger] self@[j]).0 < f.clauses.len() && self@[j].1
                        < f.clauses.len(),
                list@ == corrections(f, self@.take(i as int)),
            decreases self@.len() - i,
        {
            let (u, v) = self.edge[i];
            proof {
                assert(self@.take(i + 1).drop_last() =~= self@.take(i as int));
                assert(self@.take(i + 1).last() == (u, v));
                assert(self@[i as int] == (u, v));
            }
            let pair = vec![u, v];
            assert(pair@ =~= seq![u, v]);
            match sat.pr_land(&pair) {
                Probability::Zero => {},
                Probability::PowerOfHalf(e) => {
                    if k > usize::MAX / 2 || e != 2 * k {
                        list.push((u, v, e));
                    }
                },
            }
            i += 1;
        }
        proof {
            assert(self@.take(i as int) =~= self@);
        }
        list
    }
}

} // verus!
