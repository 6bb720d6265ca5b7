//! Bounds from counting: the satisfying assignments of a formula, and the
//! independent sets of its dependency graph.

use crate::dep::{among, forward, DependencyGraph, GraphView};
use crate::masks::{
    lemma_high_bits_zero, lemma_low_bits, lemma_lowest_new_bit, lemma_mod_lower, lemma_mod_split, lemma_set_bit,
};
use crate::random_space::{bit_of, bits_of, random_space_of_nbits};
use crate::sat::{clause_violated, Formula, SAT};
use crate::utility::new_vector;
use vstd::arithmetic::power2::{lemma_pow2_pos, lemma_pow2_strictly_increases, pow2};
use vstd::prelude::*;

verus! {

/// What a checker found.
#[derive(Clone, Copy, Debug)]
pub enum PredictedResult {
    /// The checker's criterion does not hold.
    Invalid,
    /// The criterion holds, and `numerator / denominator` bounds the expected
    /// number of rounds from above.
    UpperBound { numerator: u128, denominator: u128 },
}

/// No clause of `f` is violated under `a`.
pub open spec fn satisfies(f: Formula, a: Seq<bool>) -> bool {
    forall|d: int| 0 <= d < f.clauses.len() ==> !clause_violated(#[trigger] f.clauses[d], a)
}

/// The assignment that pattern `s` stands for: bit `v - 1` of `s` is the
/// value of variable `v`.
pub open spec fn assignment_of(f: Formula, s: nat) -> Seq<bool> {
    bits_of(s, 0, f.variables)
}

/// The number of patterns below `upto` whose assignment violates no clause.
pub open spec fn count_satisfying(f: Formula, upto: nat) -> nat
    decreases upto,
{
    if upto == 0 {
        0
    } else {
        count_satisfying(f, (upto - 1) as nat) + if satisfies(f, assignment_of(f, (upto - 1) as nat)) {
            1nat
        } else {
            0nat
        }
    }
}

/// No more patterns are counted than there are.
proof fn lemma_count_satisfying_bound(f: Formula, upto: nat)
    ensures
        count_satisfying(f, upto) <= upto,
    decreases upto,
{
    if upto > 0 {
        lemma_count_satisfying_bound(f, (upto - 1) as nat);
    }
}

/// Whether no entry of `flags` is set.
fn none_set(flags: &Vec<bool>) -> (none: bool)
    ensures
        none == forall|i: int| 0 <= i < flags@.len() ==> !flags@[i],
{
    let mut i: usize = 0;
    while i < flags.len()
        invariant
            i <= flags@.len(),
            forall|j: int| 0 <= j < i ==> !flags@[j],
        decreases flags@.len() - i,
    {
        if flags[i] {
            return false;
        }
        i += 1;
    }
    true
}

/// Counts, among all `2^m` assignments of the `m` variables, those that
/// violate no clause. Where there is none the result is `Invalid`; else the
/// bound is `2^m` over their number.
#[verifier::loop_isolation(false)]
pub fn satisfiability_checker(sat: &SAT) -> (r: PredictedResult)
    requires
        sat.wf(),
        sat@.variables < usize::BITS,
    ensures
        match r {
            PredictedResult::Invalid => count_satisfying(sat@, pow2(sat@.variables)) == 0,
            PredictedResult::UpperBound { numerator, denominator } => numerator == pow2(sat@.variables)
                && denominator == count_satisfying(sat@, pow2(sat@.variables)) && denominator > 0,
        },
{
    let ghost f = sat@;
    let m = sat.variable_count();
    let mut solution: usize = 0;
    let mut it = random_space_of_nbits(m);
    proof {
        vstd::bits::lemma_usize_pow2_no_overflow(m as nat);
    }
    loop
        invariant
            it.wf(),
            it.width() == m,
            solution == count_satisfying(f, it.position()),
        decreases pow2(m as nat) - it.position(),
    {
        let ghost position = it.position();
        match it.next() {
            None => {
                if solution == 0 {
                    return PredictedResult::Invalid;
                }
                proof {
                    vstd::bits::lemma_usize_shl_is_mul(1, m);
                }
                return PredictedResult::UpperBound { numerator: (1usize << m) as u128, denominator: solution as u128 };
            },
            Some(r) => {
                let bits = r.to_bits();
                let violated = sat.check_violated(&bits);
                proof {
                    lemma_count_satisfying_bound(f, position);
                    assert(bits@ == assignment_of(f, position));
                    let flags = f.violated_under(bits@);
                    assert(violated@ == flags);
                    if satisfies(f, bits@) {
                        assert forall|i: int| 0 <= i < flags.len() implies !flags[i] by {
                            assert(!clause_violated(f.clauses[i], bits@));
                        }
                    }
                    if forall|i: int| 0 <= i < flags.len() ==> !flags[i] {
                        assert forall|d: int| 0 <= d < f.clauses.len() implies !clause_violated(
                            #[trigger] f.clauses[d],
                            bits@,
                        ) by {
                            assert(!flags[d]);
                        }
                    }
                }
                if none_set(&violated) {
                    solution += 1;
                }
            },
        }
    }
}

/// The largest number of clauses for which the subsets are enumerated.
pub const SHEARER_CLAUSES: usize = 20;

/// The set of clauses whose bits are set in `x` is independent: no member
/// depends on another.
pub open spec fn independent(g: GraphView, x: nat) -> bool {
    forall|i: int, j: int|
        0 <= i < g.gamma.len() && 0 <= j < g.gamma.len() && bit_of(x, i as nat) && bit_of(x, j as nat)
            ==> !(#[trigger] g.gamma[i]).contains(#[trigger] (j as usize))
}

/// Clause `d` is a member of the set `x` or depends on one.
pub open spec fn blocked(g: GraphView, x: nat, d: usize) -> bool {
    exists|e: int| blocks(g, x, e, d)
}

/// Clause `e` is a member of the set `x`, and it is clause `d` or clause `d`
/// depends on it.
pub open spec fn blocks(g: GraphView, x: nat, e: int, d: usize) -> bool {
    0 <= e < g.gamma.len() && bit_of(x, e as nat) && (e == d || g.gamma[e].contains(d))
}

/// What the enumeration from set `x` marks: the independent sets that hold
/// `x` and beyond it only clauses from `pt` on.
pub open spec fn reached(g: GraphView, x: nat, pt: nat, y: nat) -> bool {
    independent(g, y) && y % pow2(pt) == x
}

/// What the counter of clause `d` changes by when clause `c` is marked.
pub open spec fn change(listed: bool, up: bool) -> int {
    if !listed {
        0
    } else if up {
        1
    } else {
        -1
    }
}

/// Adds one to the counter of clause `c` and of each later clause that
/// depends on it, or takes one away from each.
#[verifier::loop_isolation(false)]
fn mark(vis: &mut Vec<usize>, dep: &DependencyGraph, c: usize, up: bool)
    requires
        dep.wf(),
        c < dep@.gamma.len(),
        old(vis)@.len() == dep@.gamma.len(),
        up ==> forall|d: int| 0 <= d < old(vis)@.len() ==> #[trigger] old(vis)@[d] < usize::MAX,
        !up ==> forall|d: usize|
            d < old(vis)@.len() && (d == c || dep@.gamma[c as int].contains(d)) ==> #[trigger] old(vis)@[d as int]
                > 0,
    ensures
        final(vis)@.len() == old(vis)@.len(),
        forall|d: usize|
            d < old(vis)@.len() ==> #[trigger] final(vis)@[d as int] == old(vis)@[d as int] + change(
                d == c || dep@.gamma[c as int].contains(d),
                up,
            ),
{
    proof {
        dep.lemma_wf();
    }
    let scope = dep.get_gamma_plus(c);
    let ghost g = dep@.gamma[c as int];
    let ghost start = vis@;
    let mut i: usize = 0;
    while i < scope.len()
        invariant
            i <= scope@.len(),
            scope@ == g.push(c),
            g == dep@.gamma[c as int],
            forward(dep@),
            c < dep@.gamma.len(),
            vis@.len() == start.len(),
            start.len() == dep@.gamma.len(),
            up ==> forall|d: int| 0 <= d < start.len() ==> #[trigger] start[d] < usize::MAX,
            !up ==> forall|d: usize| d < start.len() && (d == c || g.contains(d)) ==> #[trigger] start[d as int] > 0,
            forall|d: usize|
                d < start.len() ==> #[trigger] vis@[d as int] == start[d as int] + change(
                    among(scope@, i as int, d),
                    up,
                ),
        decreases scope@.len() - i,
    {
        let d = scope[i];
        proof {
            if i < g.len() {
                assert(scope@[i as int] == g[i as int]);
                assert(g.contains(d));
            }
            if among(scope@, i as int, d) {
                let w = choose|w: int| 0 <= w < i && scope@[w] == d;
                if i < g.len() {
                    assert(g[w] < g[i as int]);
                } else {
                    assert(scope@[w] == g[w]);
                }
            }
        }
        if up {
            vis.set(d, vis[d] + 1);
        } else {
            vis.set(d, vis[d] - 1);
        }
        proof {
            assert forall|x: usize| x < start.len() implies #[trigger] vis@[x as int] == start[x as int] + change(
                among(scope@, i + 1, x),
                up,
            ) by {
                if x == d {
                    assert(scope@[i as int] == x);
                    assert(among(scope@, i + 1, x));
                } else {
                    if among(scope@, i + 1, x) {
                        let w = choose|w: int| 0 <= w < i + 1 && scope@[w] == x;
                        assert(w < i);
                        assert(among(scope@, i as int, x));
                    }
                    if among(scope@, i as int, x) {
                        let w = choose|w: int| 0 <= w < i && scope@[w] == x;
                        assert(0 <= w < i + 1 && scope@[w] == x);
                    }
                }
            }
        }
        i += 1;
    }
    proof {
        assert forall|d: usize| d < start.len() implies (#[trigger] among(scope@, i as int, d) <==> (d == c
            || g.contains(d))) by {
            if among(scope@, i as int, d) {
                let w = choose|w: int| 0 <= w < i && scope@[w] == d;
                if w < g.len() {
                    assert(g[w] == d);
                }
            }
            if g.contains(d) {
                let w = choose|w: int| 0 <= w < g.len() && g[w] == d;
                assert(scope@[w] == d);
            }
            if d == c {
                assert(scope@[g.len() as int] == d);
            }
        }
    }
}

/// The set `y` is `x` with more clauses, the first of them one of the clauses
/// from `pt` up to `upto`.
pub open spec fn branches(x: nat, pt: nat, upto: nat, y: nat) -> bool {
    exists|k: nat| pt <= k < upto && bit_of(y, k) && #[trigger] (y % pow2(k)) == x
}

/// A set goes beyond `x` first with clause `k` exactly where it agrees with
/// `x` and clause `k` below bit `k + 1`.
proof fn lemma_reach_step(x: nat, k: nat, y: nat)
    requires
        x < pow2(k),
    ensures
        (y % pow2(k + 1) == x + pow2(k)) <==> (bit_of(y, k) && y % pow2(k) == x),
{
    lemma_mod_split(y, k);
}

/// The sets that agree with `x` below bit `pt` are `x` itself and those
/// that go beyond it first with one of the clauses from `pt` on.
proof fn lemma_reach_all(x: nat, pt: nat, n: nat, y: nat)
    requires
        pt <= n,
        x < pow2(pt),
        y < pow2(n),
    ensures
        (y % pow2(pt) == x) <==> (y == x || branches(x, pt, n, y)),
{
    vstd::arithmetic::div_mod::lemma_small_mod(x, pow2(pt));
    if y % pow2(pt) == x && y != x {
        let k = lemma_lowest_new_bit(x, y, pt, n);
        assert(pt <= k < n && bit_of(y, k) && y % pow2(k) == x);
    }
    if branches(x, pt, n, y) {
        let k = choose|k: nat| pt <= k < n && bit_of(y, k) && #[trigger] (y % pow2(k)) == x;
        lemma_mod_lower(y, k, pt);
    }
}

/// No independent set goes beyond `x` first with a clause that `x` blocks.
proof fn lemma_blocked_unreachable(g: GraphView, x: nat, pt: nat, k: usize, y: nat)
    requires
        forward(g),
        x < pow2(pt),
        pt <= k < g.gamma.len(),
        blocked(g, x, k),
        bit_of(y, k as nat),
        y % pow2(k as nat) == x,
    ensures
        !independent(g, y),
{
    let e = choose|e: int| blocks(g, x, e, k);
    if e >= pt {
        lemma_high_bits_zero(x, pt, e as nat);
    }
    lemma_low_bits(y, k as nat, e as nat);
    let j = k as int;
    assert(bit_of(y, e as nat) && bit_of(y, j as nat) && g.gamma[e].contains(j as usize));
}

/// An independent set stays independent when a clause joins it that it does
/// not block, and then blocks what it blocked before and what the new clause
/// blocks.
proof fn lemma_extend_independent(g: GraphView, x: nat, pt: nat, k: usize)
    requires
        forward(g),
        independent(g, x),
        x < pow2(pt),
        pt <= k < g.gamma.len(),
        !blocked(g, x, k),
    ensures
        independent(g, x + pow2(k as nat)),
        x + pow2(k as nat) < pow2((k + 1) as nat),
        forall|d: usize|
            d < g.gamma.len() ==> (#[trigger] blocked(g, x + pow2(k as nat), d) <==> (blocked(g, x, d) || d == k
                || g.gamma[k as int].contains(d))),
{
    let z = x + pow2(k as nat);
    if pt < k {
        lemma_pow2_strictly_increases(pt, k as nat);
    }
    lemma_set_bit(x, k as nat, 0);
    assert forall|i: nat| bit_of(z, i) == (bit_of(x, i) || i == k) by {
        lemma_set_bit(x, k as nat, i);
    }
    assert forall|i: nat| bit_of(x, i) implies i < pt by {
        if i >= pt {
            lemma_high_bits_zero(x, pt, i);
        }
    }
    assert forall|i: int, j: int|
        0 <= i < g.gamma.len() && 0 <= j < g.gamma.len() && bit_of(z, i as nat) && bit_of(z, j as nat) implies !(
    #[trigger] g.gamma[i]).contains(#[trigger] (j as usize)) by {
        if g.gamma[i].contains(j as usize) {
            let w = choose|w: int| 0 <= w < g.gamma[i].len() && g.gamma[i][w] == j as usize;
            assert(i < g.gamma[i][w]);
            if i == k {
                assert(bit_of(x, j as nat));
            } else if j == k {
                assert(bit_of(x, i as nat));
                assert(blocks(g, x, i, k));
            } else {
                assert(bit_of(x, i as nat) && bit_of(x, j as nat));
            }
        }
    }
    assert forall|d: usize| d < g.gamma.len() implies (#[trigger] blocked(g, z, d) <==> (blocked(g, x, d) || d == k
        || g.gamma[k as int].contains(d))) by {
        if blocked(g, z, d) {
            let e = choose|e: int| blocks(g, z, e, d);
            if e != k {
                assert(blocks(g, x, e, d));
            }
        }
        if blocked(g, x, d) {
            let e = choose|e: int| blocks(g, x, e, d);
            assert(blocks(g, z, e, d));
        }
        if d == k || g.gamma[k as int].contains(d) {
            assert(blocks(g, z, k as int, d));
        }
    }
}

/// Marks in `q` every independent set that holds the set `x` and beyond it
/// only clauses from `pt` on. `vis` counts, for each clause, the members of
/// `x` that block it.
#[verifier::loop_isolation(false)]
fn dfs(q: &mut Vec<bool>, vis: &mut Vec<usize>, dep: &DependencyGraph, n: usize, x: usize, pt: usize)
    requires
        dep.wf(),
        n == dep@.gamma.len(),
        n <= SHEARER_CLAUSES,
        pt <= n,
        x < pow2(pt as nat),
        old(q)@.len() == pow2(n as nat),
        old(vis)@.len() == n,
        independent(dep@, x as nat),
        forall|d: usize| d < n ==> (#[trigger] old(vis)@[d as int] > 0 <==> blocked(dep@, x as nat, d)),
        forall|d: usize| d < n ==> #[trigger] old(vis)@[d as int] <= pt,
    ensures
        final(vis)@ == old(vis)@,
        final(q)@.len() == old(q)@.len(),
        forall|y: int|
            0 <= y < pow2(n as nat) ==> #[trigger] final(q)@[y] == (old(q)@[y] || reached(
                dep@,
                x as nat,
                pt as nat,
                y as nat,
            )),
    decreases n - pt,
{
    let ghost g = dep@;
    let ghost q0 = q@;
    let ghost vis0 = vis@;
    proof {
        dep.lemma_wf();
        lemma_pow2_pos(pt as nat);
        if pt < n {
            lemma_pow2_strictly_increases(pt as nat, n as nat);
        }
    }
    q.set(x, true);
    let mut npt = pt;
    while npt < n
        invariant
            pt <= npt <= n,
            vis@ == vis0,
            q@.len() == q0.len(),
            forall|y: int|
                0 <= y < pow2(n as nat) ==> #[trigger] q@[y] == (q0[y] || (independent(g, y as nat) && (y == x
                    || branches(x as nat, pt as nat, npt as nat, y as nat)))),
        decreases n - npt,
    {
        let ghost q1 = q@;
        if vis[npt] == 0 {
            proof {
                lemma_extend_independent(g, x as nat, pt as nat, npt);
                vstd::bits::lemma_usize_pow2_no_overflow(npt as nat);
                vstd::bits::lemma_usize_shl_is_mul(1, npt);
                if pt < npt {
                    lemma_pow2_strictly_increases(pt as nat, npt as nat);
                }
            }
            let bit: usize = 1usize << npt;
            assert(x | bit == x + bit) by (bit_vector)
                requires
                    x < bit,
                    bit == 1usize << npt,
                    npt < 20,
            ;
            mark(vis, dep, npt, true);
            dfs(q, vis, dep, n, x | bit, npt + 1);
            mark(vis, dep, npt, false);
            proof {
                assert(vis@ =~= vis0);
                assert forall|y: int| 0 <= y < pow2(n as nat) implies #[trigger] q@[y] == (q0[y] || (independent(
                    g,
                    y as nat,
                ) && (y == x || branches(x as nat, pt as nat, (npt + 1) as nat, y as nat)))) by {
                    lemma_reach_step(x as nat, npt as nat, y as nat);
                    let here = bit_of(y as nat, npt as nat) && (y as nat) % pow2(npt as nat) == x;
                    assert(q@[y] == (q1[y] || (independent(g, y as nat) && here)));
                    lemma_branches_grow(x as nat, pt as nat, npt as nat, y as nat);
                }
            }
        } else {
            proof {
                assert forall|y: int| 0 <= y < pow2(n as nat) implies #[trigger] q@[y] == (q0[y] || (independent(
                    g,
                    y as nat,
                ) && (y == x || branches(x as nat, pt as nat, (npt + 1) as nat, y as nat)))) by {
                    lemma_branches_grow(x as nat, pt as nat, npt as nat, y as nat);
                    if bit_of(y as nat, npt as nat) && (y as nat) % pow2(npt as nat) == x {
                        lemma_blocked_unreachable(g, x as nat, pt as nat, npt, y as nat);
                    }
                }
            }
        }
        npt += 1;
    }
    proof {
        assert forall|y: int| 0 <= y < pow2(n as nat) implies #[trigger] q@[y] == (q0[y] || reached(
            g,
            x as nat,
            pt as nat,
            y as nat,
        )) by {
            lemma_reach_all(x as nat, pt as nat, n as nat, y as nat);
        }
    }
}

/// The sets that go beyond `x` first with a clause up to `k` are those that
/// do so with a clause before `k`, and those that do so with `k`.
proof fn lemma_branches_grow(x: nat, pt: nat, k: nat, y: nat)
    requires
        pt <= k,
    ensures
        branches(x, pt, k + 1, y) <==> (branches(x, pt, k, y) || (bit_of(y, k) && y % pow2(k) == x)),
{
    if branches(x, pt, k + 1, y) {
        let w = choose|w: nat| pt <= w < k + 1 && bit_of(y, w) && #[trigger] (y % pow2(w)) == x;
        if w < k {
            assert(pt <= w < k && bit_of(y, w) && y % pow2(w) == x);
        }
    }
    if branches(x, pt, k, y) {
        let w = choose|w: nat| pt <= w < k && bit_of(y, w) && #[trigger] (y % pow2(w)) == x;
        assert(pt <= w < k + 1 && bit_of(y, w) && y % pow2(w) == x);
    }
    if bit_of(y, k) && y % pow2(k) == x {
        assert(pt <= k < k + 1 && bit_of(y, k) && y % pow2(k) == x);
    }
}

/// For every subset of the clauses, taken as the number whose bit `i` says
/// whether clause `i` is a member, whether the subset is independent: no
/// member depends on another. The graph has at most 20 clauses.
pub fn shearer_independent_sets(dep: &DependencyGraph) -> (q: Vec<bool>)
    requires
        dep.wf(),
        dep@.gamma.len() <= SHEARER_CLAUSES,
    ensures
        q@.len() == pow2(dep@.gamma.len()),
        forall|x: int| 0 <= x < q@.len() ==> #[trigger] q@[x] == independent(dep@, x as nat),
{
    let n = dep.size();
    proof {
        vstd::bits::lemma_usize_pow2_no_overflow(n as nat);
        vstd::bits::lemma_usize_shl_is_mul(1, n);
        lemma_pow2_pos(0);
        vstd::arithmetic::power2::lemma2_to64();
    }
    let mut q: Vec<bool> = new_vector(1usize << n, false);
    let mut vis: Vec<usize> = new_vector(n, 0usize);
    proof {
        assert forall|i: nat| !bit_of(0, i) by {
            lemma_pow2_pos(i);
            vstd::arithmetic::div_mod::lemma_basic_div(0, pow2(i) as int);
        }
        assert(independent(dep@, 0));
        assert forall|d: usize| d < n implies !blocked(dep@, 0, d) by {}
    }
    dfs(&mut q, &mut vis, dep, n, 0, 0);
    proof {
        assert forall|x: int| 0 <= x < q@.len() implies #[trigger] q@[x] == independent(dep@, x as nat) by {
            assert((x as nat) % pow2(0) == 0);
        }
    }
    q
}

} // verus!
