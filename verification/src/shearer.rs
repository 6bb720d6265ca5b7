//! Shearer's criterion on the estimates of a dependency graph, in exact
//! arithmetic: the products over independent sets and their subset transform.

use crate::dep::{DependencyGraph, GraphView};
use crate::lll::{independent, shearer_independent_sets, PredictedResult, SHEARER_CLAUSES};
use crate::masks::{lemma_join, lemma_join_below, lemma_read_bit};
use crate::probability::Probability;
use crate::random_space::bit_of;
use vstd::arithmetic::power2::{
    lemma2_to64, lemma_pow2_adds, lemma_pow2_pos, lemma_pow2_strictly_increases, lemma_pow2_unfold, pow2,
};
use vstd::prelude::*;

verus! {

/// The largest sum of exponents for which the criterion is worked out.
pub const SHEARER_EXPONENT: usize = 100;

/// The exponent `e` of an estimate `2^-e`.
pub open spec fn exponent(p: Probability) -> nat {
    match p {
        Probability::PowerOfHalf(e) => e as nat,
        Probability::Zero => 0,
    }
}

/// The sum of the exponents of the first `k` estimates.
pub open spec fn total_exponent(p: Seq<Probability>, k: nat) -> nat
    decreases k,
{
    if k == 0 {
        0
    } else {
        total_exponent(p, (k - 1) as nat) + exponent(p[k - 1])
    }
}

/// The sum of the exponents of the estimates of those of the first `k`
/// clauses that are members of the set `x`.
pub open spec fn set_exponent(p: Seq<Probability>, x: nat, k: nat) -> nat
    decreases k,
{
    if k == 0 {
        0
    } else {
        set_exponent(p, x, (k - 1) as nat) + if bit_of(x, (k - 1) as nat) {
            exponent(p[k - 1])
        } else {
            0
        }
    }
}

/// The product of the estimates of the members of the set `x`, where the set
/// is independent, and zero where it is not; all in units of the product of
/// all estimates.
pub open spec fn scaled_product(g: GraphView, x: nat) -> int {
    if independent(g, x) {
        pow2((total_exponent(g.p, g.gamma.len()) - set_exponent(g.p, x, g.gamma.len())) as nat) as int
    } else {
        0
    }
}

/// The subset transform over the first `i` clauses: the value at a set
/// without clause `i - 1` is lowered by the value at the set with it, and
/// so on down to the products themselves.
pub open spec fn transformed(g: GraphView, i: nat, x: nat) -> int
    decreases i,
{
    if i == 0 {
        scaled_product(g, x)
    } else if bit_of(x, (i - 1) as nat) {
        transformed(g, (i - 1) as nat, x)
    } else {
        transformed(g, (i - 1) as nat, x) - transformed(g, (i - 1) as nat, x + pow2((i - 1) as nat))
    }
}

/// The value of Shearer's criterion at the set `x`: the sum, over the sets
/// of clauses that hold `x`, of their products, each taken with a minus where
/// the set goes beyond `x` by an odd number of clauses.
pub open spec fn shearer_value(g: GraphView, x: nat) -> int {
    signed_sum(g, g.gamma.len(), x, pow2(g.gamma.len()))
}

/// The sum of the values at the sets of one clause, for the first `k`
/// clauses.
pub open spec fn singles(g: GraphView, k: nat) -> int
    decreases k,
{
    if k == 0 {
        0
    } else {
        singles(g, (k - 1) as nat) + shearer_value(g, pow2((k - 1) as nat))
    }
}

/// The criterion fails: the value at some set is negative.
pub open spec fn some_negative(g: GraphView) -> bool {
    exists|x: nat| x < pow2(g.gamma.len()) && #[trigger] shearer_value(g, x) < 0
}

/// The exponents of the members of a set sum to no more than all exponents.
proof fn lemma_set_exponent_bound(p: Seq<Probability>, x: nat, k: nat)
    ensures
        set_exponent(p, x, k) <= total_exponent(p, k),
    decreases k,
{
    if k > 0 {
        lemma_set_exponent_bound(p, x, (k - 1) as nat);
    }
}

/// A power of two with a smaller exponent is not larger.
proof fn lemma_pow2_ordered(a: nat, b: nat)
    requires
        a <= b,
    ensures
        pow2(a) <= pow2(b),
        pow2(a) > 0,
{
    lemma_pow2_pos(a);
    if a < b {
        lemma_pow2_strictly_increases(a, b);
    }
}

/// The transformed values over the first `i` clauses are bounded by `2^i`
/// times the largest product.
proof fn lemma_transformed_bound(g: GraphView, i: nat, x: nat)
    ensures
        -pow2(i + total_exponent(g.p, g.gamma.len())) <= transformed(g, i, x) <= pow2(
            i + total_exponent(g.p, g.gamma.len()),
        ),
    decreases i,
{
    let n = g.gamma.len();
    let total = total_exponent(g.p, n);
    if i == 0 {
        lemma_set_exponent_bound(g.p, x, n);
        lemma_pow2_ordered((total - set_exponent(g.p, x, n)) as nat, total);
        lemma_pow2_pos(total);
    } else {
        let j = (i - 1) as nat;
        lemma_transformed_bound(g, j, x);
        lemma_transformed_bound(g, j, x + pow2(j));
        lemma_pow2_unfold(i + total);
        assert(((i + total) - 1) as nat == j + total);
    }
}

/// `2^120` is well within a signed word of 128 bits.
proof fn lemma_pow2_120()
    ensures
        pow2(120) == 0x1000000000000000000000000000000,
        pow2(126) == 0x40000000000000000000000000000000,
{
    lemma2_to64();
    vstd::arithmetic::power2::lemma2_to64_rest();
    lemma_pow2_adds(60, 60);
    lemma_pow2_adds(60, 62);
    lemma_pow2_adds(122, 4);
    assert(pow2(60) * pow2(60) == 0x1000000000000000000000000000000) by (nonlinear_arith)
        requires
            pow2(60) == 0x1000000000000000,
    ;
    assert(pow2(60) * pow2(62) == 0x4000000000000000000000000000000) by (nonlinear_arith)
        requires
            pow2(60) == 0x1000000000000000,
            pow2(62) == 0x4000000000000000,
    ;
    assert(pow2(122) * pow2(4) == 0x40000000000000000000000000000000) by (nonlinear_arith)
        requires
            pow2(122) == 0x4000000000000000000000000000000,
            pow2(4) == 0x10,
    ;
}

/// `2^s` as a signed word of 128 bits.
fn power_of_two(s: usize) -> (v: i128)
    requires
        s <= 120,
    ensures
        v == pow2(s as nat),
{
    let mut v: i128 = 1;
    let mut i: usize = 0;
    proof {
        lemma2_to64();
    }
    while i < s
        invariant
            i <= s <= 120,
            v == pow2(i as nat),
        decreases s - i,
    {
        proof {
            lemma_pow2_120();
            lemma_pow2_ordered(i as nat, 120);
            lemma_pow2_unfold((i + 1) as nat);
        }
        v = v * 2;
        i += 1;
    }
    v
}

/// The exponents of the estimates of the graph and their sum, or `None`
/// where the sum is above the limit.
fn exponents(dep: &DependencyGraph) -> (r: Option<(Vec<usize>, usize)>)
    requires
        dep.wf(),
    ensures
        match r {
            Some((exps, total)) => {
                &&& exps@.len() == dep@.gamma.len()
                &&& forall|i: int| 0 <= i < exps@.len() ==> #[trigger] exps@[i] == exponent(dep@.p[i])
                &&& total == total_exponent(dep@.p, dep@.gamma.len())
                &&& total <= SHEARER_EXPONENT
            },
            None => total_exponent(dep@.p, dep@.gamma.len()) > SHEARER_EXPONENT,
        },
{
    proof {
        dep.lemma_wf();
    }
    let n = dep.size();
    let mut exps: Vec<usize> = Vec::with_capacity(n);
    let mut total: usize = 0;
    let mut i: usize = 0;
    while i < n
        invariant
            i <= n,
            n == dep@.gamma.len(),
            dep@.p.len() == n,
            exps@.len() == i,
            forall|j: int| 0 <= j < i ==> #[trigger] exps@[j] == exponent(dep@.p[j]),
            total == total_exponent(dep@.p, i as nat),
            total <= SHEARER_EXPONENT,
        decreases n - i,
    {
        let e = match dep.get_p(i) {
            Probability::PowerOfHalf(e) => e,
            Probability::Zero => 0,
        };
        if e > SHEARER_EXPONENT - total {
            proof {
                lemma_total_exponent_grows(dep@.p, (i + 1) as nat, n as nat);
            }
            return None;
        }
        total = total + e;
        exps.push(e);
        i += 1;
    }
    Some((exps, total))
}

/// More estimates do not make the sum of the exponents smaller.
proof fn lemma_total_exponent_grows(p: Seq<Probability>, k: nat, n: nat)
    requires
        k <= n,
    ensures
        total_exponent(p, k) <= total_exponent(p, n),
    decreases n - k,
{
    if k < n {
        lemma_total_exponent_grows(p, k + 1, n);
    }
}

/// The products of the estimates over the independent sets, in units of the
/// product of all estimates.
#[verifier::loop_isolation(false)]
fn scaled_products(dep: &DependencyGraph, exps: &Vec<usize>, total: usize) -> (q: Vec<i128>)
    requires
        dep.wf(),
        dep@.gamma.len() <= SHEARER_CLAUSES,
        exps@.len() == dep@.gamma.len(),
        forall|i: int| 0 <= i < exps@.len() ==> #[trigger] exps@[i] == exponent(dep@.p[i]),
        total == total_exponent(dep@.p, dep@.gamma.len()),
        total <= SHEARER_EXPONENT,
    ensures
        q@.len() == pow2(dep@.gamma.len()),
        forall|x: int| 0 <= x < q@.len() ==> #[trigger] q@[x] == scaled_product(dep@, x as nat),
{
    let ghost g = dep@;
    let n = dep.size();
    let flags = shearer_independent_sets(dep);
    let size = flags.len();
    let mut q: Vec<i128> = Vec::with_capacity(size);
    let mut x: usize = 0;
    while x < size
        invariant
            x <= size,
            q@.len() == x,
            forall|y: int| 0 <= y < x ==> #[trigger] q@[y] == scaled_product(g, y as nat),
        decreases size - x,
    {
        if flags[x] {
            let mut inside: usize = 0;
            let mut k: usize = 0;
            while k < n
                invariant
                    k <= n,
                    inside == set_exponent(g.p, x as nat, k as nat),
                    inside <= total_exponent(g.p, k as nat),
                decreases n - k,
            {
                proof {
                    lemma_read_bit(x, k);
                    lemma_total_exponent_grows(g.p, (k + 1) as nat, n as nat);
                    assert(exps@[k as int] == exponent(g.p[k as int]));
                }
                if (x >> k) & 1 == 1 {
                    inside = inside + exps[k];
                }
                k += 1;
            }
            q.push(power_of_two(total - inside));
        } else {
            q.push(0);
        }
        x += 1;
    }
    q
}

/// The subset transform, in place: for each clause in turn, the value at
/// each set without the clause is lowered by the value at the set with it.
#[verifier::loop_isolation(false)]
fn subset_transform(q: &mut Vec<i128>, n: usize, Ghost(g): Ghost<GraphView>)
    requires
        n == g.gamma.len(),
        n <= SHEARER_CLAUSES,
        total_exponent(g.p, g.gamma.len()) <= SHEARER_EXPONENT,
        old(q)@.len() == pow2(n as nat),
        forall|x: int| 0 <= x < old(q)@.len() ==> #[trigger] old(q)@[x] == scaled_product(g, x as nat),
    ensures
        final(q)@.len() == old(q)@.len(),
        forall|x: int| 0 <= x < final(q)@.len() ==> #[trigger] final(q)@[x] == transformed(g, n as nat, x as nat),
{
    let size = q.len();
    let ghost total = total_exponent(g.p, g.gamma.len());
    proof {
        lemma_pow2_120();
        lemma_pow2_ordered(n as nat, 20);
        lemma2_to64();
    }
    let mut i: usize = 0;
    while i < n
        invariant
            i <= n,
            q@.len() == size,
            forall|x: int| 0 <= x < size ==> #[trigger] q@[x] == transformed(g, i as nat, x as nat),
        decreases n - i,
    {
        proof {
            vstd::bits::lemma_usize_pow2_no_overflow(i as nat);
            vstd::bits::lemma_usize_shl_is_mul(1, i);
            lemma_pow2_ordered((i + 1) as nat, n as nat);
            lemma_pow2_unfold((i + 1) as nat);
        }
        let bit: usize = 1usize << i;
        let mut j: usize = 0;
        while j < size
            invariant
                j <= size,
                q@.len() == size,
                bit == pow2(i as nat),
                forall|x: int|
                    0 <= x < size ==> #[trigger] q@[x] == if x < j && !bit_of(x as nat, i as nat) {
                        transformed(g, (i + 1) as nat, x as nat)
                    } else {
                        transformed(g, i as nat, x as nat)
                    },
            decreases size - j,
        {
            proof {
                lemma_read_bit(j, i);
            }
            if (j >> i) & 1 == 0 {
                assert(j | bit == j + bit) by (bit_vector)
                    requires
                        (j >> i) & 1 == 0,
                        bit == 1usize << i,
                        i < 20,
                ;
                proof {
                    lemma_join_below(j as nat, i as nat, n as nat);
                    lemma_transformed_bound(g, i as nat, j as nat);
                    lemma_transformed_bound(g, i as nat, (j + bit) as nat);
                    lemma_pow2_ordered(i as nat + total, 119);
                    lemma_pow2_unfold(120);
                }
                let lowered = q[j] - q[j | bit];
                q.set(j, lowered);
            }
            j += 1;
        }
        i += 1;
    }
}

/// Shearer's criterion on the estimates of the graph, worked out exactly. The
/// products of the estimates over the independent sets of clauses go through
/// the subset transform, which leaves at each set the signed sum over the
/// sets that hold it. The criterion holds where none of these values is
/// negative, and then the bound is the sum of the values at the sets of one
/// clause over the value at the empty set; all values are in units of the
/// product of all estimates. The result is `None` where the exponents of the
/// estimates sum to more than 100. The graph has at most 20 clauses.
#[verifier::loop_isolation(false)]
pub fn shearers_bound_checker(dep: &DependencyGraph) -> (r: Option<PredictedResult>)
    requires
        dep.wf(),
        dep@.gamma.len() <= SHEARER_CLAUSES,
    ensures
        r is None <==> total_exponent(dep@.p, dep@.gamma.len()) > SHEARER_EXPONENT,
        r == Some(PredictedResult::Invalid) ==> some_negative(dep@),
        r matches Some(PredictedResult::UpperBound { numerator, denominator }) ==> !some_negative(dep@)
            && numerator == singles(dep@, dep@.gamma.len()) && denominator == shearer_value(dep@, 0),
{
    let ghost g = dep@;
    let n = dep.size();
    let (exps, total) = match exponents(dep) {
        None => {
            return None;
        },
        Some(pair) => pair,
    };
    let mut q = scaled_products(dep, &exps, total);
    subset_transform(&mut q, n, Ghost(g));
    let size = q.len();
    proof {
        lemma_pow2_120();
        lemma2_to64();
        lemma_pow2_ordered(n as nat, 20);
        lemma_pow2_ordered(n as nat + total as nat, 120);
        assert forall|y: nat| y < size implies #[trigger] shearer_value(g, y) == transformed(g, n as nat, y) by {
            lemma_transformed_is_signed_sum(g, n as nat, y);
        }
    }
    let mut x: usize = 0;
    while x < size
        invariant
            x <= size,
            forall|y: nat| y < x ==> #[trigger] shearer_value(g, y) >= 0,
        decreases size - x,
    {
        if q[x] < 0 {
            assert(shearer_value(g, x as nat) < 0);
            return Some(PredictedResult::Invalid);
        }
        x += 1;
    }
    let mut sum: i128 = 0;
    let mut i: usize = 0;
    while i < n
        invariant
            i <= n,
            sum == singles(g, i as nat),
            0 <= sum <= i * pow2(120),
        decreases n - i,
    {
        proof {
            vstd::bits::lemma_usize_pow2_no_overflow(i as nat);
            vstd::bits::lemma_usize_shl_is_mul(1, i);
            lemma_pow2_strictly_increases(i as nat, n as nat);
            lemma_transformed_bound(g, n as nat, pow2(i as nat));
            assert(shearer_value(g, pow2(i as nat)) >= 0);
            assert((i + 1) * pow2(120) == i * pow2(120) + pow2(120)) by (nonlinear_arith);
        }
        sum = sum + q[1usize << i];
        i += 1;
    }
    proof {
        lemma_pow2_pos(n as nat);
        assert(shearer_value(g, 0) >= 0);
    }
    Some(PredictedResult::UpperBound { numerator: sum as u128, denominator: q[0] as u128 })
}

/// The set `t` holds every one of the first `n` clauses that the set `x`
/// holds.
pub open spec fn superset(t: nat, x: nat, n: nat) -> bool {
    forall|k: nat| k < n && bit_of(x, k) ==> #[trigger] bit_of(t, k)
}

/// The sets `t` and `x` hold the same of the clauses from `i` up to `n`.
pub open spec fn agree_from(t: nat, x: nat, i: nat, n: nat) -> bool {
    forall|k: nat| i <= k < n ==> #[trigger] bit_of(t, k) == bit_of(x, k)
}

/// Among the first `k` clauses, the set `t` holds an odd number of clauses
/// that the set `x` does not hold.
pub open spec fn odd_extra(t: nat, x: nat, k: nat) -> bool
    decreases k,
{
    if k == 0 {
        false
    } else {
        odd_extra(t, x, (k - 1) as nat) != (bit_of(t, (k - 1) as nat) && !bit_of(x, (k - 1) as nat))
    }
}

/// What the set `t` adds to the signed sum at the set `x`: its product, with
/// the sign of the number of clauses by which it goes beyond `x`, where it
/// holds all of `x` and goes beyond it among the first `i` clauses only.
pub open spec fn term(g: GraphView, i: nat, x: nat, t: nat) -> int {
    let n = g.gamma.len();
    if superset(t, x, n) && agree_from(t, x, i, n) {
        if odd_extra(t, x, n) {
            -scaled_product(g, t)
        } else {
            scaled_product(g, t)
        }
    } else {
        0
    }
}

/// The sum of the terms of the sets below `upto`.
pub open spec fn signed_sum(g: GraphView, i: nat, x: nat, upto: nat) -> int
    decreases upto,
{
    if upto == 0 {
        0
    } else {
        signed_sum(g, i, x, (upto - 1) as nat) + term(g, i, x, (upto - 1) as nat)
    }
}

/// Sums of terms that are the same set by set are the same.
proof fn lemma_sum_same(g: GraphView, i: nat, x: nat, j: nat, upto: nat)
    requires
        forall|t: nat| t < upto ==> #[trigger] term(g, i, x, t) == term(g, j, x, t),
    ensures
        signed_sum(g, i, x, upto) == signed_sum(g, j, x, upto),
    decreases upto,
{
    if upto > 0 {
        lemma_sum_same(g, i, x, j, (upto - 1) as nat);
    }
}

/// Where each term is the difference of two others, so is the sum.
proof fn lemma_sum_difference(g: GraphView, i: nat, x: nat, j: nat, y: nat, upto: nat)
    requires
        forall|t: nat| t < upto ==> #[trigger] term(g, i, x, t) == term(g, j, x, t) - term(g, j, y, t),
    ensures
        signed_sum(g, i, x, upto) == signed_sum(g, j, x, upto) - signed_sum(g, j, y, upto),
    decreases upto,
{
    if upto > 0 {
        lemma_sum_difference(g, i, x, j, y, (upto - 1) as nat);
    }
}

/// Where the set `x` alone has a term, the sum is that term.
proof fn lemma_sum_single(g: GraphView, x: nat, upto: nat)
    requires
        forall|t: nat| t < upto && t != x ==> #[trigger] term(g, 0, x, t) == 0,
    ensures
        signed_sum(g, 0, x, upto) == if x < upto {
            term(g, 0, x, x)
        } else {
            0
        },
    decreases upto,
{
    if upto > 0 {
        lemma_sum_single(g, x, (upto - 1) as nat);
    }
}

/// A set holds no clause beyond itself.
proof fn lemma_no_extra(x: nat, k: nat)
    ensures
        !odd_extra(x, x, k),
    decreases k,
{
    if k > 0 {
        lemma_no_extra(x, (k - 1) as nat);
    }
}

/// Where clause `i` joins the set `x` and the set `t` holds it, `t` goes
/// beyond `x` by one clause less.
proof fn lemma_extra_join(t: nat, x: nat, i: nat, k: nat)
    requires
        !bit_of(x, i),
        bit_of(t, i),
    ensures
        odd_extra(t, x + pow2(i), k) == (odd_extra(t, x, k) != (i < k)),
    decreases k,
{
    if k > 0 {
        lemma_extra_join(t, x, i, (k - 1) as nat);
        lemma_join(x, i, (k - 1) as nat);
    }
}

/// With clause `i` in the set `x`, a set that holds all of `x` agrees with
/// it on clause `i`.
proof fn lemma_term_member(g: GraphView, i: nat, x: nat, t: nat)
    requires
        i < g.gamma.len(),
        bit_of(x, i),
    ensures
        term(g, i + 1, x, t) == term(g, i, x, t),
{
    let n = g.gamma.len();
    if superset(t, x, n) && agree_from(t, x, i + 1, n) {
        assert(bit_of(t, i));
        assert forall|k: nat| i <= k < n implies #[trigger] bit_of(t, k) == bit_of(x, k) by {
            if k > i {
                assert(bit_of(t, k) == bit_of(x, k));
            }
        }
    }
    if superset(t, x, n) && agree_from(t, x, i, n) {
        assert forall|k: nat| i + 1 <= k < n implies #[trigger] bit_of(t, k) == bit_of(x, k) by {
            assert(bit_of(t, k) == bit_of(x, k));
        }
    }
}

/// Without clause `i` in the set `x`: the sets that go beyond `x` among the
/// first `i + 1` clauses are those that do so among the first `i`, and those
/// that hold clause `i` and go beyond `x` with it among the first `i`; the
/// latter with the other sign.
proof fn lemma_term_split(g: GraphView, i: nat, x: nat, t: nat)
    requires
        i < g.gamma.len(),
        !bit_of(x, i),
    ensures
        term(g, i + 1, x, t) == term(g, i, x, t) - term(g, i, x + pow2(i), t),
{
    let n = g.gamma.len();
    let y = x + pow2(i);
    assert forall|k: nat| bit_of(y, k) == (bit_of(x, k) || k == i) by {
        lemma_join(x, i, k);
    }
    let over_x = superset(t, x, n) && agree_from(t, x, i + 1, n);
    if superset(t, x, n) && agree_from(t, x, i, n) {
        assert(bit_of(t, i) == bit_of(x, i));
        assert forall|k: nat| i + 1 <= k < n implies #[trigger] bit_of(t, k) == bit_of(x, k) by {
            assert(bit_of(t, k) == bit_of(x, k));
        }
        assert(over_x);
    }
    if superset(t, y, n) && agree_from(t, y, i, n) {
        assert(bit_of(t, i) == bit_of(y, i));
        assert forall|k: nat| k < n && bit_of(x, k) implies #[trigger] bit_of(t, k) by {
            assert(bit_of(y, k));
        }
        assert forall|k: nat| i + 1 <= k < n implies #[trigger] bit_of(t, k) == bit_of(x, k) by {
            assert(bit_of(t, k) == bit_of(y, k));
        }
        assert(over_x);
    }
    if over_x {
        if bit_of(t, i) {
            assert(!agree_from(t, x, i, n)) by {
                if agree_from(t, x, i, n) {
                    assert(bit_of(t, i) == bit_of(x, i));
                }
            }
            assert forall|k: nat| k < n && bit_of(y, k) implies #[trigger] bit_of(t, k) by {
                if k != i {
                    assert(bit_of(x, k));
                }
            }
            assert forall|k: nat| i <= k < n implies #[trigger] bit_of(t, k) == bit_of(y, k) by {
                if k > i {
                    assert(bit_of(t, k) == bit_of(x, k));
                }
            }
            lemma_extra_join(t, x, i, n);
        } else {
            assert(!superset(t, y, n)) by {
                if superset(t, y, n) {
                    assert(bit_of(y, i));
                    assert(bit_of(t, i));
                }
            }
            assert forall|k: nat| i <= k < n implies #[trigger] bit_of(t, k) == bit_of(x, k) by {
                if k > i {
                    assert(bit_of(t, k) == bit_of(x, k));
                }
            }
        }
    }
}

/// The transformed value at a set is the signed sum over the sets that hold
/// it: the product of each such set, taken with a minus where the set goes
/// beyond it by an odd number of clauses. After the transform over the first
/// `i` clauses, the sum is over the sets that go beyond it among those.
pub proof fn lemma_transformed_is_signed_sum(g: GraphView, i: nat, x: nat)
    requires
        i <= g.gamma.len(),
        x < pow2(g.gamma.len()),
    ensures
        transformed(g, i, x) == signed_sum(g, i, x, pow2(g.gamma.len())),
    decreases i,
{
    let n = g.gamma.len();
    let size = pow2(n);
    if i == 0 {
        assert forall|t: nat| t < size && t != x implies #[trigger] term(g, 0, x, t) == 0 by {
            if agree_from(t, x, 0, n) {
                assert forall|k: nat| k < n implies bit_of(t, k) == bit_of(x, k) by {
                    assert(bit_of(t, k) == bit_of(x, k));
                }
                crate::masks::lemma_same_bits(t, x, n);
            }
        }
        lemma_sum_single(g, x, size);
        lemma_no_extra(x, n);
        assert(superset(x, x, n));
        assert(agree_from(x, x, 0, n));
    } else {
        let j = (i - 1) as nat;
        lemma_transformed_is_signed_sum(g, j, x);
        if bit_of(x, j) {
            assert forall|t: nat| t < size implies #[trigger] term(g, i, x, t) == term(g, j, x, t) by {
                lemma_term_member(g, j, x, t);
            }
            lemma_sum_same(g, i, x, j, size);
        } else {
            let y = x + pow2(j);
            lemma_join_below(x, j, n);
            lemma_transformed_is_signed_sum(g, j, y);
            assert forall|t: nat| t < size implies #[trigger] term(g, i, x, t) == term(g, j, x, t) - term(
                g,
                j,
                y,
                t,
            ) by {
                lemma_term_split(g, j, x, t);
            }
            lemma_sum_difference(g, i, x, j, y, size);
        }
    }
}

} // verus!
