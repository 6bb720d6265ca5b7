//! What is on record is violated: facts that hold of every trial that
//! starts with an initialisation.

use crate::bounded::{
    lemma_bounded_set_has_listing, lemma_distinct_bounded, lemma_has_least, lemma_increasing_distinct,
};
use crate::dep::depends;
use crate::model::{
    advance, covers, gamma_plus, least, lemma_advance_next, lemma_advance_none, lemma_resample_elsewhere, listing,
    recheck_scope, resample, round_variables, started, stepped, variables_of, Policy, Trial,
};
use crate::ordered::lists_in_order;
use crate::sat::{clause_vars, clause_violated, lit_holds, lit_var, mentions, shares_variable, Formula};
use vstd::prelude::*;

verus! {

/// The assignment gives each variable a value, and every clause on record is
/// a clause of the formula that is violated.
pub open spec fn sound(f: Formula, t: Trial) -> bool {
    &&& t.assignment.len() == f.variables
    &&& forall|d: usize|
        #[trigger] t.violated.contains(d) ==> d < f.clauses.len() && clause_violated(f.clauses[d as int], t.assignment)
}

/// After an initialisation that starts from an empty record, what is on
/// record is violated.
pub proof fn lemma_started_sound(f: Formula, t: Trial, bits: Seq<bool>)
    requires
        t.violated.is_empty(),
        bits.len() == f.variables,
    ensures
        sound(f, started(f, t, bits)),
{
}

/// Two literals of one variable are the same literal, or one is the negation
/// of the other and exactly one of them holds.
proof fn lemma_same_variable(l1: isize, l2: isize, a: Seq<bool>)
    requires
        l1 != 0,
        l2 != 0,
        lit_var(l1) == lit_var(l2),
    ensures
        l1 == l2 || lit_holds(l1, a) != lit_holds(l2, a),
{
}

/// A violated clause has as many variables as literals, and no more than the
/// formula has variables.
pub proof fn lemma_violated_clause_vars(f: Formula, a: Seq<bool>, c: int)
    requires
        f.wf(),
        0 <= c < f.clauses.len(),
        clause_violated(f.clauses[c], a),
    ensures
        clause_vars(f.clauses[c]).no_duplicates(),
        forall|i: int| 0 <= i < f.clauses[c].len() ==> 1 <= #[trigger] clause_vars(f.clauses[c])[i] <= f.variables,
        clause_vars(f.clauses[c]).len() <= f.variables,
{
    let lits = f.clauses[c];
    let vars = clause_vars(lits);
    assert forall|i: int| 0 <= i < lits.len() implies 1 <= #[trigger] vars[i] <= f.variables by {
        assert(1 <= lit_var(lits[i]) <= f.variables);
    }
    assert forall|i: int, j: int| 0 <= i < vars.len() && 0 <= j < vars.len() && i != j implies vars[i] != vars[j] by {
        assert(1 <= lit_var(lits[i]) <= f.variables);
        assert(1 <= lit_var(lits[j]) <= f.variables);
        if vars[i] == vars[j] {
            assert(lits[i] != 0 && lits[j] != 0);
            lemma_same_variable(lits[i], lits[j], a);
            assert(!lit_holds(lits[i], a) && !lit_holds(lits[j], a));
            assert(lits[i] != lits[j]);
        }
    }
    lemma_distinct_bounded(vars, f.variables);
}

/// A record that is not empty has a member.
proof fn lemma_member(v: Set<usize>) -> (x: usize)
    requires
        !v.is_empty(),
    ensures
        v.contains(x),
{
    if forall|x: usize| !v.contains(x) {
        assert(v =~= Set::<usize>::empty());
    }
    choose|x: usize| v.contains(x)
}

/// The least clause on record is on record and below all others there.
pub proof fn lemma_least_on_record(v: Set<usize>)
    requires
        !v.is_empty(),
    ensures
        v.contains(least(v)),
        forall|y: usize| v.contains(y) ==> least(v) <= y,
{
    let x = lemma_member(v);
    let c = lemma_has_least(v, x);
    assert(v.contains(c) && forall|y: usize| v.contains(y) ==> c <= y);
}

/// The variables of clauses of the formula are variables of the formula.
proof fn lemma_variables_of_bounded(f: Formula, v: Set<usize>)
    requires
        f.wf(),
    ensures
        forall|w: usize| variables_of(f, v).contains(w) ==> 1 <= w <= f.variables,
{
    let vs = variables_of(f, v);
    assert forall|w: usize| vs.contains(w) implies 1 <= w <= f.variables by {
        let c = choose|c: usize|
            #[trigger] v.contains(c) && c < f.clauses.len() && mentions(f.clauses[c as int], w as nat);
        let lits = f.clauses[c as int];
        let i = choose|i: int| 0 <= i < lits.len() && lit_var(#[trigger] lits[i]) == w as nat;
        assert(1 <= lit_var(lits[i]) <= f.variables);
    }
}

/// The clauses on record and their variables can be listed in increasing
/// order, and there are no more such variables than the formula has.
pub proof fn lemma_listings(f: Formula, v: Set<usize>)
    requires
        f.wf(),
        forall|d: usize| v.contains(d) ==> d < f.clauses.len(),
    ensures
        lists_in_order(listing(v), v),
        lists_in_order(listing(variables_of(f, v)), variables_of(f, v)),
        listing(variables_of(f, v)).len() <= f.variables,
        forall|i: int|
            0 <= i < listing(variables_of(f, v)).len() ==> 1 <= #[trigger] listing(variables_of(f, v))[i]
                <= f.variables,
{
    let clauses = lemma_bounded_set_has_listing(v, f.clauses.len());
    let vs = variables_of(f, v);
    lemma_variables_of_bounded(f, v);
    let variables = lemma_bounded_set_has_listing(vs, f.variables + 1);
    let q = listing(vs);
    assert(lists_in_order(q, vs));
    lemma_increasing_distinct(q);
    assert forall|i: int| 0 <= i < q.len() implies 1 <= #[trigger] q[i] <= f.variables by {
        assert(q.contains(q[i]));
    }
    lemma_distinct_bounded(q, f.variables);
}

/// The variables of the clauses on record, listed in increasing order, are
/// variables of the formula, and no more than it has.
proof fn lemma_all_violated_fits(f: Formula, v: Set<usize>)
    requires
        f.wf(),
        forall|d: usize| v.contains(d) ==> d < f.clauses.len(),
    ensures
        listing(variables_of(f, v)).len() <= f.variables,
        forall|i: int|
            0 <= i < listing(variables_of(f, v)).len() ==> 1 <= #[trigger] listing(variables_of(f, v))[i]
                <= f.variables,
{
    lemma_listings(f, v);
}

/// What a round of the one-clause policy resamples, where what is on record
/// is violated: as many variables as the clause has literals.
proof fn lemma_one_clause_fits(f: Formula, t: Trial)
    requires
        f.wf(),
        sound(f, t),
        !t.violated.is_empty(),
    ensures
        clause_vars(f.clauses[least(t.violated) as int]).len() <= f.variables,
        forall|i: int|
            0 <= i < f.clauses[least(t.violated) as int].len() ==> 1 <= #[trigger] clause_vars(
                f.clauses[least(t.violated) as int],
            )[i] <= f.variables,
{
    lemma_least_on_record(t.violated);
    let c = least(t.violated);
    assert(t.violated.contains(c));
    lemma_violated_clause_vars(f, t.assignment, c as int);
}

/// What a round resamples, where what is on record is violated: no more
/// variables than the formula has, and each of them one of its variables.
pub proof fn lemma_round_fits(f: Formula, policy: Policy, t: Trial)
    requires
        f.wf(),
        sound(f, t),
        !t.violated.is_empty(),
    ensures
        round_variables(f, policy, t.violated).len() <= f.variables,
        forall|i: int|
            0 <= i < round_variables(f, policy, t.violated).len() ==> 1 <= #[trigger] round_variables(
                f,
                policy,
                t.violated,
            )[i] <= f.variables,
{
    match policy {
        Policy::OneClause => {
            lemma_one_clause_fits(f, t);
        },
        Policy::AllViolated => {
            lemma_all_violated_fits(f, t.violated);
        },
    }
}

/// A clause that has no variable in common with the clause that is resampled
/// is violated afterwards if it was violated before.
proof fn lemma_unshared_stays_violated(f: Formula, a: Seq<bool>, c: int, d: int, bits: Seq<bool>)
    requires
        f.wf(),
        a.len() == f.variables,
        0 <= c < f.clauses.len(),
        0 <= d < f.clauses.len(),
        !shares_variable(f.clauses[c], f.clauses[d]),
        clause_violated(f.clauses[d], a),
    ensures
        clause_violated(f.clauses[d], resample(a, clause_vars(f.clauses[c]), bits)),
{
    let mine = f.clauses[c];
    let other = f.clauses[d];
    let vars = clause_vars(mine);
    let b = resample(a, vars, bits);
    assert forall|i: int| 0 <= i < vars.len() implies 1 <= #[trigger] vars[i] <= a.len() by {
        assert(1 <= lit_var(mine[i]) <= f.variables);
    }
    assert forall|j: int| 0 <= j < other.len() implies !lit_holds(#[trigger] other[j], b) by {
        let x = lit_var(other[j]) - 1;
        assert(1 <= lit_var(other[j]) <= f.variables);
        assert forall|i: int| 0 <= i < vars.len() implies #[trigger] vars[i] != x + 1 by {
            assert(1 <= lit_var(mine[i]) <= f.variables);
            if vars[i] == x + 1 {
                assert(lit_var(mine[i]) == lit_var(other[j]));
                assert(shares_variable(mine, other));
            }
        }
        lemma_resample_elsewhere(a, vars, bits, x);
        assert(!lit_holds(other[j], a));
    }
}

/// A round of the one-clause policy keeps on record only what is violated.
proof fn lemma_one_clause_sound(f: Formula, t: Trial, bits: Seq<bool>)
    requires
        f.wf(),
        sound(f, t),
        !t.violated.is_empty(),
    ensures
        sound(f, stepped(f, Policy::OneClause, t, bits)),
{
    reveal(stepped);
    lemma_round_fits(f, Policy::OneClause, t);
    lemma_least_on_record(t.violated);
    let v = t.violated;
    let a = t.assignment;
    let c = least(v);
    let vars = clause_vars(f.clauses[c as int]);
    let b = resample(a, vars, bits);
    let targets = seq![c].to_set();
    let scope = recheck_scope(f, targets);
    let next = stepped(f, Policy::OneClause, t, bits);
    crate::moser_tardos_algorithm::lemma_resample_len(a, vars, bits);
    assert(seq![c][0] == c);
    assert(targets.contains(c));
    assert forall|d: usize| #[trigger] next.violated.contains(d) implies d < f.clauses.len() && clause_violated(
        f.clauses[d as int],
        b,
    ) by {
        if !scope.contains(d) {
            assert(v.contains(d));
            assert(!gamma_plus(f, c as int).contains(d));
            assert(!depends(f, c as int, d as int));
            lemma_unshared_stays_violated(f, a, c as int, d as int, bits);
        }
    }
}

/// A round of the batched policy keeps on record only what is violated.
proof fn lemma_all_violated_sound(f: Formula, t: Trial, bits: Seq<bool>)
    requires
        f.wf(),
        sound(f, t),
        !t.violated.is_empty(),
    ensures
        sound(f, stepped(f, Policy::AllViolated, t, bits)),
{
    reveal(stepped);
    lemma_round_fits(f, Policy::AllViolated, t);
    lemma_listings(f, t.violated);
    let v = t.violated;
    let a = t.assignment;
    let vars = listing(variables_of(f, v));
    let b = resample(a, vars, bits);
    let q = listing(v);
    let targets = q.to_set();
    let scope = recheck_scope(f, targets);
    let next = stepped(f, Policy::AllViolated, t, bits);
    crate::moser_tardos_algorithm::lemma_resample_len(a, vars, bits);
    assert forall|d: usize| #[trigger] next.violated.contains(d) implies d < f.clauses.len() && clause_violated(
        f.clauses[d as int],
        b,
    ) by {
        if !scope.contains(d) {
            assert(v.contains(d));
            assert(q.contains(d));
            assert(targets.contains(d));
            assert(gamma_plus(f, d as int).contains(d));
        }
    }
}

/// A round keeps on record only what is violated.
pub proof fn lemma_stepped_sound(f: Formula, policy: Policy, t: Trial, bits: Seq<bool>)
    requires
        f.wf(),
        sound(f, t),
        !t.violated.is_empty(),
    ensures
        sound(f, stepped(f, policy, t, bits)),
{
    match policy {
        Policy::OneClause => {
            lemma_one_clause_sound(f, t, bits);
        },
        Policy::AllViolated => {
            lemma_all_violated_sound(f, t, bits);
        },
    }
}

/// From a trial whose record holds only what is violated, `k` rounds never
/// need more than one bit for each variable and round.
pub proof fn lemma_advance_stays_within(f: Formula, policy: Policy, t: Trial, bits: Seq<bool>, k: nat)
    requires
        f.wf(),
        sound(f, t),
        f.variables * k <= bits.len(),
    ensures
        advance(f, policy, t, bits, k) is At,
        sound(f, advance(f, policy, t, bits, k)->At_0),
        advance(f, policy, t, bits, k)->At_1 <= f.variables * k,
    decreases k,
{
    if k == 0 {
        lemma_advance_none(f, policy, t, bits);
    } else {
        let j = (k - 1) as nat;
        assert(f.variables * j + f.variables == f.variables * k) by (nonlinear_arith)
            requires
                j + 1 == k,
        ;
        lemma_advance_stays_within(f, policy, t, bits, j);
        lemma_advance_next(f, policy, t, bits, j);
        let s = advance(f, policy, t, bits, j)->At_0;
        let used = advance(f, policy, t, bits, j)->At_1;
        if !s.violated.is_empty() {
            lemma_round_fits(f, policy, s);
            let need = round_variables(f, policy, s.violated).len();
            lemma_stepped_sound(f, policy, s, bits.subrange(used as int, (used + need) as int));
        }
    }
}

/// A round of the batched policy keeps every violated clause on record
/// where each clause that has a variable in common with a later clause on
/// record is on record itself.
pub proof fn lemma_all_violated_round_covers(f: Formula, t: Trial, bits: Seq<bool>)
    requires
        f.wf(),
        t.assignment.len() == f.variables,
        covers(f, t),
        forall|c: usize| t.violated.contains(c) ==> c < f.clauses.len(),
        forall|d: int, c: usize|
            #![trigger depends(f, d, c as int), t.violated.contains(c)]
            t.violated.contains(c) && depends(f, d, c as int) ==> t.violated.contains(d as usize),
    ensures
        covers(f, stepped(f, Policy::AllViolated, t, bits)),
{
    reveal(stepped);
    let v = t.violated;
    let vs = variables_of(f, v);
    lemma_listings(f, v);
    let vars = listing(vs);
    let q = listing(v);
    let scope = recheck_scope(f, q.to_set());
    assert forall|d: usize, i: int|
        d < f.clauses.len() && 0 <= i < vars.len() && mentions(
            f.clauses[d as int],
            #[trigger] vars[i] as nat,
        ) implies #[trigger] scope.contains(d) by {
        assert(vars.contains(vars[i]));
        assert(vs.contains(vars[i]));
        let c = choose|c: usize|
            #[trigger] v.contains(c) && c < f.clauses.len() && mentions(f.clauses[c as int], vars[i] as nat);
        let mine = f.clauses[c as int];
        let other = f.clauses[d as int];
        let a = choose|a: int| 0 <= a < mine.len() && lit_var(#[trigger] mine[a]) == vars[i] as nat;
        let b = choose|b: int| 0 <= b < other.len() && lit_var(#[trigger] other[b]) == vars[i] as nat;
        assert(lit_var(mine[a]) == lit_var(other[b]));
        assert(q.contains(c));
        if d < c {
            assert(shares_variable(other, mine));
            assert(depends(f, d as int, c as int));
            assert(v.contains(d));
            assert(q.contains(d));
            assert(q.to_set().contains(d) && gamma_plus(f, d as int).contains(d));
        } else if d > c {
            assert(shares_variable(mine, other));
            assert(depends(f, c as int, d as int));
            assert(q.to_set().contains(c) && gamma_plus(f, c as int).contains(d));
        } else {
            assert(q.to_set().contains(c) && gamma_plus(f, c as int).contains(d));
        }
    }
    crate::model::lemma_recheck_covers(f, t, vars, bits, scope);
}

} // verus!
