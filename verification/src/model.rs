//! The mathematics of a trial: what a round does to the assignment and to
//! the record of violated clauses.

use crate::dep::depends;
use crate::ordered::lists_in_order;
use crate::sat::{clause_vars, clause_violated, mentions, Formula};
use vstd::prelude::*;

verus! {

/// Which clauses a simulator resamples in one round.
pub enum Policy {
    /// The violated clause with the smallest id.
    OneClause,
    /// All violated clauses at once.
    AllViolated,
}

/// What a trial has reached: the assignment, the clauses recorded as
/// violated, and the number of rounds made.
pub struct Trial {
    /// Entry `v - 1` is the value of variable `v`.
    pub assignment: Seq<bool>,
    /// The ids of the clauses recorded as violated.
    pub violated: Set<usize>,
    /// The number of rounds made so far.
    pub steps: nat,
}

/// The smallest member of a set that has one.
pub open spec fn least(s: Set<usize>) -> usize {
    choose|c: usize| s.contains(c) && forall|y: usize| s.contains(y) ==> c <= y
}

/// The members of a finite set, in increasing order.
pub open spec fn listing(s: Set<usize>) -> Seq<usize> {
    choose|q: Seq<usize>| lists_in_order(q, s)
}

/// The variables that the clauses in `ids` mention.
pub open spec fn variables_of(f: Formula, ids: Set<usize>) -> Set<usize> {
    Set::new(
        |v: usize| exists|c: usize| #[trigger] ids.contains(c) && c < f.clauses.len() && mentions(f.clauses[c as int], v as nat),
    )
}

/// The clauses that one round resamples, in the order in which they are
/// reported. `violated` is not empty.
pub open spec fn round_targets(policy: Policy, violated: Set<usize>) -> Seq<usize> {
    match policy {
        Policy::OneClause => seq![least(violated)],
        Policy::AllViolated => listing(violated),
    }
}

/// The variables that one round draws a fresh bit for, in the order of the
/// draws: the variables of the one clause, literal by literal, or all
/// variables of the violated clauses in increasing order.
pub open spec fn round_variables(f: Formula, policy: Policy, violated: Set<usize>) -> Seq<usize> {
    match policy {
        Policy::OneClause => clause_vars(f.clauses[least(violated) as int]),
        Policy::AllViolated => listing(variables_of(f, violated)),
    }
}

/// Clause `c` together with the later clauses that depend on it.
pub open spec fn gamma_plus(f: Formula, c: int) -> Set<usize> {
    Set::new(|d: usize| d == c || depends(f, c, d as int))
}

/// The clauses that are examined again after the clauses in `targets` were
/// resampled.
pub open spec fn recheck_scope(f: Formula, targets: Set<usize>) -> Set<usize> {
    Set::new(|d: usize| exists|c: usize| #[trigger] targets.contains(c) && gamma_plus(f, c as int).contains(d))
}

/// The assignment after the variables `vars` took the values `bits`, one
/// after the other.
pub open spec fn resample(a: Seq<bool>, vars: Seq<usize>, bits: Seq<bool>) -> Seq<bool>
    decreases vars.len(),
{
    if vars.len() == 0 {
        a
    } else {
        resample(a, vars.drop_last(), bits).update(vars.last() - 1, bits[vars.len() - 1])
    }
}

/// The record of violated clauses after the clauses in `scope` were examined
/// under `a`: those of them that are violated enter it, the others leave it.
pub open spec fn recheck(f: Formula, a: Seq<bool>, violated: Set<usize>, scope: Set<usize>) -> Set<usize> {
    Set::new(
        |d: usize|
            if scope.contains(d) {
                d < f.clauses.len() && clause_violated(f.clauses[d as int], a)
            } else {
                violated.contains(d)
            },
    )
}

/// The clauses that are violated under `a`.
pub open spec fn violated_set(f: Formula, a: Seq<bool>) -> Set<usize> {
    Set::new(|d: usize| d < f.clauses.len() && clause_violated(f.clauses[d as int], a))
}

/// The trial of a simulator that was just made: every variable false, nothing
/// recorded as violated.
pub open spec fn fresh_trial(f: Formula) -> Trial {
    Trial { assignment: Seq::new(f.variables, |i: int| false), violated: Set::empty(), steps: 0 }
}

/// The trial after initialisation with `bits`: the assignment is `bits`, and
/// the clauses violated under it are added to the record.
pub open spec fn started(f: Formula, t: Trial, bits: Seq<bool>) -> Trial {
    Trial { assignment: bits, violated: t.violated.union(violated_set(f, bits)), steps: t.steps }
}

/// The trial after one round that drew `bits`.
#[verifier::opaque]
pub open spec fn stepped(f: Formula, policy: Policy, t: Trial, bits: Seq<bool>) -> Trial {
    let a = resample(t.assignment, round_variables(f, policy, t.violated), bits);
    Trial {
        assignment: a,
        violated: recheck(f, a, t.violated, recheck_scope(f, round_targets(policy, t.violated).to_set())),
        steps: t.steps + 1,
    }
}

/// The trial after a restart: the assignment stays, the record is emptied.
pub open spec fn restarted(t: Trial) -> Trial {
    Trial { assignment: t.assignment, violated: Set::empty(), steps: 0 }
}

/// How far a trial got.
pub enum Progress {
    /// The bits ran out in the middle of a round.
    Exhausted,
    /// The trial that was reached, and the number of bits used on the way.
    At(Trial, nat),
}

/// Up to `k` rounds from trial `t`, drawing from `bits`. A trial without
/// violated clauses stays as it is.
#[verifier::opaque]
pub open spec fn advance(f: Formula, policy: Policy, t: Trial, bits: Seq<bool>, k: nat) -> Progress
    decreases k,
{
    if k == 0 {
        Progress::At(t, 0)
    } else {
        match advance(f, policy, t, bits, (k - 1) as nat) {
            Progress::Exhausted => Progress::Exhausted,
            Progress::At(s, used) => {
                let need = round_variables(f, policy, s.violated).len();
                if s.violated.is_empty() {
                    Progress::At(s, used)
                } else if used + need > bits.len() {
                    Progress::Exhausted
                } else {
                    Progress::At(stepped(f, policy, s, bits.subrange(used as int, (used + need) as int)), used + need)
                }
            },
        }
    }
}

/// Every violated clause is on record.
pub open spec fn covers(f: Formula, t: Trial) -> bool {
    forall|d: usize| d < f.clauses.len() && clause_violated(f.clauses[d as int], t.assignment) ==> t.violated.contains(d)
}

/// The least member of a set is a member and below all others.
pub proof fn lemma_least(s: Set<usize>, c: usize)
    requires
        s.contains(c),
        forall|y: usize| s.contains(y) ==> c <= y,
    ensures
        least(s) == c,
{
    let l = least(s);
    assert(s.contains(l) && forall|y: usize| s.contains(y) ==> l <= y);
}

/// A listing in increasing order is the listing.
pub proof fn lemma_listing(s: Set<usize>, q: Seq<usize>)
    requires
        lists_in_order(q, s),
    ensures
        listing(s) == q,
{
    crate::ordered::lemma_listing_unique(listing(s), q, s);
}

/// Examining two scopes one after the other is examining their union.
pub proof fn lemma_recheck_twice(f: Formula, a: Seq<bool>, v: Set<usize>, s1: Set<usize>, s2: Set<usize>)
    ensures
        recheck(f, a, recheck(f, a, v, s1), s2) =~= recheck(f, a, v, s1.union(s2)),
{
}

/// A simulator that is terminal and has every violated clause on record has
/// an assignment under which no clause is violated.
pub proof fn lemma_terminal_satisfies(f: Formula, t: Trial)
    requires
        f.wf(),
        covers(f, t),
        t.violated.is_empty(),
    ensures
        forall|d: int| 0 <= d < f.clauses.len() ==> !clause_violated(#[trigger] f.clauses[d], t.assignment),
{
    assert forall|d: int| 0 <= d < f.clauses.len() implies !clause_violated(
        #[trigger] f.clauses[d],
        t.assignment,
    ) by {
        if clause_violated(f.clauses[d], t.assignment) {
            assert(t.violated.contains(d as usize));
        }
    }
}

/// Initialisation puts every violated clause on record.
pub proof fn lemma_started_covers(f: Formula, t: Trial, bits: Seq<bool>)
    ensures
        covers(f, started(f, t, bits)),
        t.violated.is_empty() ==> started(f, t, bits).violated =~= violated_set(f, bits),
{
}

/// No round leaves the trial where it is.
pub proof fn lemma_advance_none(f: Formula, policy: Policy, t: Trial, bits: Seq<bool>)
    ensures
        advance(f, policy, t, bits, 0) == Progress::At(t, 0),
{
    reveal(advance);
}

/// What one more round does to what the rounds before have reached.
pub open spec fn one_more(f: Formula, policy: Policy, bits: Seq<bool>, before: Progress) -> Progress {
    match before {
        Progress::Exhausted => Progress::Exhausted,
        Progress::At(s, used) => {
            let need = round_variables(f, policy, s.violated).len();
            if s.violated.is_empty() {
                Progress::At(s, used)
            } else if used + need > bits.len() {
                Progress::Exhausted
            } else {
                Progress::At(stepped(f, policy, s, bits.subrange(used as int, (used + need) as int)), used + need)
            }
        },
    }
}

/// A round adds one to the count of rounds.
pub proof fn lemma_stepped_counts(f: Formula, policy: Policy, t: Trial, bits: Seq<bool>)
    ensures
        stepped(f, policy, t, bits).steps == t.steps + 1,
{
    reveal(stepped);
}

/// A round keeps an empty clause on record.
pub proof fn lemma_stepped_keeps_empty(f: Formula, policy: Policy, t: Trial, bits: Seq<bool>, e: usize)
    requires
        e < f.clauses.len(),
        f.clauses[e as int].len() == 0,
        t.violated.contains(e),
    ensures
        stepped(f, policy, t, bits).violated.contains(e),
{
    reveal(stepped);
}

/// `k + 1` rounds are `k` rounds and one more.
pub proof fn lemma_advance_next(f: Formula, policy: Policy, t: Trial, bits: Seq<bool>, k: nat)
    ensures
        advance(f, policy, t, bits, k + 1) == one_more(f, policy, bits, advance(f, policy, t, bits, k)),
{
    reveal(advance);
    assert(((k + 1) - 1) as nat == k);
}

/// One more round reads no bit beyond those that it uses.
pub proof fn lemma_one_more_bits(f: Formula, policy: Policy, bits: Seq<bool>, more: Seq<bool>, before: Progress)
    requires
        one_more(f, policy, bits, before) is At,
        before is At ==> before->At_1 <= bits.len(),
    ensures
        one_more(f, policy, bits + more, before) == one_more(f, policy, bits, before),
        one_more(f, policy, bits, before)->At_1 <= bits.len(),
{
    let s = before->At_0;
    let used = before->At_1;
    let need = round_variables(f, policy, s.violated).len();
    if !s.violated.is_empty() {
        let longer = bits + more;
        assert(longer.len() == bits.len() + more.len());
        assert(used + need <= bits.len());
        assert(longer.subrange(used as int, (used + need) as int) =~= bits.subrange(
            used as int,
            (used + need) as int,
        ));
    }
}

/// Bits beyond those that were used change nothing.
pub proof fn lemma_advance_more_bits(
    f: Formula,
    policy: Policy,
    t: Trial,
    bits: Seq<bool>,
    more: Seq<bool>,
    k: nat,
)
    requires
        advance(f, policy, t, bits, k) is At,
    ensures
        advance(f, policy, t, bits + more, k) == advance(f, policy, t, bits, k),
        advance(f, policy, t, bits, k)->At_1 <= bits.len(),
    decreases k,
{
    if k == 0 {
        lemma_advance_none(f, policy, t, bits);
        lemma_advance_none(f, policy, t, bits + more);
    } else {
        let j = (k - 1) as nat;
        lemma_advance_next(f, policy, t, bits, j);
        lemma_advance_next(f, policy, t, bits + more, j);
        let before = advance(f, policy, t, bits, j);
        assert(before is At);
        lemma_advance_more_bits(f, policy, t, bits, more, j);
        lemma_one_more_bits(f, policy, bits, more, before);
    }
}

/// One more round on freshly drawn bits.
pub proof fn lemma_advance_round(
    f: Formula,
    policy: Policy,
    t: Trial,
    bits: Seq<bool>,
    k: nat,
    now: Trial,
    drawn: Seq<bool>,
)
    requires
        advance(f, policy, t, bits, k) == Progress::At(now, bits.len()),
        !now.violated.is_empty(),
        drawn.len() == round_variables(f, policy, now.violated).len(),
    ensures
        advance(f, policy, t, bits + drawn, k + 1) == Progress::At(
            stepped(f, policy, now, drawn),
            bits.len() + drawn.len(),
        ),
{
    lemma_advance_more_bits(f, policy, t, bits, drawn, k);
    lemma_advance_next(f, policy, t, bits + drawn, k);
    assert((bits + drawn).subrange(bits.len() as int, (bits.len() + drawn.len()) as int) =~= drawn);
}

/// A round that finds too few bits left.
pub proof fn lemma_advance_exhausted(
    f: Formula,
    policy: Policy,
    t: Trial,
    bits: Seq<bool>,
    k: nat,
    now: Trial,
    left: Seq<bool>,
)
    requires
        advance(f, policy, t, bits, k) == Progress::At(now, bits.len()),
        !now.violated.is_empty(),
        left.len() < round_variables(f, policy, now.violated).len(),
    ensures
        advance(f, policy, t, bits + left, k) == Progress::At(now, bits.len()),
        advance(f, policy, t, bits + left, k + 1) is Exhausted,
{
    lemma_advance_more_bits(f, policy, t, bits, left, k);
    lemma_advance_next(f, policy, t, bits + left, k);
}

/// A trial without violated clauses stays as it is, however many rounds are
/// asked for.
pub proof fn lemma_advance_terminal(f: Formula, policy: Policy, t: Trial, bits: Seq<bool>, k: nat, more: nat)
    requires
        advance(f, policy, t, bits, k) is At,
        advance(f, policy, t, bits, k)->At_0.violated.is_empty(),
    ensures
        advance(f, policy, t, bits, k + more) == advance(f, policy, t, bits, k),
    decreases more,
{
    if more > 0 {
        lemma_advance_terminal(f, policy, t, bits, k, (more - 1) as nat);
        lemma_advance_next(f, policy, t, bits, (k + more - 1) as nat);
    }
}

/// Resampling leaves alone every variable that is not resampled.
pub proof fn lemma_resample_elsewhere(a: Seq<bool>, vars: Seq<usize>, bits: Seq<bool>, x: int)
    requires
        forall|i: int| 0 <= i < vars.len() ==> 1 <= #[trigger] vars[i] <= a.len(),
        0 <= x < a.len(),
        forall|i: int| 0 <= i < vars.len() ==> #[trigger] vars[i] != x + 1,
    ensures
        resample(a, vars, bits).len() == a.len(),
        resample(a, vars, bits)[x] == a[x],
    decreases vars.len(),
{
    if vars.len() > 0 {
        let shorter = vars.drop_last();
        assert forall|i: int| 0 <= i < shorter.len() implies #[trigger] shorter[i] != x + 1 by {
            assert(shorter[i] == vars[i]);
        }
        assert forall|i: int| 0 <= i < shorter.len() implies 1 <= #[trigger] shorter[i] <= a.len() by {
            assert(shorter[i] == vars[i]);
        }
        lemma_resample_elsewhere(a, shorter, bits, x);
        assert(vars[vars.len() - 1] != x + 1);
    }
}

/// Where every clause that mentions a resampled variable is examined, a
/// record that held every violated clause before still does so afterwards.
pub proof fn lemma_recheck_covers(
    f: Formula,
    t: Trial,
    vars: Seq<usize>,
    bits: Seq<bool>,
    scope: Set<usize>,
)
    requires
        f.wf(),
        t.assignment.len() == f.variables,
        covers(f, t),
        forall|i: int| 0 <= i < vars.len() ==> 1 <= #[trigger] vars[i] <= f.variables,
        forall|d: usize, i: int|
            d < f.clauses.len() && 0 <= i < vars.len() && mentions(f.clauses[d as int], #[trigger] vars[i] as nat)
                ==> #[trigger] scope.contains(d),
    ensures
        covers(
            f,
            Trial {
                assignment: resample(t.assignment, vars, bits),
                violated: recheck(f, resample(t.assignment, vars, bits), t.violated, scope),
                steps: t.steps + 1,
            },
        ),
{
    let a = t.assignment;
    let b = resample(a, vars, bits);
    let after = recheck(f, b, t.violated, scope);
    assert forall|d: usize| d < f.clauses.len() && clause_violated(f.clauses[d as int], b) implies after.contains(
        d,
    ) by {
        if !scope.contains(d) {
            let c = f.clauses[d as int];
            assert forall|j: int| 0 <= j < c.len() implies !crate::sat::lit_holds(#[trigger] c[j], a) by {
                let x = crate::sat::lit_var(c[j]) - 1;
                assert(1 <= crate::sat::lit_var(c[j]) <= f.variables);
                assert forall|i: int| 0 <= i < vars.len() implies #[trigger] vars[i] != x + 1 by {
                    if vars[i] == x + 1 {
                        assert(mentions(c, vars[i] as nat));
                        assert(scope.contains(d));
                    }
                }
                lemma_resample_elsewhere(a, vars, bits, x);
                assert(!crate::sat::lit_holds(c[j], b));
            }
            assert(clause_violated(c, a));
            assert(t.violated.contains(d));
        }
    }
}

/// A round of the one-clause policy keeps every violated clause on record
/// where no earlier clause has a variable in common with the clause that is
/// resampled.
pub proof fn lemma_one_clause_round_covers(f: Formula, t: Trial, bits: Seq<bool>)
    requires
        f.wf(),
        t.assignment.len() == f.variables,
        covers(f, t),
        !t.violated.is_empty(),
        forall|c: usize| t.violated.contains(c) ==> c < f.clauses.len(),
        exists|c: usize| t.violated.contains(c) && forall|y: usize| t.violated.contains(y) ==> c <= y,
        forall|d: int| 0 <= d < least(t.violated) ==> !depends(f, d, least(t.violated) as int),
    ensures
        covers(f, stepped(f, Policy::OneClause, t, bits)),
{
    reveal(stepped);
    let c = least(t.violated);
    assert(t.violated.contains(c));
    let lits = f.clauses[c as int];
    let vars = clause_vars(lits);
    let targets = round_targets(Policy::OneClause, t.violated).to_set();
    let scope = recheck_scope(f, targets);
    assert(seq![c][0] == c);
    assert(targets.contains(c));
    assert forall|i: int| 0 <= i < vars.len() implies 1 <= #[trigger] vars[i] <= f.variables by {
        assert(1 <= crate::sat::lit_var(lits[i]) <= f.variables);
    }
    assert forall|d: usize, i: int|
        d < f.clauses.len() && 0 <= i < vars.len() && mentions(
            f.clauses[d as int],
            #[trigger] vars[i] as nat,
        ) implies #[trigger] scope.contains(d) by {
        let other = f.clauses[d as int];
        let j = choose|j: int| 0 <= j < other.len() && crate::sat::lit_var(#[trigger] other[j]) == vars[i] as nat;
        assert(1 <= crate::sat::lit_var(lits[i]) <= f.variables);
        assert(crate::sat::lit_var(other[j]) == crate::sat::lit_var(lits[i]));
        if d < c {
            assert(crate::sat::shares_variable(other, lits));
            assert(depends(f, d as int, c as int));
        } else if d > c {
            assert(crate::sat::shares_variable(lits, other));
            assert(depends(f, c as int, d as int));
            assert(gamma_plus(f, c as int).contains(d));
        } else {
            assert(gamma_plus(f, c as int).contains(d));
        }
    }
    lemma_recheck_covers(f, t, vars, bits, scope);
}

} // verus!
