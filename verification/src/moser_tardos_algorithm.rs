//! The resampling simulators: one round at a time, for the policy that
//! resamples one violated clause and for the policy that resamples all.

use crate::dep::{among, is_graph_of, DependencyGraph, GraphView};
use crate::model::{
    advance, fresh_trial, gamma_plus, lemma_advance_exhausted, lemma_advance_none, lemma_advance_round, lemma_least, lemma_listing,
    lemma_recheck_twice, lemma_stepped_counts, recheck, recheck_scope, resample, restarted, round_targets,
    round_variables, started, stepped, variables_of, violated_set, Policy, Progress, Trial,
};
use crate::ordered::{smallest, sorted_elements};
use crate::random_space::{
    can_supply, drew, fresh_bits, lemma_drew_chain, lemma_ran_dry_chain, ran_dry, RandomSpace,
};
use crate::sat::{clause_vars, lit_var, mentions, Formula, SAT};
use crate::utility::new_vector;
use std::collections::BTreeSet;
use vstd::prelude::*;

pub use crate::harness::{
    bench_algorithm, bench_algorithm_within, enum_algorithm, run_algorithm, BenchResult, EnumResult,
};

verus! {

/// What one round of a simulator came to.
#[derive(Debug)]
pub enum ExecuteResult<ResamplingType> {
    /// The source of bits ran out in the middle of the round.
    RandomSpaceExceed,
    /// No clause was recorded as violated; `step` rounds were made before.
    Terminal { step: usize },
    /// A round was made, and this is what it resampled.
    Running { resampled_clause: ResamplingType },
}

impl<ResamplingType> ExecuteResult<ResamplingType> {
    /// The count of rounds that a `Terminal` result carries.
    pub open spec fn terminal_step(self) -> Option<nat> {
        match self {
            ExecuteResult::Terminal { step } => Some(step as nat),
            _ => None,
        }
    }

    /// What a `Running` result reports as resampled.
    pub open spec fn resampled(self) -> Option<ResamplingType> {
        match self {
            ExecuteResult::Running { resampled_clause } => Some(resampled_clause),
            _ => None,
        }
    }
}

/// What a round must come to, given the simulator before and after it.
/// Where no clause is on record, the round is `Terminal` with the count of
/// rounds, and nothing changes. Else, where the source has fewer bits left
/// than the round has variables to resample, the round is
/// `RandomSpaceExceed`: the trial stays as it was, and the source has run dry.
/// Else the round is `Running`: it reports the clauses that the policy picks,
/// draws one bit for each of their variables, and leaves the trial that
/// [`stepped`] describes.
#[verifier::opaque]
pub open spec fn round_outcome<R: RandomSpace>(
    f: Formula,
    policy: Policy,
    before: Trial,
    source_before: R,
    after: Trial,
    source_after: R,
    terminal: Option<nat>,
    exceeded: bool,
    reported: Option<Seq<usize>>,
) -> bool {
    let need = round_variables(f, policy, before.violated).len();
    if before.violated.is_empty() {
        &&& terminal == Some(before.steps)
        &&& after == before
        &&& source_after == source_before
    } else if !can_supply(source_before.remaining(), need) {
        &&& exceeded
        &&& after == before
        &&& ran_dry(source_before, source_after, need)
    } else {
        &&& reported == Some(round_targets(policy, before.violated))
        &&& fresh_bits(source_before, source_after).len() == need
        &&& drew(source_before, source_after, fresh_bits(source_before, source_after))
        &&& after == stepped(f, policy, before, fresh_bits(source_before, source_after))
    }
}

/// What a run of rounds must come to, given the simulator before and after
/// it: the trial reached is what the rounds made from the bits drawn, and the
/// run ended because no clause was recorded as violated, because the bits ran
/// out in the next round, or because the count of rounds was at its limit.
pub open spec fn run_outcome<R: RandomSpace>(
    f: Formula,
    policy: Policy,
    before: Trial,
    source_before: R,
    after: Trial,
    source_after: R,
    terminal: Option<nat>,
    exceeded: bool,
) -> bool {
    let fresh = fresh_bits(source_before, source_after);
    let k = (after.steps - before.steps) as nat;
    &&& after.steps >= before.steps
    &&& source_after.continues(&source_before)
    &&& source_after.drawn() == source_before.drawn() + fresh
    &&& advance(f, policy, before, fresh, k) is At
    &&& advance(f, policy, before, fresh, k)->At_0 == after
    &&& if exceeded {
        &&& terminal is None
        &&& advance(f, policy, before, fresh, k + 1) is Exhausted
        &&& source_after.remaining() == Some(0nat)
    } else {
        &&& drew(source_before, source_after, fresh)
        &&& advance(f, policy, before, fresh, k)->At_1 == fresh.len()
        &&& match terminal {
            Some(step) => step == after.steps && after.violated.is_empty(),
            None => !after.violated.is_empty() && after.steps == usize::MAX,
        }
    }
}

/// What one more round must come to where only a round that was made is
/// handed on: `next` is the trial after a round, or the trial as it was where
/// the round was `Terminal` or `RandomSpaceExceed`.
pub open spec fn next_outcome<R: RandomSpace>(
    f: Formula,
    policy: Policy,
    before: Trial,
    source_before: R,
    after: Trial,
    source_after: R,
    reported: Option<Seq<usize>>,
) -> bool {
    match reported {
        Some(_) => round_outcome(f, policy, before, source_before, after, source_after, None, false, reported),
        None => round_outcome(
            f,
            policy,
            before,
            source_before,
            after,
            source_after,
            Some(before.steps),
            false,
            None,
        ) || round_outcome(f, policy, before, source_before, after, source_after, None, true, None),
    }
}

/// A simulator of a resampling algorithm on one formula.
pub trait AlgorithmSimulator<R: RandomSpace>: Sized {
    /// What a round reports as resampled.
    type ResamplingType;

    /// The simulator is in a valid state.
    spec fn wf(&self) -> bool;

    /// The formula that is simulated on.
    spec fn formula(&self) -> Formula;

    /// The source that the bits are drawn from.
    spec fn source(&self) -> R;

    /// What the trial has reached.
    spec fn trial(&self) -> Trial;

    /// Which clauses a round resamples.
    spec fn policy() -> Policy;

    /// The clause ids that a report names, in order.
    spec fn reported(r: Self::ResamplingType) -> Seq<usize>;

    /// A valid simulator has a valid formula and a valid source, and an
    /// assignment that gives each variable a value.
    proof fn lemma_well_formed(&self)
        requires
            self.wf(),
        ensures
            self.formula().wf(),
            self.source().wf(),
            self.trial().assignment.len() == self.formula().variables,
            forall|c: usize| self.trial().violated.contains(c) ==> c < self.formula().clauses.len(),
    ;

    /// A simulator on `sat` that draws from `random_space`, with every
    /// variable false and no clause recorded as violated.
    fn new(sat: SAT, random_space: R) -> (sim: Self)
        requires
            sat.wf(),
            random_space.wf(),
        ensures
            sim.wf(),
            sim.formula() == sat@,
            sim.source() == random_space,
            sim.trial() == fresh_trial(sat@),
    ;

    /// Draws one bit for each variable and records the clauses that are
    /// violated under the assignment so formed.
    fn run_init(&mut self)
        requires
            old(self).wf(),
            can_supply(old(self).source().remaining(), old(self).formula().variables),
        ensures
            final(self).wf(),
            final(self).formula() == old(self).formula(),
            fresh_bits(old(self).source(), final(self).source()).len() == old(self).formula().variables,
            drew(old(self).source(), final(self).source(), fresh_bits(old(self).source(), final(self).source())),
            final(self).trial() == started(
                old(self).formula(),
                old(self).trial(),
                fresh_bits(old(self).source(), final(self).source()),
            ),
    ;

    /// Makes one round: resamples the variables of the clauses that the
    /// policy picks, then examines those clauses and the later ones that
    /// depend on them. Where no clause is recorded as violated, or the bits
    /// run out, the trial stays as it was.
    fn run_next_step(&mut self) -> (r: ExecuteResult<Self::ResamplingType>)
        requires
            old(self).wf(),
            old(self).trial().steps < usize::MAX,
        ensures
            final(self).wf(),
            final(self).formula() == old(self).formula(),
            round_outcome(
                old(self).formula(),
                Self::policy(),
                old(self).trial(),
                old(self).source(),
                final(self).trial(),
                final(self).source(),
                r.terminal_step(),
                r is RandomSpaceExceed,
                match r.resampled() {
                    Some(x) => Some(Self::reported(x)),
                    None => None,
                },
            ),
    ;

    /// Makes rounds until no clause is recorded as violated or the bits run
    /// out. `Running` comes back only where the count of rounds has reached
    /// the largest machine word.
    fn run_until_terminal(&mut self) -> (r: ExecuteResult<Self::ResamplingType>)
        requires
            old(self).wf(),
            old(self).trial().steps < usize::MAX,
        ensures
            final(self).wf(),
            final(self).formula() == old(self).formula(),
            run_outcome(
                old(self).formula(),
                Self::policy(),
                old(self).trial(),
                old(self).source(),
                final(self).trial(),
                final(self).source(),
                r.terminal_step(),
                r is RandomSpaceExceed,
            ),
    ;

    /// Whether no clause is recorded as violated.
    fn is_terminal(&self) -> (b: bool)
        requires
            self.wf(),
        ensures
            b == self.trial().violated.is_empty(),
    ;

    /// The number of rounds made since the simulator was made or restarted.
    fn step_count(&self) -> (n: usize)
        requires
            self.wf(),
        ensures
            n == self.trial().steps,
    ;

    /// Takes a new source of bits and forgets the rounds made and the
    /// clauses recorded; the assignment stays.
    fn restart(&mut self, random_space: R)
        requires
            old(self).wf(),
            random_space.wf(),
        ensures
            final(self).wf(),
            final(self).formula() == old(self).formula(),
            final(self).source() == random_space,
            final(self).trial() == restarted(old(self).trial()),
    ;
}

/// The trial `now` is what rounds have made of the trial `start`, from the
/// bits drawn between `source_start` and `source_now`.
pub open spec fn run_so_far<R: RandomSpace>(
    f: Formula,
    policy: Policy,
    start: Trial,
    source_start: R,
    now: Trial,
    source_now: R,
) -> bool {
    let fresh = fresh_bits(source_start, source_now);
    &&& now.steps >= start.steps
    &&& drew(source_start, source_now, fresh)
    &&& advance(f, policy, start, fresh, (now.steps - start.steps) as nat) == Progress::At(now, fresh.len())
}

/// Before any round the trial is where it started.
pub proof fn lemma_run_begins<R: RandomSpace>(f: Formula, policy: Policy, start: Trial, source: R)
    ensures
        run_so_far(f, policy, start, source, start, source),
{
    source.lemma_continues_itself();
    assert(fresh_bits(source, source) =~= Seq::<bool>::empty());
    assert(source.drawn() + fresh_bits(source, source) =~= source.drawn());
    lemma_advance_none(f, policy, start, fresh_bits(source, source));
}

/// The rounds made so far, and one more that drew its bits.
pub proof fn lemma_run_goes_on<R: RandomSpace>(
    f: Formula,
    policy: Policy,
    start: Trial,
    source_start: R,
    now: Trial,
    source_now: R,
    next: Trial,
    source_next: R,
    reported: Seq<usize>,
)
    requires
        run_so_far(f, policy, start, source_start, now, source_now),
        round_outcome(f, policy, now, source_now, next, source_next, None, false, Some(reported)),
    ensures
        run_so_far(f, policy, start, source_start, next, source_next),
        next.steps == now.steps + 1,
{
    reveal(round_outcome);
    let bits = fresh_bits(source_start, source_now);
    let drawn = fresh_bits(source_now, source_next);
    lemma_stepped_counts(f, policy, now, drawn);
    lemma_drew_chain(source_start, source_now, source_next, bits, drawn);
    lemma_advance_round(f, policy, start, bits, (now.steps - start.steps) as nat, now, drawn);
}

/// The rounds made so far, and one more that found too few bits left.
pub proof fn lemma_run_runs_dry<R: RandomSpace>(
    f: Formula,
    policy: Policy,
    start: Trial,
    source_start: R,
    now: Trial,
    source_now: R,
    next: Trial,
    source_next: R,
)
    requires
        run_so_far(f, policy, start, source_start, now, source_now),
        round_outcome(f, policy, now, source_now, next, source_next, None, true, None),
    ensures
        next == now,
        run_outcome(f, policy, start, source_start, next, source_next, None, true),
{
    reveal(round_outcome);
    let bits = fresh_bits(source_start, source_now);
    lemma_ran_dry_chain(
        source_start,
        source_now,
        source_next,
        bits,
        round_variables(f, policy, now.violated).len(),
    );
    lemma_advance_exhausted(
        f,
        policy,
        start,
        bits,
        (now.steps - start.steps) as nat,
        now,
        fresh_bits(source_now, source_next),
    );
}

/// A round that finds no clause recorded as violated changes nothing.
pub proof fn lemma_round_terminal<R: RandomSpace>(
    f: Formula,
    policy: Policy,
    now: Trial,
    source_now: R,
    next: Trial,
    source_next: R,
    step: nat,
)
    requires
        round_outcome(f, policy, now, source_now, next, source_next, Some(step), false, None),
    ensures
        next == now,
        source_next == source_now,
        step == now.steps,
        now.violated.is_empty(),
{
    reveal(round_outcome);
}

/// The rounds made so far end the run where no clause is recorded as
/// violated, or where the count of rounds is at its limit.
pub proof fn lemma_run_ends<R: RandomSpace>(
    f: Formula,
    policy: Policy,
    start: Trial,
    source_start: R,
    now: Trial,
    source_now: R,
    terminal: Option<nat>,
)
    requires
        run_so_far(f, policy, start, source_start, now, source_now),
        match terminal {
            Some(step) => step == now.steps && now.violated.is_empty(),
            None => !now.violated.is_empty() && now.steps == usize::MAX,
        },
    ensures
        run_outcome(f, policy, start, source_start, now, source_now, terminal, false),
{
}

/// Fetches `count` bits, or runs the source dry.
#[verifier::loop_isolation(false)]
fn draw<R: RandomSpace>(random_space: &mut R, count: usize) -> (bits: Option<Vec<bool>>)
    requires
        old(random_space).wf(),
    ensures
        final(random_space).wf(),
        match bits {
            Some(b) => b@.len() == count && drew(*old(random_space), *final(random_space), b@),
            None => ran_dry(*old(random_space), *final(random_space), count as nat),
        },
{
    let ghost start = *random_space;
    let mut bits: Vec<bool> = Vec::with_capacity(count);
    proof {
        start.lemma_continues_itself();
        assert(start.drawn() + bits@ =~= start.drawn());
    }
    let mut i: usize = 0;
    while i < count
        invariant
            i <= count,
            bits@.len() == i,
            random_space.wf(),
            drew(start, *random_space, bits@),
        decreases count - i,
    {
        let ghost middle = *random_space;
        match random_space.fetch_random_bit() {
            None => {
                proof {
                    start.lemma_continues_chain(&middle, random_space);
                    assert(random_space.drawn().take(start.drawn().len() as int) =~= start.drawn());
                    assert(middle.remaining() == Some(0nat));
                    assert(start.remaining() is Some);
                    assert(start.remaining()->0 == i);
                }
                return None;
            },
            Some(b) => {
                bits.push(b);
                proof {
                    start.lemma_continues_chain(&middle, random_space);
                    assert(random_space.drawn() =~= start.drawn() + bits@);
                }
            },
        }
        i += 1;
    }
    Some(bits)
}

/// Gives each variable in `list`, in turn, a fresh bit from `random_space`.
/// Where the bits run out, no variable changes.
pub fn resampling<R: RandomSpace>(var: &mut Vec<bool>, random_space: &mut R, list: Vec<usize>) -> (r: Result<
    (),
    (),
>)
    requires
        old(random_space).wf(),
        forall|i: int| 0 <= i < list@.len() ==> 1 <= #[trigger] list@[i] <= old(var)@.len(),
    ensures
        final(random_space).wf(),
        r is Ok <==> can_supply(old(random_space).remaining(), list@.len()),
        r is Ok ==> fresh_bits(*old(random_space), *final(random_space)).len() == list@.len() && drew(
            *old(random_space),
            *final(random_space),
            fresh_bits(*old(random_space), *final(random_space)),
        ) && final(var)@ == resample(
            old(var)@,
            list@,
            fresh_bits(*old(random_space), *final(random_space)),
        ),
        r is Err ==> final(var)@ == old(var)@ && ran_dry(
            *old(random_space),
            *final(random_space),
            list@.len(),
        ),
{
    let ghost start = *random_space;
    let ghost before = var@;
    match draw(random_space, list.len()) {
        None => Err(()),
        Some(bits) => {
            proof {
                assert(fresh_bits(start, *random_space) =~= bits@);
            }
            let mut i: usize = 0;
            while i < list.len()
                invariant
                    i <= list@.len(),
                    bits@.len() == list@.len(),
                    var@.len() == before.len(),
                    forall|j: int| 0 <= j < list@.len() ==> 1 <= #[trigger] list@[j] <= before.len(),
                    var@ == resample(before, list@.take(i as int), bits@),
                decreases list@.len() - i,
            {
                proof {
                    assert(list@.take(i + 1).drop_last() =~= list@.take(i as int));
                    assert(list@.take(i + 1).last() == list@[i as int]);
                    lemma_resample_len(before, list@.take(i as int), bits@);
                }
                var.set(list[i] - 1, bits[i]);
                i += 1;
            }
            proof {
                assert(list@.take(i as int) =~= list@);
            }
            Ok(())
        },
    }
}

/// Resampling keeps the number of variables.
pub proof fn lemma_resample_len(a: Seq<bool>, vars: Seq<usize>, bits: Seq<bool>)
    requires
        forall|j: int| 0 <= j < vars.len() ==> 1 <= #[trigger] vars[j] <= a.len(),
    ensures
        resample(a, vars, bits).len() == a.len(),
    decreases vars.len(),
{
    if vars.len() > 0 {
        lemma_resample_len(a, vars.drop_last(), bits);
    }
}

/// Examines the clauses in `scope` under `var`: those that are violated
/// enter `violated`, the others leave it.
fn recheck_clauses(sat: &SAT, var: &Vec<bool>, violated: &mut BTreeSet<usize>, scope: &Vec<usize>)
    requires
        sat.wf(),
        sat@.variables <= var@.len(),
        forall|i: int| 0 <= i < scope@.len() ==> #[trigger] scope@[i] < sat@.clauses.len(),
        forall|c: usize| old(violated)@.contains(c) ==> c < sat@.clauses.len(),
    ensures
        final(violated)@ =~= recheck(sat@, var@, old(violated)@, scope@.to_set()),
        forall|c: usize| final(violated)@.contains(c) ==> c < sat@.clauses.len(),
{
    let ghost start = violated@;
    let mut i: usize = 0;
    while i < scope.len()
        invariant
            i <= scope@.len(),
            sat.wf(),
            sat@.variables <= var@.len(),
            forall|j: int| 0 <= j < scope@.len() ==> #[trigger] scope@[j] < sat@.clauses.len(),
            violated@ =~= recheck(sat@, var@, start, scope@.take(i as int).to_set()),
        decreases scope@.len() - i,
    {
        let c = scope[i];
        let ghost before = violated@;
        if sat.get_clause(c).check_violated(var) {
            violated.insert(c);
        } else {
            violated.remove(&c);
        }
        proof {
            let shorter = scope@.take(i as int);
            let longer = scope@.take(i + 1);
            assert(longer =~= shorter.push(c));
            assert forall|d: usize| longer.to_set().contains(d) <==> (shorter.to_set().contains(d) || d
                == c) by {
                if shorter.contains(d) {
                    let w = choose|w: int| 0 <= w < shorter.len() && shorter[w] == d;
                    assert(longer[w] == d);
                }
                if longer.contains(d) {
                    let w = choose|w: int| 0 <= w < longer.len() && longer[w] == d;
                    if w < shorter.len() {
                        assert(shorter[w] == d);
                    }
                }
                assert(longer[i as int] == c);
            }
            assert(violated@ =~= recheck(sat@, var@, start, longer.to_set()));
        }
        i += 1;
    }
    proof {
        assert(scope@.take(i as int) =~= scope@);
    }
}

/// The list that the graph keeps for a clause holds that clause and the
/// later clauses that depend on it.
pub proof fn lemma_gamma_plus_listed(g: GraphView, f: Formula, c: usize)
    requires
        is_graph_of(g, f),
        c < f.clauses.len(),
    ensures
        g.gamma[c as int].push(c).to_set() =~= gamma_plus(f, c as int),
        forall|i: int| 0 <= i < g.gamma[c as int].len() ==> c < #[trigger] g.gamma[c as int][i] < f.clauses.len(),
{
    let s = g.gamma[c as int];
    let t = s.push(c);
    assert forall|d: usize| t.to_set().contains(d) <==> gamma_plus(f, c as int).contains(d) by {
        if t.contains(d) {
            let w = choose|w: int| 0 <= w < t.len() && t[w] == d;
            if w < s.len() {
                assert(s[w] == d);
                assert(s.contains(d));
            }
        }
        if gamma_plus(f, c as int).contains(d) {
            if d == c {
                assert(t[s.len() as int] == d);
            } else {
                assert(s.contains(d));
                let w = choose|w: int| 0 <= w < s.len() && s[w] == d;
                assert(t[w] == d);
            }
        }
    }
    assert forall|i: int| 0 <= i < s.len() implies c < #[trigger] s[i] < f.clauses.len() by {
        assert(s.contains(s[i]));
    }
}

/// The Moser–Tardos simulator: each round resamples the violated clause with
/// the smallest id.
pub struct MTsAlgorithmSimulator<R: RandomSpace> {
    sat: SAT,
    random_space: R,
    violated_clause: BTreeSet<usize>,
    dependency_graph: DependencyGraph,
    varible: Vec<bool>,
    step: usize,
}

impl<R: RandomSpace> MTsAlgorithmSimulator<R> {
    /// The current assignment: entry `v - 1` is the value of variable `v`.
    pub fn get_varible(&self) -> (var: &Vec<bool>)
        ensures
            var@ == self.trial().assignment,
    {
        &self.varible
    }

    /// Makes one round and hands it on where it was made: `None` where no
    /// clause was recorded as violated, and where the bits ran out.
    pub fn next(&mut self) -> (item: Option<ExecuteResult<usize>>)
        requires
            old(self).wf(),
            old(self).trial().steps < usize::MAX,
        ensures
            final(self).wf(),
            final(self).formula() == old(self).formula(),
            item matches Some(r) ==> r is Running,
            next_outcome(
                old(self).formula(),
                Policy::OneClause,
                old(self).trial(),
                old(self).source(),
                final(self).trial(),
                final(self).source(),
                match item {
                    Some(ExecuteResult::Running { resampled_clause }) => Some(seq![resampled_clause]),
                    _ => None,
                },
            ),
    {
        proof {
            reveal(round_outcome);
        }
        match self.run_next_step() {
            ExecuteResult::Running { resampled_clause } => Some(ExecuteResult::Running { resampled_clause }),
            _ => None,
        }
    }
}

impl<R: RandomSpace> AlgorithmSimulator<R> for MTsAlgorithmSimulator<R> {
    type ResamplingType = usize;

    closed spec fn wf(&self) -> bool {
        &&& self.sat.wf()
        &&& self.dependency_graph.wf()
        &&& is_graph_of(self.dependency_graph@, self.sat@)
        &&& self.random_space.wf()
        &&& self.varible@.len() == self.sat@.variables
        &&& forall|c: usize| self.violated_clause@.contains(c) ==> c < self.sat@.clauses.len()
    }

    closed spec fn formula(&self) -> Formula {
        self.sat@
    }

    closed spec fn source(&self) -> R {
        self.random_space
    }

    closed spec fn trial(&self) -> Trial {
        Trial { assignment: self.varible@, violated: self.violated_clause@, steps: self.step as nat }
    }

    open spec fn policy() -> Policy {
        Policy::OneClause
    }

    proof fn lemma_well_formed(&self) {
    }

    open spec fn reported(r: usize) -> Seq<usize> {
        seq![r]
    }

    fn new(sat: SAT, random_space: R) -> (sim: Self) {
        let dependency_graph = DependencyGraph::form_sat(&sat);
        let varible = new_vector(sat.variable_count(), false);
        let sim = MTsAlgorithmSimulator {
            dependency_graph,
            varible,
            violated_clause: BTreeSet::new(),
            step: 0,
            sat,
            random_space,
        };
        assert(sim.trial().assignment =~= fresh_trial(sim.sat@).assignment);
        sim
    }

    fn run_init(&mut self) {
        run_init_on(&self.sat, &mut self.random_space, &mut self.varible, &mut self.violated_clause);
    }

    fn run_next_step(&mut self) -> (r: ExecuteResult<usize>) {
        let ghost f = self.sat@;
        let ghost before = self.trial();
        proof {
            reveal(round_outcome);
            reveal(stepped);
        }
        match smallest(&self.violated_clause) {
            None => ExecuteResult::Terminal { step: self.step },
            Some(id) => {
                proof {
                    lemma_least(self.violated_clause@, id);
                    assert(!before.violated.is_empty());
                }
                let vars = self.sat.get_clause(id).collect_varible();
                assert forall|i: int| 0 <= i < vars@.len() implies 1 <= #[trigger] vars@[i] <= self.varible@.len() by {
                    assert(1 <= lit_var(f.clauses[id as int][i]) <= f.variables);
                }
                match resampling(&mut self.varible, &mut self.random_space, vars) {
                    Err(_) => ExecuteResult::RandomSpaceExceed,
                    Ok(_) => {
                        let scope = self.dependency_graph.get_gamma_plus(id);
                        proof {
                            lemma_gamma_plus_listed(self.dependency_graph@, f, id);
                            lemma_resample_len(
                                before.assignment,
                                clause_vars(f.clauses[id as int]),
                                fresh_bits(old(self).random_space, self.random_space),
                            );
                            assert forall|i: int| 0 <= i < scope@.len() implies #[trigger] scope@[i] < f.clauses.len() by {
                                if i < scope@.len() - 1 {
                                    assert(scope@[i] == self.dependency_graph@.gamma[id as int][i]);
                                }
                            }
                        }
                        recheck_clauses(&self.sat, &self.varible, &mut self.violated_clause, &scope);
                        self.step += 1;
                        proof {
                            let targets = round_targets(Policy::OneClause, before.violated).to_set();
                            assert(seq![id][0] == id);
                            assert(targets =~= set![id]);
                            assert(recheck_scope(f, targets) =~= gamma_plus(f, id as int)) by {
                                assert(targets.contains(id));
                            }
                        }
                        ExecuteResult::Running { resampled_clause: id }
                    },
                }
            },
        }
    }

    fn run_until_terminal(&mut self) -> (r: ExecuteResult<usize>) {
        let ghost f = self.formula();
        let ghost start = self.trial();
        let ghost source_start = self.source();
        proof {
            lemma_run_begins(f, Self::policy(), start, source_start);
        }
        loop
            invariant
                self.wf(),
                self.formula() == f,
                self.trial().steps < usize::MAX,
                f == old(self).formula(),
                start == old(self).trial(),
                source_start == old(self).source(),
                run_so_far(f, Self::policy(), start, source_start, self.trial(), self.source()),
            decreases usize::MAX - self.trial().steps,
        {
            let ghost now = self.trial();
            let ghost source_now = self.source();
            match self.run_next_step() {
                ExecuteResult::RandomSpaceExceed => {
                    proof {
                        lemma_run_runs_dry(
                            f,
                            Self::policy(),
                            start,
                            source_start,
                            now,
                            source_now,
                            self.trial(),
                            self.source(),
                        );
                    }
                    return ExecuteResult::RandomSpaceExceed;
                },
                ExecuteResult::Terminal { step } => {
                    proof {
                        lemma_round_terminal(
                            f,
                            Self::policy(),
                            now,
                            source_now,
                            self.trial(),
                            self.source(),
                            step as nat,
                        );
                        lemma_run_ends(f, Self::policy(), start, source_start, now, source_now, Some(step as nat));
                    }
                    return ExecuteResult::Terminal { step };
                },
                ExecuteResult::Running { resampled_clause } => {
                    proof {
                        lemma_run_goes_on(
                            f,
                            Self::policy(),
                            start,
                            source_start,
                            now,
                            source_now,
                            self.trial(),
                            self.source(),
                            Self::reported(resampled_clause),
                        );
                    }
                    if self.step_count() == usize::MAX {
                        if self.is_terminal() {
                            proof {
                                lemma_run_ends(
                                    f,
                                    Self::policy(),
                                    start,
                                    source_start,
                                    self.trial(),
                                    self.source(),
                                    Some(self.trial().steps),
                                );
                            }
                            return ExecuteResult::Terminal { step: self.step_count() };
                        }
                        proof {
                            lemma_run_ends(
                                f,
                                Self::policy(),
                                start,
                                source_start,
                                self.trial(),
                                self.source(),
                                None,
                            );
                        }
                        return ExecuteResult::Running { resampled_clause };
                    }
                },
            }
        }
    }

    fn is_terminal(&self) -> (b: bool) {
        self.violated_clause.is_empty()
    }

    fn step_count(&self) -> (n: usize) {
        self.step
    }

    fn restart(&mut self, random_space: R) {
        self.step = 0;
        self.random_space = random_space;
        self.violated_clause.clear();
    }
}

/// Draws one bit for each variable and adds the clauses that are violated
/// under the assignment so formed to `violated`.
#[verifier::loop_isolation(false)]
fn run_init_on<R: RandomSpace>(
    sat: &SAT,
    random_space: &mut R,
    var: &mut Vec<bool>,
    violated: &mut BTreeSet<usize>,
)
    requires
        sat.wf(),
        old(random_space).wf(),
        old(var)@.len() == sat@.variables,
        can_supply(old(random_space).remaining(), sat@.variables),
        forall|c: usize| old(violated)@.contains(c) ==> c < sat@.clauses.len(),
    ensures
        final(random_space).wf(),
        fresh_bits(*old(random_space), *final(random_space)).len() == sat@.variables,
        drew(*old(random_space), *final(random_space), fresh_bits(*old(random_space), *final(random_space))),
        final(var)@ == fresh_bits(*old(random_space), *final(random_space)),
        final(violated)@ == old(violated)@.union(violated_set(sat@, final(var)@)),
        forall|c: usize| final(violated)@.contains(c) ==> c < sat@.clauses.len(),
{
    let ghost start = *random_space;
    let ghost recorded = violated@;
    match draw(random_space, sat.variable_count()) {
        None => {
            assert(false);
        },
        Some(bits) => {
            proof {
                assert(fresh_bits(start, *random_space) =~= bits@);
            }
            *var = bits;
        },
    }
    let flags = sat.check_violated(var);
    let mut id: usize = 0;
    while id < flags.len()
        invariant
            id <= flags@.len(),
            flags@ == sat@.violated_under(var@),
            forall|d: usize|
                #[trigger] violated@.contains(d) <==> (recorded.contains(d) || (d < id && violated_set(
                    sat@,
                    var@,
                ).contains(d))),
        decreases flags@.len() - id,
    {
        let ghost before = violated@;
        if flags[id] {
            violated.insert(id);
        }
        proof {
            let now = violated_set(sat@, var@);
            assert(now.contains(id) == flags@[id as int]);
            assert forall|d: usize| #[trigger]
                violated@.contains(d) <==> (recorded.contains(d) || (d < id + 1 && now.contains(d))) by {
                assert(before.contains(d) <==> (recorded.contains(d) || (d < id && now.contains(d))));
            }
        }
        id += 1;
    }
    assert(violated@ =~= recorded.union(violated_set(sat@, var@)));
}

/// The variables that the clauses listed in `ids` mention.
#[verifier::loop_isolation(false)]
fn collect_variables(sat: &SAT, ids: &Vec<usize>) -> (list: BTreeSet<usize>)
    requires
        sat.wf(),
        forall|i: int| 0 <= i < ids@.len() ==> #[trigger] ids@[i] < sat@.clauses.len(),
    ensures
        list@ =~= variables_of(sat@, ids@.to_set()),
        forall|v: usize| list@.contains(v) ==> 1 <= v <= sat@.variables,
{
    let ghost f = sat@;
    let mut list: BTreeSet<usize> = BTreeSet::new();
    let mut i: usize = 0;
    while i < ids.len()
        invariant
            i <= ids@.len(),
            list@ =~= variables_of(f, ids@.take(i as int).to_set()),
            forall|v: usize| list@.contains(v) ==> 1 <= v <= f.variables,
        decreases ids@.len() - i,
    {
        let c = ids[i];
        let vars = sat.get_clause(c).collect_varible();
        let ghost start = list@;
        let ghost lits = f.clauses[c as int];
        let mut j: usize = 0;
        while j < vars.len()
            invariant
                j <= vars@.len(),
                forall|v: usize| #[trigger]
                    list@.contains(v) <==> (start.contains(v) || among(vars@, j as int, v)),
            decreases vars@.len() - j,
        {
            let ghost before = list@;
            list.insert(vars[j]);
            proof {
                assert forall|v: usize| #[trigger]
                    list@.contains(v) <==> (start.contains(v) || among(vars@, j + 1, v)) by {
                    assert(before.contains(v) <==> (start.contains(v) || among(vars@, j as int, v)));
                    if among(vars@, j as int, v) {
                        let w = choose|w: int| 0 <= w < j && vars@[w] == v;
                        assert(0 <= w < j + 1 && vars@[w] == v);
                    }
                    if among(vars@, j + 1, v) {
                        let w = choose|w: int| 0 <= w < j + 1 && vars@[w] == v;
                        if w < j {
                            assert(among(vars@, j as int, v));
                        }
                    }
                    if v == vars@[j as int] {
                        assert(among(vars@, j + 1, v));
                    }
                }
            }
            j += 1;
        }
        proof {
            let shorter = ids@.take(i as int);
            let longer = ids@.take(i + 1);
            assert(longer =~= shorter.push(c));
            assert forall|v: usize| list@.contains(v) <==> variables_of(f, longer.to_set()).contains(v) by {
                if list@.contains(v) {
                    if start.contains(v) {
                        let d = choose|d: usize| #[trigger]
                            shorter.to_set().contains(d) && d < f.clauses.len() && mentions(
                                f.clauses[d as int],
                                v as nat,
                            );
                        let w = choose|w: int| 0 <= w < shorter.len() && shorter[w] == d;
                        assert(longer[w] == d);
                        assert(longer.to_set().contains(d));
                    } else {
                        let w = choose|w: int| 0 <= w < j && vars@[w] == v;
                        assert(lit_var(lits[w]) == v);
                        assert(mentions(lits, v as nat));
                        assert(longer[i as int] == c);
                        assert(longer.to_set().contains(c));
                    }
                }
                if variables_of(f, longer.to_set()).contains(v) {
                    let d = choose|d: usize| #[trigger]
                        longer.to_set().contains(d) && d < f.clauses.len() && mentions(
                            f.clauses[d as int],
                            v as nat,
                        );
                    let w = choose|w: int| 0 <= w < longer.len() && longer[w] == d;
                    if w < i {
                        assert(shorter[w] == d);
                        assert(shorter.to_set().contains(d));
                        assert(start.contains(v));
                    } else {
                        let x = choose|x: int| 0 <= x < lits.len() && lit_var(#[trigger] lits[x]) == v as nat;
                        assert(vars@[x] == v);
                        assert(among(vars@, j as int, v));
                    }
                }
            }
            assert forall|v: usize| list@.contains(v) implies 1 <= v <= f.variables by {
                if !start.contains(v) {
                    let w = choose|w: int| 0 <= w < j && vars@[w] == v;
                    assert(1 <= lit_var(lits[w]) <= f.variables);
                }
            }
        }
        i += 1;
    }
    proof {
        assert(ids@.take(i as int) =~= ids@);
    }
    list
}

/// The clauses examined after the first `i + 1` targets are those examined
/// after the first `i`, and target `i` with the later clauses that depend on it.
pub proof fn lemma_scope_grows(f: Formula, targets: Seq<usize>, i: int)
    requires
        0 <= i < targets.len(),
    ensures
        recheck_scope(f, targets.take(i + 1).to_set()) =~= recheck_scope(f, targets.take(i).to_set()).union(
            gamma_plus(f, targets[i] as int),
        ),
{
    let shorter = targets.take(i);
    let longer = targets.take(i + 1);
    let c = targets[i];
    assert(longer =~= shorter.push(c));
    assert forall|d: usize| #[trigger]
        recheck_scope(f, longer.to_set()).contains(d) <==> recheck_scope(f, shorter.to_set()).union(
            gamma_plus(f, c as int),
        ).contains(d) by {
        if recheck_scope(f, longer.to_set()).contains(d) {
            let t = choose|t: usize| #[trigger] longer.to_set().contains(t) && gamma_plus(f, t as int).contains(d);
            let w = choose|w: int| 0 <= w < longer.len() && longer[w] == t;
            if w < i {
                assert(shorter[w] == t);
                assert(shorter.to_set().contains(t));
            }
        }
        if recheck_scope(f, shorter.to_set()).contains(d) {
            let t = choose|t: usize| #[trigger] shorter.to_set().contains(t) && gamma_plus(f, t as int).contains(d);
            let w = choose|w: int| 0 <= w < shorter.len() && shorter[w] == t;
            assert(longer[w] == t);
            assert(longer.to_set().contains(t));
        }
        if gamma_plus(f, c as int).contains(d) {
            assert(longer[i] == c);
            assert(longer.to_set().contains(c));
        }
    }
}

/// The batched simulator: each round resamples the variables of all violated
/// clauses at once.
pub struct NewAlgorithmSimulator<R: RandomSpace> {
    inner: MTsAlgorithmSimulator<R>,
}

impl<R: RandomSpace> NewAlgorithmSimulator<R> {
    /// The current assignment: entry `v - 1` is the value of variable `v`.
    pub fn get_varible(&self) -> (var: &Vec<bool>)
        ensures
            var@ == self.trial().assignment,
    {
        &self.inner.varible
    }

    /// Makes one round and hands it on where it was made: `None` where no
    /// clause was recorded as violated, and where the bits ran out.
    pub fn next(&mut self) -> (item: Option<ExecuteResult<Vec<usize>>>)
        requires
            old(self).wf(),
            old(self).trial().steps < usize::MAX,
        ensures
            final(self).wf(),
            final(self).formula() == old(self).formula(),
            item matches Some(r) ==> r is Running,
            next_outcome(
                old(self).formula(),
                Policy::AllViolated,
                old(self).trial(),
                old(self).source(),
                final(self).trial(),
                final(self).source(),
                match item {
                    Some(ExecuteResult::Running { resampled_clause }) => Some(resampled_clause@),
                    _ => None,
                },
            ),
    {
        proof {
            reveal(round_outcome);
        }
        match self.run_next_step() {
            ExecuteResult::Running { resampled_clause } => Some(ExecuteResult::Running { resampled_clause }),
            _ => None,
        }
    }
}

impl<R: RandomSpace> AlgorithmSimulator<R> for NewAlgorithmSimulator<R> {
    type ResamplingType = Vec<usize>;

    closed spec fn wf(&self) -> bool {
        self.inner.wf()
    }

    closed spec fn formula(&self) -> Formula {
        self.inner.formula()
    }

    closed spec fn source(&self) -> R {
        self.inner.source()
    }

    closed spec fn trial(&self) -> Trial {
        self.inner.trial()
    }

    open spec fn policy() -> Policy {
        Policy::AllViolated
    }

    proof fn lemma_well_formed(&self) {
        self.inner.lemma_well_formed();
    }

    open spec fn reported(r: Vec<usize>) -> Seq<usize> {
        r@
    }

    fn new(sat: SAT, random_space: R) -> (sim: Self) {
        NewAlgorithmSimulator { inner: MTsAlgorithmSimulator::new(sat, random_space) }
    }

    fn run_init(&mut self) {
        self.inner.run_init()
    }

    #[verifier::loop_isolation(false)]
    fn run_next_step(&mut self) -> (r: ExecuteResult<Vec<usize>>) {
        let ghost f = self.inner.sat@;
        let ghost before = self.trial();
        proof {
            reveal(round_outcome);
            reveal(stepped);
        }
        let violated = sorted_elements(&self.inner.violated_clause);
        proof {
            lemma_listing(before.violated, violated@);
            if violated@.len() == 0 {
                assert forall|d: usize| !before.violated.contains(d) by {
                    assert(!violated@.contains(d));
                }
            } else {
                assert(violated@.contains(violated@[0]));
            }
            assert forall|i: int| 0 <= i < violated@.len() implies #[trigger] violated@[i] < f.clauses.len() by {
                assert(violated@.contains(violated@[i]));
            }
        }
        if violated.len() == 0 {
            return ExecuteResult::Terminal { step: self.inner.step };
        }
        let list = collect_variables(&self.inner.sat, &violated);
        let vars = sorted_elements(&list);
        proof {
            assert(violated@.to_set() =~= before.violated);
            lemma_listing(variables_of(f, before.violated), vars@);
            assert forall|i: int| 0 <= i < vars@.len() implies 1 <= #[trigger] vars@[i] <= self.inner.varible@.len() by {
                assert(vars@.contains(vars@[i]));
            }
        }
        let ghost source_before = self.inner.random_space;
        match resampling(&mut self.inner.varible, &mut self.inner.random_space, vars) {
            Err(_) => ExecuteResult::RandomSpaceExceed,
            Ok(_) => {
                proof {
                    lemma_resample_len(
                        before.assignment,
                        round_variables(f, Policy::AllViolated, before.violated),
                        fresh_bits(source_before, self.inner.random_space),
                    );
                }
                let ghost a = self.inner.varible@;
                let ghost source_after = self.inner.random_space;
                let mut i: usize = 0;
                while i < violated.len()
                    invariant
                        i <= violated@.len(),
                        self.inner.random_space == source_after,
                        self.inner.sat@ == f,
                        self.inner.sat.wf(),
                        self.inner.dependency_graph.wf(),
                        is_graph_of(self.inner.dependency_graph@, f),
                        self.inner.varible@ == a,
                        self.inner.step == before.steps,
                        self.inner.random_space.wf(),
                        forall|c: usize| self.inner.violated_clause@.contains(c) ==> c < f.clauses.len(),
                        self.inner.violated_clause@ =~= recheck(
                            f,
                            a,
                            before.violated,
                            recheck_scope(f, violated@.take(i as int).to_set()),
                        ),
                    decreases violated@.len() - i,
                {
                    let c = violated[i];
                    let scope = self.inner.dependency_graph.get_gamma_plus(c);
                    let ghost current = self.inner.violated_clause@;
                    proof {
                        lemma_gamma_plus_listed(self.inner.dependency_graph@, f, c);
                        assert forall|x: int| 0 <= x < scope@.len() implies #[trigger] scope@[x] < f.clauses.len() by {
                            if x < scope@.len() - 1 {
                                assert(scope@[x] == self.inner.dependency_graph@.gamma[c as int][x]);
                            }
                        }
                    }
                    recheck_clauses(&self.inner.sat, &self.inner.varible, &mut self.inner.violated_clause, &scope);
                    proof {
                        let done = recheck_scope(f, violated@.take(i as int).to_set());
                        lemma_recheck_twice(f, a, before.violated, done, gamma_plus(f, c as int));
                        lemma_scope_grows(f, violated@, i as int);
                    }
                    i += 1;
                }
                proof {
                    assert(violated@.take(i as int) =~= violated@);
                }
                self.inner.step += 1;
                ExecuteResult::Running { resampled_clause: violated }
            },
        }
    }

    fn run_until_terminal(&mut self) -> (r: ExecuteResult<Vec<usize>>) {
        let ghost f = self.formula();
        let ghost start = self.trial();
        let ghost source_start = self.source();
        proof {
            lemma_run_begins(f, Self::policy(), start, source_start);
        }
        loop
            invariant
                self.wf(),
                self.formula() == f,
                self.trial().steps < usize::MAX,
                f == old(self).formula(),
                start == old(self).trial(),
                source_start == old(self).source(),
                run_so_far(f, Self::policy(), start, source_start, self.trial(), self.source()),
            decreases usize::MAX - self.trial().steps,
        {
            let ghost now = self.trial();
            let ghost source_now = self.source();
            match self.run_next_step() {
                ExecuteResult::RandomSpaceExceed => {
                    proof {
                        lemma_run_runs_dry(
                            f,
                            Self::policy(),
                            start,
                            source_start,
                            now,
                            source_now,
                            self.trial(),
                            self.source(),
                        );
                    }
                    return ExecuteResult::RandomSpaceExceed;
                },
                ExecuteResult::Terminal { step } => {
                    proof {
                        lemma_round_terminal(
                            f,
                            Self::policy(),
                            now,
                            source_now,
                            self.trial(),
                            self.source(),
                            step as nat,
                        );
                        lemma_run_ends(f, Self::policy(), start, source_start, now, source_now, Some(step as nat));
                    }
                    return ExecuteResult::Terminal { step };
                },
                ExecuteResult::Running { resampled_clause } => {
                    proof {
                        lemma_run_goes_on(
                            f,
                            Self::policy(),
                            start,
                            source_start,
                            now,
                            source_now,
                            self.trial(),
                            self.source(),
                            Self::reported(resampled_clause),
                        );
                    }
                    if self.step_count() == usize::MAX {
                        if self.is_terminal() {
                            proof {
                                lemma_run_ends(
                                    f,
                                    Self::policy(),
                                    start,
                                    source_start,
                                    self.trial(),
                                    self.source(),
                                    Some(self.trial().steps),
                                );
                            }
                            return ExecuteResult::Terminal { step: self.step_count() };
                        }
                        proof {
                            lemma_run_ends(
                                f,
                                Self::policy(),
                                start,
                                source_start,
                                self.trial(),
                                self.source(),
                                None,
                            );
                        }
                        return ExecuteResult::Running { resampled_clause };
                    }
                },
            }
        }
    }

    fn is_terminal(&self) -> (b: bool) {
        self.inner.is_terminal()
    }

    fn step_count(&self) -> (n: usize) {
        self.inner.step_count()
    }

    fn restart(&mut self, random_space: R) {
        self.inner.restart(random_space)
    }
}

} // verus!
