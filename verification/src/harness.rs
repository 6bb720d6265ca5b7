//! Trials in numbers: benchmarks on random bits, and the enumeration of all
//! patterns of bits up to a number of rounds.

use crate::model::{
    advance, lemma_advance_more_bits, lemma_advance_terminal, started, Policy, Progress, Trial,
};
use crate::moser_tardos_algorithm::{
    lemma_round_terminal, lemma_run_begins, lemma_run_goes_on, lemma_run_runs_dry, round_outcome, run_outcome,
    run_so_far, AlgorithmSimulator, ExecuteResult,
};
use crate::random_space::{
    bits_of, drew, fresh_bits, random_random_space, random_space_of_nbits, InfiniteRandomSpace, LimitedRandomSpace,
    RandomSpace,
};
use crate::record::{lemma_advance_stays_within, lemma_started_sound};
use crate::sat::{clause_violated, Formula, SAT};
use crate::utility::new_vector;
use vstd::arithmetic::power2::pow2;
use vstd::prelude::*;

verus! {

/// The number of rounds that a probe makes before a benchmark starts.
pub const PROBE_ROUNDS: usize = 10000000;

/// The widest pattern of bits that an enumeration walks through.
pub const ENUMERATION_BITS: usize = 25;

/// What a benchmark came to.
#[derive(Debug)]
pub enum BenchResult {
    /// The probe did not come to an end, or a trial did not.
    Failed,
    /// Every trial came to an end; `steps` holds the rounds that each made.
    Success { steps: Vec<usize> },
}

/// What an enumeration came to.
#[derive(Debug)]
pub enum EnumResult {
    /// The patterns would be too wide, or the bits ran out in some round.
    Failed,
    /// For each number of rounds `i`, `count[i]` of the `2^bits` patterns
    /// leave the simulator with a violated clause on record after `i` rounds.
    Success { count: Vec<usize>, bits: usize },
}

/// The trial after a restart and an initialisation from the low bits of `seed`.
pub open spec fn seeded(f: Formula, seed: nat) -> Trial {
    started(
        f,
        Trial { assignment: Seq::empty(), violated: Set::empty(), steps: 0 },
        bits_of(seed, 0, f.variables),
    )
}

/// How far `i` rounds get on the pattern `seed` of `total` bits, of which the
/// low ones went into the initialisation.
pub open spec fn seed_progress(f: Formula, policy: Policy, seed: nat, total: nat, i: nat) -> Progress {
    advance(f, policy, seeded(f, seed), bits_of(seed, f.variables, (total - f.variables) as nat), i)
}

/// On pattern `seed`, a clause is still recorded as violated after `i` rounds.
pub open spec fn alive(f: Formula, policy: Policy, seed: nat, total: nat, i: nat) -> bool {
    seed_progress(f, policy, seed, total, i) is At && !seed_progress(f, policy, seed, total, i)->At_0.violated.is_empty()
}

/// The number of patterns below `upto` on which a clause is still recorded as
/// violated after `i` rounds.
pub open spec fn count_alive(f: Formula, policy: Policy, total: nat, i: nat, upto: nat) -> nat
    decreases upto,
{
    if upto == 0 {
        0
    } else {
        count_alive(f, policy, total, i, (upto - 1) as nat) + if alive(f, policy, (upto - 1) as nat, total, i) {
            1nat
        } else {
            0nat
        }
    }
}

/// On pattern `seed` the bits run out within `turn` rounds.
pub open spec fn runs_out(f: Formula, policy: Policy, seed: nat, total: nat, turn: nat) -> bool {
    exists|i: nat| i <= turn && #[trigger] seed_progress(f, policy, seed, total, i) is Exhausted
}

/// Some clause of the formula is empty, and so violated under every assignment.
pub open spec fn has_empty_clause(f: Formula) -> bool {
    exists|e: usize| e < f.clauses.len() && (#[trigger] f.clauses[e as int]).len() == 0
}

/// What a source of pattern `seed` has handed out since the initialisation
/// is a stretch of the pattern's bits, and the rounds made from it are the
/// rounds made from all that the pattern holds.
proof fn lemma_seed_view(
    f: Formula,
    policy: Policy,
    seed: nat,
    total: nat,
    start: Trial,
    source_start: LimitedRandomSpace,
    now: Trial,
    source_now: LimitedRandomSpace,
)
    requires
        f.variables <= total,
        start == seeded(f, seed),
        source_start@ == (crate::random_space::BitTape { seed, limit: total, pointer: f.variables }),
        source_now.wf(),
        run_so_far(f, policy, start, source_start, now, source_now),
    ensures
        seed_progress(f, policy, seed, total, (now.steps - start.steps) as nat) == Progress::At(
            now,
            fresh_bits(source_start, source_now).len(),
        ),
        source_now@.seed == seed,
        source_now@.limit == total,
        source_now@.pointer == f.variables + fresh_bits(source_start, source_now).len(),
        fresh_bits(source_start, source_now) + bits_of(
            seed,
            source_now@.pointer,
            (total - source_now@.pointer) as nat,
        ) == bits_of(seed, f.variables, (total - f.variables) as nat),
{
    let m = f.variables;
    let fresh = fresh_bits(source_start, source_now);
    let p = source_now@.pointer;
    assert(source_now.drawn().len() == p);
    assert(source_start.drawn().len() == m);
    assert(p == m + fresh.len());
    let rest = bits_of(seed, p, (total - p) as nat);
    let full = bits_of(seed, m, (total - m) as nat);
    assert(fresh + rest =~= full) by {
        assert forall|i: int| 0 <= i < full.len() implies (fresh + rest)[i] == full[i] by {
            if i < fresh.len() {
                assert(fresh[i] == source_now.drawn()[m + i]);
            } else {
                assert((fresh + rest)[i] == rest[i - fresh.len()]);
            }
        }
    }
    lemma_advance_more_bits(f, policy, start, fresh, rest, (now.steps - start.steps) as nat);
}

/// Replays the simulator on one pattern and adds one to `results[i]` for each
/// number of rounds `i` after which a clause is still recorded as violated.
/// The result is `false` where the bits ran out.
#[verifier::loop_isolation(false)]
fn enumerate_seed<A: AlgorithmSimulator<LimitedRandomSpace>>(
    sand_box: &mut A,
    r: LimitedRandomSpace,
    turn: usize,
    results: &mut Vec<usize>,
) -> (ok: bool)
    requires
        old(sand_box).wf(),
        old(sand_box).formula().variables <= r@.limit,
        r@.pointer == 0,
        turn < usize::MAX,
        old(results)@.len() == turn + 1,
        forall|i: int| 0 <= i <= turn ==> #[trigger] old(results)@[i] < usize::MAX,
    ensures
        final(sand_box).wf(),
        final(sand_box).formula() == old(sand_box).formula(),
        final(results)@.len() == turn + 1,
        ok ==> forall|i: int|
            0 <= i <= turn ==> #[trigger] final(results)@[i] == old(results)@[i] + if alive(
                old(sand_box).formula(),
                A::policy(),
                r@.seed,
                r@.limit,
                i as nat,
            ) {
                1int
            } else {
                0int
            },
        !ok ==> runs_out(old(sand_box).formula(), A::policy(), r@.seed, r@.limit, turn as nat),
{
    let ghost f = sand_box.formula();
    let ghost policy = A::policy();
    let ghost seed = r@.seed;
    let ghost total = r@.limit;
    let ghost before = results@;
    sand_box.restart(r);
    sand_box.run_init();
    let ghost start = sand_box.trial();
    let ghost source_start = sand_box.source();
    proof {
        let fresh = fresh_bits(r, source_start);
        assert(source_start.drawn() =~= fresh);
        assert(fresh =~= bits_of(seed, 0, f.variables));
        assert(start.violated =~= seeded(f, seed).violated);
        assert(start == seeded(f, seed));
        sand_box.lemma_well_formed();
        lemma_run_begins(f, policy, start, source_start);
        lemma_seed_view(f, policy, seed, total, start, source_start, start, source_start);
    }
    if sand_box.is_terminal() {
        proof {
            assert forall|i: nat| seed_progress(f, policy, seed, total, i) == Progress::At(start, 0) by {
                lemma_advance_terminal(
                    f,
                    policy,
                    start,
                    bits_of(seed, f.variables, (total - f.variables) as nat),
                    0,
                    i,
                );
            }
        }
        return true;
    }
    let first = results[0] + 1;
    results.set(0, first);
    let mut i: usize = 1;
    while i <= turn
        invariant
            1 <= i <= turn + 1,
            sand_box.wf(),
            sand_box.formula() == f,
            results@.len() == turn + 1,
            run_so_far(f, policy, start, source_start, sand_box.trial(), sand_box.source()),
            sand_box.trial().steps == start.steps + i - 1,
            start.steps == 0,
            !sand_box.trial().violated.is_empty(),
            forall|j: int| 0 <= j < i ==> #[trigger] results@[j] == before[j] + 1,
            forall|j: int| i <= j <= turn ==> #[trigger] results@[j] == before[j],
            forall|j: nat| j < i ==> #[trigger] alive(f, policy, seed, total, j),
        decreases turn + 1 - i,
    {
        let ghost now = sand_box.trial();
        let ghost source_now = sand_box.source();
        let round = sand_box.run_next_step();
        match round {
            ExecuteResult::RandomSpaceExceed => {
                proof {
                    lemma_run_runs_dry(
                        f,
                        policy,
                        start,
                        source_start,
                        now,
                        source_now,
                        sand_box.trial(),
                        sand_box.source(),
                    );
                    let source_next = sand_box.source();
                    sand_box.lemma_well_formed();
                    let fresh = fresh_bits(source_start, source_next);
                    assert(source_next.drawn().len() == source_next@.pointer);
                    assert(source_start.drawn().len() == f.variables);
                    assert(source_next@.seed == seed && source_next@.limit == total);
                    assert(source_next@.pointer == total);
                    assert(fresh =~= bits_of(seed, f.variables, (total - f.variables) as nat));
                    assert(seed_progress(f, policy, seed, total, i as nat) is Exhausted);
                }
                return false;
            },
            ExecuteResult::Terminal { step } => {
                proof {
                    lemma_round_terminal(
                        f,
                        policy,
                        now,
                        source_now,
                        sand_box.trial(),
                        sand_box.source(),
                        step as nat,
                    );
                }
                assert(false);
            },
            ExecuteResult::Running { resampled_clause } => {
                proof {
                    lemma_run_goes_on(
                        f,
                        policy,
                        start,
                        source_start,
                        now,
                        source_now,
                        sand_box.trial(),
                        sand_box.source(),
                        A::reported(resampled_clause),
                    );
                }
            },
        }
        proof {
            sand_box.lemma_well_formed();
            lemma_seed_view(f, policy, seed, total, start, source_start, sand_box.trial(), sand_box.source());
        }
        if sand_box.is_terminal() {
            proof {
                assert forall|j: nat| j < i implies seed_progress(f, policy, seed, total, j) is At by {
                    assert(alive(f, policy, seed, total, j));
                }
                assert forall|j: nat| i <= j implies seed_progress(f, policy, seed, total, j) == seed_progress(
                    f,
                    policy,
                    seed,
                    total,
                    i as nat,
                ) by {
                    lemma_advance_terminal(
                        f,
                        policy,
                        start,
                        bits_of(seed, f.variables, (total - f.variables) as nat),
                        i as nat,
                        (j - i) as nat,
                    );
                }
                }
            return true;
        }
        let more = results[i] + 1;
        results.set(i, more);
        i += 1;
    }
    proof {
        assert forall|j: nat| j <= turn implies seed_progress(f, policy, seed, total, j) is At by {
            assert(alive(f, policy, seed, total, j));
        }
    }
    true
}

/// No more patterns are counted than there are.
proof fn lemma_count_alive_bound(f: Formula, policy: Policy, total: nat, i: nat, upto: nat)
    ensures
        count_alive(f, policy, total, i, upto) <= upto,
    decreases upto,
{
    if upto > 0 {
        lemma_count_alive_bound(f, policy, total, i, (upto - 1) as nat);
    }
}

/// The number of bits that an enumeration of `turn` rounds walks through:
/// one bit for each variable in the initialisation and in each round.
pub open spec fn enumeration_width(f: Formula, turn: nat) -> nat {
    f.variables * (turn + 1)
}

/// On no pattern do the bits run out: a round draws at most one bit for each
/// variable, and a pattern holds that many for the initialisation and for
/// each round.
pub proof fn lemma_never_runs_out(f: Formula, policy: Policy, seed: nat, turn: nat)
    requires
        f.wf(),
    ensures
        !runs_out(f, policy, seed, enumeration_width(f, turn), turn),
{
    let m = f.variables;
    let total = enumeration_width(f, turn);
    assert forall|i: nat| i <= turn implies !(#[trigger] seed_progress(f, policy, seed, total, i) is Exhausted) by {
        let none = Trial { assignment: Seq::empty(), violated: Set::empty(), steps: 0 };
        lemma_started_sound(f, none, bits_of(seed, 0, m));
        assert(m * i <= total - m) by (nonlinear_arith)
            requires
                i <= turn,
                total == m * (turn + 1),
        ;
        lemma_advance_stays_within(f, policy, seeded(f, seed), bits_of(seed, m, (total - m) as nat), i);
    }
}

/// Replays the simulator on every pattern of `variables * (turn + 1)` bits:
/// the low bits of a pattern initialise the assignment, the others feed up
/// to `turn` rounds. The result counts, for each number of rounds, the
/// patterns that leave a clause recorded as violated. It is `Failed` where
/// the patterns would be wider than 25 bits, and only there.
#[verifier::loop_isolation(false)]
pub fn enum_algorithm<A: AlgorithmSimulator<LimitedRandomSpace>>(sat: &SAT, turn: usize) -> (r: EnumResult)
    requires
        sat.wf(),
        turn < usize::MAX,
    ensures
        match r {
            EnumResult::Failed => enumeration_width(sat@, turn as nat) > ENUMERATION_BITS,
            EnumResult::Success { count, bits } => {
                &&& bits == enumeration_width(sat@, turn as nat)
                &&& bits <= ENUMERATION_BITS
                &&& count@.len() == turn + 1
                &&& forall|i: int|
                    0 <= i <= turn ==> #[trigger] count@[i] == count_alive(
                        sat@,
                        A::policy(),
                        bits as nat,
                        i as nat,
                        pow2(bits as nat),
                    )
            },
        },
{
    let ghost f = sat@;
    let ghost policy = A::policy();
    let ghost total = enumeration_width(f, turn as nat);
    let m = sat.variable_count();
    if m > ENUMERATION_BITS || (m > 0 && turn >= ENUMERATION_BITS) {
        assert(total > ENUMERATION_BITS) by (nonlinear_arith)
            requires
                total == m * (turn + 1),
                m > 25 || (m > 0 && turn >= 25),
        ;
        return EnumResult::Failed;
    }
    assert(m * (turn + 1) <= 625 && m <= m * (turn + 1)) by (nonlinear_arith)
        requires
            m <= 25,
            m == 0 || turn < 25,
    ;
    let bits = if m == 0 {
        0
    } else {
        m * (turn + 1)
    };
    assert(bits == total) by (nonlinear_arith)
        requires
            total == m * (turn + 1),
            bits == if m == 0 {
                0
            } else {
                m * (turn + 1)
            },
    ;
    if bits > ENUMERATION_BITS {
        return EnumResult::Failed;
    }
    let mut results: Vec<usize> = new_vector(turn + 1, 0usize);
    let mut sand_box = A::new(sat.clone(), LimitedRandomSpace::new(0, 0));
    let mut it = random_space_of_nbits(bits);
    proof {
        vstd::arithmetic::power2::lemma2_to64();
        if bits < 25 {
            vstd::arithmetic::power2::lemma_pow2_strictly_increases(bits as nat, 25);
        }
    }
    loop
        invariant
            it.wf(),
            it.width() == bits,
            sand_box.wf(),
            sand_box.formula() == f,
            results@.len() == turn + 1,
            pow2(bits as nat) <= 0x2000000,
            forall|i: int|
                0 <= i <= turn ==> #[trigger] results@[i] == count_alive(f, policy, total, i as nat, it.position()),
        decreases pow2(bits as nat) - it.position(),
    {
        let ghost position = it.position();
        match it.next() {
            None => {
                return EnumResult::Success { count: results, bits };
            },
            Some(r) => {
                proof {
                    assert forall|i: int| 0 <= i <= turn implies #[trigger] results@[i] < usize::MAX by {
                        lemma_count_alive_bound(f, policy, total, i as nat, position);
                    }
                }
                let ghost before = results@;
                if !enumerate_seed::<A>(&mut sand_box, r, turn, &mut results) {
                    proof {
                        lemma_never_runs_out(f, policy, position, turn as nat);
                    }
                    return EnumResult::Failed;
                }
                proof {
                    assert forall|i: int| 0 <= i <= turn implies #[trigger] results@[i] == count_alive(
                        f,
                        policy,
                        total,
                        i as nat,
                        position + 1,
                    ) by {
                        assert(before[i] == count_alive(f, policy, total, i as nat, position));
                    }
                }
            },
        }
    }
}

/// No clause of the formula is violated under any assignment of its
/// variables; so it is where each clause holds a literal and its negation,
/// and where there is no clause.
pub open spec fn never_violated(f: Formula) -> bool {
    forall|i: int, a: Seq<bool>|
        0 <= i < f.clauses.len() && a.len() == f.variables ==> !#[trigger] clause_violated(f.clauses[i], a)
}

/// How far `k` rounds get on the bits `bits` of a trial that starts afresh:
/// the first bits, one for each variable, initialise the assignment, the
/// others feed the rounds.
pub open spec fn trial_progress(f: Formula, policy: Policy, bits: Seq<bool>, k: nat) -> Progress {
    advance(
        f,
        policy,
        started(
            f,
            Trial { assignment: Seq::empty(), violated: Set::empty(), steps: 0 },
            bits.take(f.variables as int),
        ),
        bits.skip(f.variables as int),
        k,
    )
}

/// On the bits `bits`, a trial that starts afresh makes `k` rounds and uses
/// all the bits for them.
pub open spec fn runs_for(f: Formula, policy: Policy, bits: Seq<bool>, k: nat) -> bool {
    &&& bits.len() >= f.variables
    &&& trial_progress(f, policy, bits, k) is At
    &&& trial_progress(f, policy, bits, k)->At_0.steps == k
    &&& trial_progress(f, policy, bits, k)->At_1 == bits.len() - f.variables
}

/// On the bits `bits`, a trial that starts afresh comes to an end with its
/// round number `k`: after it no clause is on record, and all the bits are
/// used.
pub open spec fn ends_after(f: Formula, policy: Policy, bits: Seq<bool>, k: nat) -> bool {
    runs_for(f, policy, bits, k) && trial_progress(f, policy, bits, k)->At_0.violated.is_empty()
}

/// On some bits, a trial that starts afresh makes `k` rounds.
pub open spec fn some_run_for(f: Formula, policy: Policy, k: nat) -> bool {
    exists|bits: Seq<bool>| runs_for(f, policy, bits, k)
}

/// On some bits, a trial that starts afresh comes to an end with its round
/// number `k`.
pub open spec fn some_end_after(f: Formula, policy: Policy, k: nat) -> bool {
    exists|bits: Seq<bool>| ends_after(f, policy, bits, k)
}

/// What a trial has reached by rounds since its initialisation is what the
/// bits that it has drawn since its start make of a trial that starts
/// afresh.
proof fn lemma_trial_on_bits<R: RandomSpace>(
    f: Formula,
    policy: Policy,
    before: Trial,
    source_before: R,
    start: Trial,
    source_start: R,
    now: Trial,
    source_now: R,
)
    requires
        before.violated.is_empty(),
        before.steps == 0,
        fresh_bits(source_before, source_start).len() == f.variables,
        drew(source_before, source_start, fresh_bits(source_before, source_start)),
        start == started(f, before, fresh_bits(source_before, source_start)),
        run_so_far(f, policy, start, source_start, now, source_now),
    ensures
        runs_for(f, policy, fresh_bits(source_before, source_now), now.steps),
        trial_progress(f, policy, fresh_bits(source_before, source_now), now.steps)->At_0 == now,
{
    let first = fresh_bits(source_before, source_start);
    let rest = fresh_bits(source_start, source_now);
    crate::random_space::lemma_drew_chain(source_before, source_start, source_now, first, rest);
    let bits = fresh_bits(source_before, source_now);
    assert(bits.take(f.variables as int) =~= first);
    assert(bits.skip(f.variables as int) =~= rest);
    let afresh = started(f, Trial { assignment: Seq::empty(), violated: Set::empty(), steps: 0 }, first);
    assert(afresh.violated =~= start.violated);
    assert(afresh == start);
}

/// A run of rounds that did not run out of bits has made of the trial what
/// its rounds make of it.
proof fn lemma_run_so_far<R: RandomSpace>(
    f: Formula,
    policy: Policy,
    before: Trial,
    source_before: R,
    after: Trial,
    source_after: R,
    terminal: Option<nat>,
)
    requires
        run_outcome(f, policy, before, source_before, after, source_after, terminal, false),
    ensures
        run_so_far(f, policy, before, source_before, after, source_after),
        terminal is Some ==> after.violated.is_empty() && terminal == Some(after.steps),
        terminal is None ==> after.steps == usize::MAX,
{
}

/// A source without end never lets a run of rounds run out of bits.
proof fn lemma_endless_run(
    f: Formula,
    policy: Policy,
    before: Trial,
    source_before: InfiniteRandomSpace,
    after: Trial,
    source_after: InfiniteRandomSpace,
    terminal: Option<nat>,
    exceeded: bool,
)
    requires
        run_outcome(f, policy, before, source_before, after, source_after, terminal, exceeded),
    ensures
        !exceeded,
{
}

/// On a formula whose clauses are never violated, an initialisation from an
/// empty record leaves the record empty.
proof fn lemma_started_on_nothing(f: Formula, t: Trial, bits: Seq<bool>)
    requires
        f.wf(),
        never_violated(f),
        t.violated.is_empty(),
        bits.len() == f.variables,
    ensures
        started(f, t, bits).violated.is_empty(),
        started(f, t, bits).steps == t.steps,
{
    let v = started(f, t, bits).violated;
    assert forall|d: usize| !v.contains(d) by {
        if v.contains(d) {
            assert(clause_violated(f.clauses[d as int], bits));
        }
    }
    assert(v =~= Set::<usize>::empty());
}

/// A round on an empty record is `Terminal` and changes nothing.
proof fn lemma_round_on_nothing<R: RandomSpace>(
    f: Formula,
    policy: Policy,
    now: Trial,
    source_now: R,
    next: Trial,
    source_next: R,
    terminal: Option<nat>,
    exceeded: bool,
    reported: Option<Seq<usize>>,
)
    requires
        round_outcome(f, policy, now, source_now, next, source_next, terminal, exceeded, reported),
        now.violated.is_empty(),
    ensures
        next == now,
        source_next == source_now,
        terminal == Some(now.steps),
{
    reveal(round_outcome);
}

/// A run of rounds on an empty record is `Terminal` at once.
proof fn lemma_run_on_nothing<R: RandomSpace>(
    f: Formula,
    policy: Policy,
    before: Trial,
    source_before: R,
    after: Trial,
    source_after: R,
    terminal: Option<nat>,
    exceeded: bool,
)
    requires
        run_outcome(f, policy, before, source_before, after, source_after, terminal, exceeded),
        before.violated.is_empty(),
    ensures
        after == before,
        !exceeded,
        terminal == Some(before.steps),
{
    let fresh = fresh_bits(source_before, source_after);
    let k = (after.steps - before.steps) as nat;
    crate::model::lemma_advance_none(f, policy, before, fresh);
    lemma_advance_terminal(f, policy, before, fresh, 0, k);
    lemma_advance_terminal(f, policy, before, fresh, 0, k + 1);
}

/// A clause that holds a literal and its negation is violated under no
/// assignment; a formula of such clauses is never violated.
pub proof fn lemma_clashing_clauses_never_violated(f: Formula)
    requires
        f.wf(),
        forall|i: int| 0 <= i < f.clauses.len() ==> crate::sat::clash(#[trigger] f.clauses[i], f.clauses[i]),
    ensures
        never_violated(f),
{
    assert forall|i: int, a: Seq<bool>| 0 <= i < f.clauses.len() && a.len() == f.variables implies !#[trigger] clause_violated(
        f.clauses[i],
        a,
    ) by {
        let c = f.clauses[i];
        assert(crate::sat::clash(c, c));
        let (x, y) = choose|x: int, y: int| #![trigger c[x], c[y]] 0 <= x < c.len() && 0 <= y < c.len() && c[x] + c[y] == 0;
        assert(1 <= crate::sat::lit_var(c[x]) <= f.variables);
        assert(crate::sat::lit_holds(c[x], a) != crate::sat::lit_holds(c[y], a));
    }
}

/// What a benchmark comes to, whatever bits the sources hand out. It is
/// `Success` only where the probe has come to an end within `limits` rounds
/// and each of the `n` trials has come to an end; then `steps` holds, for
/// each trial in turn, the number of the round with which it ended. It is
/// `Failed` only where the probe has made `limits + 1` rounds, or where a
/// trial has made as many rounds as a machine word counts.
pub open spec fn bench_outcome(f: Formula, policy: Policy, n: nat, limits: nat, r: BenchResult) -> bool {
    match r {
        BenchResult::Success { steps } => {
            &&& steps@.len() == n
            &&& exists|k: nat| k <= limits && #[trigger] some_end_after(f, policy, k)
            &&& forall|i: int| 0 <= i < n ==> some_end_after(f, policy, #[trigger] steps@[i] as nat)
        },
        BenchResult::Failed => {
            ||| some_run_for(f, policy, limits + 1)
            ||| some_run_for(f, policy, usize::MAX as nat)
        },
    }
}

/// Probes the simulator with `limits + 1` rounds on random bits, then makes
/// `n` trials on fresh random bits and collects the rounds that each made.
/// The result is `Failed` where the probe has not come to an end, or where a
/// trial has not; see [`bench_outcome`]. On a formula whose clauses are never
/// violated the result is `Success` with no round for any trial; on a formula
/// with an empty clause it is `Failed`.
#[verifier::loop_isolation(false)]
pub fn bench_algorithm_within<A: AlgorithmSimulator<InfiniteRandomSpace>>(sat: &SAT, n: usize, limits: usize) -> (r:
    BenchResult)
    requires
        sat.wf(),
        limits < usize::MAX,
    ensures
        bench_outcome(sat@, A::policy(), n as nat, limits as nat, r),
        never_violated(sat@) ==> r is Success && forall|i: int| 0 <= i < n ==> r->steps@[i] == 0,
        has_empty_clause(sat@) ==> r is Failed,
{
    let ghost f = sat@;
    let ghost policy = A::policy();
    let mut sand_box = A::new(sat.clone(), random_random_space());
    let mut results: Vec<usize> = Vec::new();
    let ghost before = sand_box.trial();
    let ghost source_before = sand_box.source();
    sand_box.run_init();
    let ghost start = sand_box.trial();
    let ghost source_start = sand_box.source();
    proof {
        lemma_empty_clause_stays_at_start::<InfiniteRandomSpace, A>(&sand_box);
        lemma_run_begins(f, policy, start, source_start);
        if never_violated(f) {
            lemma_started_on_nothing(f, before, fresh_bits(source_before, source_start));
        }
    }
    let mut i: usize = 0;
    while i < limits
        invariant
            i <= limits,
            sand_box.wf(),
            sand_box.formula() == f,
            sand_box.trial().steps <= i,
            sand_box.trial().steps < i ==> sand_box.trial().violated.is_empty(),
            run_so_far(f, policy, start, source_start, sand_box.trial(), sand_box.source()),
            has_empty_clause(f) ==> !sand_box.trial().violated.is_empty() && covers_empty(f, sand_box.trial()),
            never_violated(f) ==> sand_box.trial().violated.is_empty(),
        decreases limits - i,
    {
        let ghost now = sand_box.trial();
        let ghost source_now = sand_box.source();
        let round = sand_box.run_next_step();
        proof {
            lemma_round_keeps_empty_clause(
                f,
                policy,
                now,
                source_now,
                sand_box.trial(),
                sand_box.source(),
                round.terminal_step(),
                round is RandomSpaceExceed,
                report_of::<InfiniteRandomSpace, A>(round),
            );
            lemma_probe_round(
                f,
                policy,
                start,
                source_start,
                now,
                source_now,
                sand_box.trial(),
                sand_box.source(),
                round.terminal_step(),
                round is RandomSpaceExceed,
                report_of::<InfiniteRandomSpace, A>(round),
            );
        }
        i += 1;
    }
    let ghost now = sand_box.trial();
    let ghost source_now = sand_box.source();
    let last = sand_box.run_next_step();
    proof {
        lemma_round_keeps_empty_clause(
            f,
            policy,
            now,
            source_now,
            sand_box.trial(),
            sand_box.source(),
            last.terminal_step(),
            last is RandomSpaceExceed,
            report_of::<InfiniteRandomSpace, A>(last),
        );
        lemma_probe_round(
            f,
            policy,
            start,
            source_start,
            now,
            source_now,
            sand_box.trial(),
            sand_box.source(),
            last.terminal_step(),
            last is RandomSpaceExceed,
            report_of::<InfiniteRandomSpace, A>(last),
        );
        lemma_trial_on_bits(
            f,
            policy,
            before,
            source_before,
            start,
            source_start,
            sand_box.trial(),
            sand_box.source(),
        );
    }
    let ghost probe_bits = fresh_bits(source_before, sand_box.source());
    let ghost probe_rounds = sand_box.trial().steps;
    match last {
        ExecuteResult::Running { .. } => {
            assert(runs_for(f, policy, probe_bits, (limits + 1) as nat));
            return BenchResult::Failed;
        },
        _ => {},
    }
    assert(probe_rounds <= limits && ends_after(f, policy, probe_bits, probe_rounds));
    assert(some_end_after(f, policy, probe_rounds));
    let mut t: usize = 0;
    while t < n
        invariant
            t <= n,
            sand_box.wf(),
            sand_box.formula() == f,
            results@.len() == t,
            !has_empty_clause(f),
            some_end_after(f, policy, probe_rounds),
            probe_rounds <= limits,
            forall|j: int| 0 <= j < t ==> some_end_after(f, policy, #[trigger] results@[j] as nat),
            never_violated(f) ==> forall|j: int| 0 <= j < t ==> results@[j] == 0,
        decreases n - t,
    {
        sand_box.restart(random_random_space());
        let ghost again = sand_box.trial();
        let ghost source_again = sand_box.source();
        sand_box.run_init();
        let ghost begun = sand_box.trial();
        let ghost source_begun = sand_box.source();
        proof {
            if never_violated(f) {
                lemma_started_on_nothing(f, again, fresh_bits(source_again, source_begun));
            }
        }
        let ghost collected = results@;
        let end = sand_box.run_until_terminal();
        proof {
            lemma_endless_run(
                f,
                policy,
                begun,
                source_begun,
                sand_box.trial(),
                sand_box.source(),
                end.terminal_step(),
                end is RandomSpaceExceed,
            );
            lemma_run_so_far(f, policy, begun, source_begun, sand_box.trial(), sand_box.source(), end.terminal_step());
            lemma_trial_on_bits(
                f,
                policy,
                again,
                source_again,
                begun,
                source_begun,
                sand_box.trial(),
                sand_box.source(),
            );
            if never_violated(f) {
                lemma_run_on_nothing(
                    f,
                    policy,
                    begun,
                    source_begun,
                    sand_box.trial(),
                    sand_box.source(),
                    end.terminal_step(),
                    end is RandomSpaceExceed,
                );
            }
        }
        let ghost trial_bits = fresh_bits(source_again, sand_box.source());
        match end {
            ExecuteResult::Terminal { step } => {
                results.push(step);
                proof {
                    assert(ends_after(f, policy, trial_bits, step as nat));
                    assert forall|j: int| 0 <= j < t + 1 implies some_end_after(
                        f,
                        policy,
                        #[trigger] results@[j] as nat,
                    ) by {
                        if j < t {
                            assert(results@[j] == collected[j]);
                        }
                    }
                }
            },
            _ => {
                assert(runs_for(f, policy, trial_bits, usize::MAX as nat));
                return BenchResult::Failed;
            },
        }
        t += 1;
    }
    BenchResult::Success { steps: results }
}

/// A round of the probe: the trial goes on from what the probe has made of
/// it, and once no clause is on record the probe stays where it is.
proof fn lemma_probe_round(
    f: Formula,
    policy: Policy,
    start: Trial,
    source_start: InfiniteRandomSpace,
    now: Trial,
    source_now: InfiniteRandomSpace,
    next: Trial,
    source_next: InfiniteRandomSpace,
    terminal: Option<nat>,
    exceeded: bool,
    reported: Option<Seq<usize>>,
)
    requires
        run_so_far(f, policy, start, source_start, now, source_now),
        round_outcome(f, policy, now, source_now, next, source_next, terminal, exceeded, reported),
        terminal is Some ==> !exceeded && reported is None,
        exceeded ==> reported is None,
        terminal is Some || exceeded || reported is Some,
    ensures
        run_so_far(f, policy, start, source_start, next, source_next),
        !exceeded,
        reported is Some ==> next.steps == now.steps + 1 && !now.violated.is_empty(),
        reported is None ==> next == now && now.violated.is_empty(),
{
    if reported is Some {
        lemma_run_goes_on(f, policy, start, source_start, now, source_now, next, source_next, reported->0);
        reveal(round_outcome);
    } else {
        reveal(round_outcome);
    }
}

/// A benchmark whose probe makes ten million rounds; see
/// [`bench_algorithm_within`].
pub fn bench_algorithm<A: AlgorithmSimulator<InfiniteRandomSpace>>(sat: &SAT, n: usize) -> (r: BenchResult)
    requires
        sat.wf(),
    ensures
        bench_outcome(sat@, A::policy(), n as nat, PROBE_ROUNDS as nat, r),
        never_violated(sat@) ==> r is Success && forall|i: int| 0 <= i < n ==> r->steps@[i] == 0,
        has_empty_clause(sat@) ==> r is Failed,
{
    bench_algorithm_within::<A>(sat, n, PROBE_ROUNDS)
}

/// Whether the simulator, started on random bits, comes to an end within ten
/// million rounds: the result is `true` only where, on the bits that the
/// source hands out, a trial ends after fewer rounds than that, and `false`
/// only where it makes that many. On a formula whose clauses are never
/// violated it ends at once; on a formula with an empty clause it does not
/// end.
#[verifier::loop_isolation(false)]
pub fn run_algorithm<A: AlgorithmSimulator<InfiniteRandomSpace>>(sat: &SAT) -> (done: bool)
    requires
        sat.wf(),
    ensures
        done ==> exists|k: nat| k < PROBE_ROUNDS && #[trigger] some_end_after(sat@, A::policy(), k),
        !done ==> some_run_for(sat@, A::policy(), PROBE_ROUNDS as nat),
        never_violated(sat@) ==> done,
        has_empty_clause(sat@) ==> !done,
{
    let ghost f = sat@;
    let ghost policy = A::policy();
    let mut sand_box = A::new(sat.clone(), random_random_space());
    let ghost before = sand_box.trial();
    let ghost source_before = sand_box.source();
    sand_box.run_init();
    let ghost start = sand_box.trial();
    let ghost source_start = sand_box.source();
    proof {
        lemma_empty_clause_stays_at_start::<InfiniteRandomSpace, A>(&sand_box);
        lemma_run_begins(f, policy, start, source_start);
        if never_violated(f) {
            lemma_started_on_nothing(f, before, fresh_bits(source_before, source_start));
        }
    }
    let mut i: usize = 0;
    while i < PROBE_ROUNDS
        invariant
            i <= PROBE_ROUNDS,
            sand_box.wf(),
            sand_box.formula() == f,
            f == sat@,
            sand_box.trial().steps == i,
            run_so_far(f, policy, start, source_start, sand_box.trial(), sand_box.source()),
            has_empty_clause(f) ==> !sand_box.trial().violated.is_empty() && covers_empty(f, sand_box.trial()),
            never_violated(f) ==> sand_box.trial().violated.is_empty() && i == 0,
        decreases PROBE_ROUNDS - i,
    {
        let ghost now = sand_box.trial();
        let ghost source_now = sand_box.source();
        let round = sand_box.run_next_step();
        proof {
            lemma_round_keeps_empty_clause(
                f,
                policy,
                now,
                source_now,
                sand_box.trial(),
                sand_box.source(),
                round.terminal_step(),
                round is RandomSpaceExceed,
                report_of::<InfiniteRandomSpace, A>(round),
            );
            lemma_probe_round(
                f,
                policy,
                start,
                source_start,
                now,
                source_now,
                sand_box.trial(),
                sand_box.source(),
                round.terminal_step(),
                round is RandomSpaceExceed,
                report_of::<InfiniteRandomSpace, A>(round),
            );
            lemma_trial_on_bits(
                f,
                policy,
                before,
                source_before,
                start,
                source_start,
                sand_box.trial(),
                sand_box.source(),
            );
            if never_violated(f) {
                lemma_round_on_nothing(
                    f,
                    policy,
                    now,
                    source_now,
                    sand_box.trial(),
                    sand_box.source(),
                    round.terminal_step(),
                    round is RandomSpaceExceed,
                    report_of::<InfiniteRandomSpace, A>(round),
                );
            }
        }
        match round {
            ExecuteResult::Terminal { .. } => {
                assert(ends_after(f, policy, fresh_bits(source_before, sand_box.source()), i as nat));
                assert(some_end_after(f, policy, i as nat));
                return true;
            },
            ExecuteResult::RandomSpaceExceed => {
                return false;
            },
            _ => {},
        }
        i += 1;
    }
    proof {
        lemma_trial_on_bits(f, policy, before, source_before, start, source_start, sand_box.trial(), sand_box.source());
        assert(runs_for(f, policy, fresh_bits(source_before, sand_box.source()), PROBE_ROUNDS as nat));
    }
    false
}

/// The clause ids that a `Running` result of simulator `A` names, in order.
pub open spec fn report_of<R: RandomSpace, A: AlgorithmSimulator<R>>(r: ExecuteResult<A::ResamplingType>) -> Option<
    Seq<usize>,
> {
    match r.resampled() {
        Some(x) => Some(A::reported(x)),
        None => None,
    }
}

/// Every empty clause is on record.
pub open spec fn covers_empty(f: Formula, t: Trial) -> bool {
    forall|e: usize| e < f.clauses.len() && (#[trigger] f.clauses[e as int]).len() == 0 ==> t.violated.contains(e)
}

/// After the initialisation every empty clause is on record.
proof fn lemma_empty_clause_stays_at_start<R: RandomSpace, A: AlgorithmSimulator<R>>(sim: &A)
    requires
        sim.wf(),
        exists|t: Trial, bits: Seq<bool>| sim.trial() == started(sim.formula(), t, bits),
    ensures
        covers_empty(sim.formula(), sim.trial()),
        has_empty_clause(sim.formula()) ==> !sim.trial().violated.is_empty(),
{
    let f = sim.formula();
    let (t, bits) = choose|t: Trial, bits: Seq<bool>| sim.trial() == started(f, t, bits);
    assert forall|e: usize| e < f.clauses.len() && (#[trigger] f.clauses[e as int]).len() == 0 implies sim.trial().violated.contains(
        e,
    ) by {
        assert(crate::model::violated_set(f, bits).contains(e));
    }
    if has_empty_clause(f) {
        let e = choose|e: usize| e < f.clauses.len() && (#[trigger] f.clauses[e as int]).len() == 0;
        assert(sim.trial().violated.contains(e));
    }
}

/// A round keeps every empty clause on record; so a formula with an empty
/// clause, drawing from a source without end, makes a round every time.
proof fn lemma_round_keeps_empty_clause<R: RandomSpace>(
    f: Formula,
    policy: Policy,
    now: Trial,
    source_now: R,
    next: Trial,
    source_next: R,
    terminal: Option<nat>,
    exceeded: bool,
    reported: Option<Seq<usize>>,
)
    requires
        round_outcome(f, policy, now, source_now, next, source_next, terminal, exceeded, reported),
        terminal is Some ==> !exceeded && reported is None,
        exceeded ==> reported is None,
        terminal is Some || exceeded || reported is Some,
    ensures
        next.steps <= now.steps + 1,
        covers_empty(f, now) ==> covers_empty(f, next),
        has_empty_clause(f) && covers_empty(f, now) ==> !next.violated.is_empty() && terminal is None,
        source_now.remaining() is None ==> !exceeded,
{
    reveal(round_outcome);
    let fresh = fresh_bits(source_now, source_next);
    if reported is Some {
        assert(next == crate::model::stepped(f, policy, now, fresh));
        crate::model::lemma_stepped_counts(f, policy, now, fresh);
        if covers_empty(f, now) {
            assert forall|e: usize|
                e < f.clauses.len() && (#[trigger] f.clauses[e as int]).len() == 0 implies next.violated.contains(
                e,
            ) by {
                crate::model::lemma_stepped_keeps_empty(f, policy, now, fresh, e);
            }
        }
    } else {
        assert(next == now);
    }
    if has_empty_clause(f) && covers_empty(f, now) {
        let e = choose|e: usize| e < f.clauses.len() && (#[trigger] f.clauses[e as int]).len() == 0;
        assert(now.violated.contains(e));
        assert(next.violated.contains(e));
    }
}

} // verus!
