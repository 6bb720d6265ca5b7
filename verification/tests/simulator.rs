use moser_tardos::moser_tardos_algorithm::{
    resampling, AlgorithmSimulator, ExecuteResult, MTsAlgorithmSimulator, NewAlgorithmSimulator,
};
use moser_tardos::random_space::{InfiniteRandomSpace, LimitedRandomSpace};
use moser_tardos::sat::SAT;

fn example() -> SAT {
    SAT::from_array([[-1, 2, 4], [1, 3, 5], [2, 4, 5], [-4, 5, 6]])
}

fn single(result: ExecuteResult<usize>) -> Result<usize, Option<usize>> {
    match result {
        ExecuteResult::Running { resampled_clause } => Ok(resampled_clause),
        ExecuteResult::Terminal { step } => Err(Some(step)),
        ExecuteResult::RandomSpaceExceed => Err(None),
    }
}

fn batch(result: ExecuteResult<Vec<usize>>) -> Result<Vec<usize>, Option<usize>> {
    match result {
        ExecuteResult::Running { resampled_clause } => Ok(resampled_clause),
        ExecuteResult::Terminal { step } => Err(Some(step)),
        ExecuteResult::RandomSpaceExceed => Err(None),
    }
}

#[test]
fn new_simulator_has_every_variable_false() {
    let sim = MTsAlgorithmSimulator::new(example(), LimitedRandomSpace::new(0, 0));
    assert_eq!(sim.get_varible(), &vec![false; 6]);
    assert!(sim.is_terminal());
    assert_eq!(sim.step_count(), 0);
}

#[test]
fn satisfying_start_is_terminal_at_once() {
    let mut sim = MTsAlgorithmSimulator::new(example(), LimitedRandomSpace::new(0b111111, 6));
    sim.run_init();
    assert_eq!(sim.get_varible(), &vec![true; 6]);
    assert!(sim.is_terminal());
    assert_eq!(single(sim.run_next_step()), Err(Some(0)));
    assert_eq!(single(sim.run_until_terminal()), Err(Some(0)));
}

#[test]
fn rounds_resample_the_lowest_violated_clause() {
    let mut sim = MTsAlgorithmSimulator::new(example(), LimitedRandomSpace::new(3648, 12));
    sim.run_init();
    assert_eq!(sim.get_varible(), &vec![false; 6]);
    assert!(!sim.is_terminal());
    assert_eq!(single(sim.run_next_step()), Ok(1));
    assert_eq!(sim.get_varible(), &vec![true, false, false, false, false, false]);
    assert_eq!(sim.step_count(), 1);
    assert_eq!(single(sim.run_next_step()), Ok(2));
    assert_eq!(sim.get_varible(), &vec![true, true, false, true, true, false]);
    assert_eq!(sim.step_count(), 2);
    assert!(sim.is_terminal());
    assert_eq!(single(sim.run_next_step()), Err(Some(2)));
    assert_eq!(sim.step_count(), 2);
}

#[test]
fn run_until_terminal_leaves_no_clause_violated() {
    let sat = example();
    let mut sim = MTsAlgorithmSimulator::new(sat.clone(), LimitedRandomSpace::new(3648, 12));
    sim.run_init();
    assert_eq!(single(sim.run_until_terminal()), Err(Some(2)));
    assert_eq!(sat.check_violated(sim.get_varible()), vec![false; 4]);
}

#[test]
fn exhausted_source_changes_nothing() {
    let mut sim = MTsAlgorithmSimulator::new(example(), LimitedRandomSpace::new(3648, 8));
    sim.run_init();
    assert_eq!(single(sim.run_next_step()), Err(None));
    assert_eq!(sim.get_varible(), &vec![false; 6]);
    assert!(!sim.is_terminal());
    assert_eq!(sim.step_count(), 0);
    assert_eq!(single(sim.run_next_step()), Err(None));
    assert_eq!(single(sim.run_until_terminal()), Err(None));
}

#[test]
fn run_until_terminal_reports_exhaustion() {
    let mut sim = MTsAlgorithmSimulator::new(example(), LimitedRandomSpace::new(3648, 10));
    sim.run_init();
    assert_eq!(single(sim.run_until_terminal()), Err(None));
    assert_eq!(sim.step_count(), 1);
    assert_eq!(sim.get_varible(), &vec![true, false, false, false, false, false]);
}

#[test]
fn earlier_clauses_are_not_examined_again() {
    let sat = SAT::from_vec(vec![vec![1], vec![-1]]);
    let mut sim = MTsAlgorithmSimulator::new(sat.clone(), LimitedRandomSpace::new(0b01, 2));
    sim.run_init();
    assert_eq!(sim.get_varible(), &vec![true]);
    assert_eq!(single(sim.run_next_step()), Ok(1));
    assert_eq!(sim.get_varible(), &vec![false]);
    assert!(sim.is_terminal());
    assert_eq!(single(sim.run_next_step()), Err(Some(1)));
    assert_eq!(sat.check_violated(sim.get_varible()), vec![true, false]);
}

#[test]
fn later_clauses_are_examined_again() {
    let sat = SAT::from_vec(vec![vec![1], vec![-1]]);
    let mut sim = MTsAlgorithmSimulator::new(sat, LimitedRandomSpace::new(0b0110, 4));
    sim.run_init();
    assert_eq!(sim.get_varible(), &vec![false]);
    assert_eq!(single(sim.run_next_step()), Ok(0));
    assert_eq!(sim.get_varible(), &vec![true]);
    assert_eq!(single(sim.run_next_step()), Ok(1));
    assert_eq!(sim.get_varible(), &vec![true]);
    assert_eq!(single(sim.run_next_step()), Ok(1));
    assert_eq!(sim.get_varible(), &vec![false]);
    assert_eq!(single(sim.run_next_step()), Err(Some(3)));
}

#[test]
fn empty_clause_is_resampled_for_ever() {
    let sat = SAT::from_vec(vec![vec![0], vec![1]]);
    let mut sim = MTsAlgorithmSimulator::new(sat, LimitedRandomSpace::new(1, 1));
    sim.run_init();
    for round in 0..50 {
        assert_eq!(sim.step_count(), round);
        assert_eq!(single(sim.run_next_step()), Ok(0));
    }
    assert!(!sim.is_terminal());
}

#[test]
fn restart_keeps_the_assignment() {
    let mut sim = MTsAlgorithmSimulator::new(example(), LimitedRandomSpace::new(3648, 12));
    sim.run_init();
    assert_eq!(single(sim.run_next_step()), Ok(1));
    sim.restart(LimitedRandomSpace::new(0b111111, 6));
    assert_eq!(sim.step_count(), 0);
    assert!(sim.is_terminal());
    assert_eq!(sim.get_varible(), &vec![true, false, false, false, false, false]);
    sim.run_init();
    assert_eq!(sim.get_varible(), &vec![true; 6]);
    assert!(sim.is_terminal());
}

#[test]
fn init_adds_to_the_record() {
    let sat = SAT::from_vec(vec![vec![1], vec![2]]);
    let mut sim = MTsAlgorithmSimulator::new(sat, LimitedRandomSpace::new(0b1001, 5));
    sim.run_init();
    assert_eq!(sim.get_varible(), &vec![true, false]);
    sim.run_init();
    assert_eq!(sim.get_varible(), &vec![false, true]);
    assert_eq!(single(sim.run_next_step()), Ok(0));
    assert_eq!(sim.get_varible(), &vec![false, true]);
    assert_eq!(single(sim.run_next_step()), Err(None));
}

#[test]
fn batched_round_resamples_all_violated_clauses() {
    let mut sim = NewAlgorithmSimulator::new(example(), LimitedRandomSpace::new(192, 11));
    sim.run_init();
    assert_eq!(sim.get_varible(), &vec![false; 6]);
    assert_eq!(batch(sim.run_next_step()), Ok(vec![1, 2]));
    assert_eq!(sim.get_varible(), &vec![true, true, false, false, false, false]);
    assert_eq!(sim.step_count(), 1);
    assert!(sim.is_terminal());
    assert_eq!(batch(sim.run_next_step()), Err(Some(1)));
    assert_eq!(batch(sim.run_until_terminal()), Err(Some(1)));
}

#[test]
fn batched_round_needs_a_bit_for_each_variable() {
    let mut sim = NewAlgorithmSimulator::new(example(), LimitedRandomSpace::new(192, 10));
    sim.run_init();
    assert_eq!(batch(sim.run_next_step()), Err(None));
    assert_eq!(sim.get_varible(), &vec![false; 6]);
    assert!(!sim.is_terminal());
    assert_eq!(sim.step_count(), 0);
}

#[test]
fn batched_round_keeps_what_stays_violated() {
    let mut sim = NewAlgorithmSimulator::new(example(), LimitedRandomSpace::new(64, 16));
    sim.run_init();
    assert_eq!(batch(sim.run_next_step()), Ok(vec![1, 2]));
    assert_eq!(sim.get_varible(), &vec![true, false, false, false, false, false]);
    assert_eq!(batch(sim.run_next_step()), Ok(vec![2]));
    assert_eq!(batch(sim.run_until_terminal()), Err(None));
    let sim = NewAlgorithmSimulator::new(example(), LimitedRandomSpace::new(0, 0));
    assert!(sim.is_terminal());
    assert_eq!(sim.get_varible(), &vec![false; 6]);
}

#[test]
fn both_simulators_end_on_random_bits() {
    let mut one = MTsAlgorithmSimulator::new(example(), InfiniteRandomSpace::new(3));
    one.run_init();
    assert!(single(one.run_until_terminal()).unwrap_err().is_some());
    assert!(one.is_terminal());
    let mut all = NewAlgorithmSimulator::new(example(), InfiniteRandomSpace::new(3));
    all.run_init();
    assert!(batch(all.run_until_terminal()).unwrap_err().is_some());
    assert!(all.is_terminal());
}

#[test]
fn resampling_gives_the_variables_fresh_bits_in_turn() {
    let mut var = vec![false, false, true];
    let mut space = LimitedRandomSpace::new(0b101, 3);
    assert_eq!(resampling(&mut var, &mut space, vec![3, 1, 3]), Ok(()));
    assert_eq!(var, vec![false, false, true]);
    let mut space = LimitedRandomSpace::new(0b011, 3);
    assert_eq!(resampling(&mut var, &mut space, vec![1, 2, 3]), Ok(()));
    assert_eq!(var, vec![true, true, false]);
}

#[test]
fn resampling_without_enough_bits_changes_nothing() {
    let mut var = vec![false, false, true];
    let mut space = LimitedRandomSpace::new(0b11, 2);
    assert_eq!(resampling(&mut var, &mut space, vec![1, 2, 3]), Err(()));
    assert_eq!(var, vec![false, false, true]);
}

#[test]
fn next_hands_on_the_rounds_that_were_made() {
    let mut sim = MTsAlgorithmSimulator::new(example(), LimitedRandomSpace::new(3648, 12));
    sim.run_init();
    assert_eq!(sim.next().map(single), Some(Ok(1)));
    assert_eq!(sim.next().map(single), Some(Ok(2)));
    assert!(sim.next().is_none());
    assert_eq!(sim.step_count(), 2);
    let mut dry = MTsAlgorithmSimulator::new(example(), LimitedRandomSpace::new(3648, 8));
    dry.run_init();
    assert!(dry.next().is_none());
    assert!(!dry.is_terminal());
    let mut all = NewAlgorithmSimulator::new(example(), LimitedRandomSpace::new(192, 11));
    all.run_init();
    assert_eq!(all.next().map(batch), Some(Ok(vec![1, 2])));
    assert!(all.next().is_none());
}
