use moser_tardos::harness::{bench_algorithm, bench_algorithm_within, enum_algorithm, run_algorithm, BenchResult, EnumResult};
use moser_tardos::moser_tardos_algorithm::{MTsAlgorithmSimulator, NewAlgorithmSimulator};
use moser_tardos::random_space::{InfiniteRandomSpace, LimitedRandomSpace};
use moser_tardos::sat::SAT;

type One = MTsAlgorithmSimulator<LimitedRandomSpace>;
type All = NewAlgorithmSimulator<LimitedRandomSpace>;

fn counts(result: EnumResult) -> Option<(Vec<usize>, usize)> {
    match result {
        EnumResult::Failed => None,
        EnumResult::Success { count, bits } => Some((count, bits)),
    }
}

fn steps(result: BenchResult) -> Option<Vec<usize>> {
    match result {
        BenchResult::Failed => None,
        BenchResult::Success { steps } => Some(steps),
    }
}

#[test]
fn enumeration_of_one_unit_clause() {
    let sat = SAT::from_vec(vec![vec![1]]);
    assert_eq!(counts(enum_algorithm::<One>(&sat, 1)), Some((vec![2, 1], 2)));
    assert_eq!(counts(enum_algorithm::<One>(&sat, 0)), Some((vec![1], 1)));
    assert_eq!(counts(enum_algorithm::<One>(&sat, 3)), Some((vec![8, 4, 2, 1], 4)));
}

#[test]
fn enumeration_of_five_unit_clauses() {
    let sat = SAT::from_array([[1], [2], [3], [4], [5]]);
    assert_eq!(counts(enum_algorithm::<One>(&sat, 2)), Some((vec![31744, 29184, 25344], 15)));
}

#[test]
fn batched_enumeration() {
    let sat = SAT::from_vec(vec![vec![1], vec![2]]);
    assert_eq!(counts(enum_algorithm::<All>(&sat, 1)), Some((vec![12, 7], 4)));
    assert_eq!(counts(enum_algorithm::<One>(&sat, 1)), Some((vec![12, 8], 4)));
}

#[test]
fn enumeration_with_a_clause_that_is_never_violated() {
    let sat = SAT::from_vec(vec![vec![1, -1], vec![2, 1]]);
    assert_eq!(counts(enum_algorithm::<One>(&sat, 1)), Some((vec![4, 1], 4)));
    assert_eq!(counts(enum_algorithm::<All>(&sat, 1)), Some((vec![4, 1], 4)));
}

#[test]
fn enumeration_of_too_many_bits_fails() {
    let sat = SAT::from_array([[-1, 2, 4], [1, 3, 5], [2, 4, 5], [-4, 5, 6]]);
    assert!(counts(enum_algorithm::<One>(&sat, 4)).is_none());
    assert!(counts(enum_algorithm::<All>(&sat, 4)).is_none());
    let wide = SAT::from_vec(vec![vec![13]]);
    assert!(counts(enum_algorithm::<One>(&wide, 1)).is_none());
    assert!(counts(enum_algorithm::<One>(&wide, 0)).is_some());
    let wider = SAT::from_vec(vec![vec![26]]);
    assert!(counts(enum_algorithm::<One>(&wider, 0)).is_none());
    let one = SAT::from_vec(vec![vec![1]]);
    assert!(counts(enum_algorithm::<One>(&one, 25)).is_none());
    assert!(counts(enum_algorithm::<One>(&one, usize::MAX - 1)).is_none());
}

#[test]
fn enumeration_without_variables() {
    let none = SAT::from_vec(vec![]);
    assert_eq!(counts(enum_algorithm::<One>(&none, 2)), Some((vec![0, 0, 0], 0)));
    let stuck = SAT::from_vec(vec![vec![0]]);
    assert_eq!(counts(enum_algorithm::<One>(&stuck, 2)), Some((vec![1, 1, 1], 0)));
    assert_eq!(counts(enum_algorithm::<All>(&stuck, 2)), Some((vec![1, 1, 1], 0)));
}

#[test]
fn benchmark_collects_one_count_for_each_trial() {
    let sat = SAT::from_array([[-1, 2, 4], [1, 3, 5], [2, 4, 5], [-4, 5, 6]]);
    let one = steps(bench_algorithm_within::<MTsAlgorithmSimulator<InfiniteRandomSpace>>(&sat, 20, 1000)).unwrap();
    assert_eq!(one.len(), 20);
    let all = steps(bench_algorithm_within::<NewAlgorithmSimulator<InfiniteRandomSpace>>(&sat, 20, 1000)).unwrap();
    assert_eq!(all.len(), 20);
    let none = steps(bench_algorithm_within::<MTsAlgorithmSimulator<InfiniteRandomSpace>>(&sat, 0, 10)).unwrap();
    assert!(none.is_empty());
}

#[test]
fn benchmark_of_a_satisfied_formula_makes_no_round() {
    let sat = SAT::from_vec(vec![vec![1, -1]]);
    let one = steps(bench_algorithm_within::<MTsAlgorithmSimulator<InfiniteRandomSpace>>(&sat, 3, 5)).unwrap();
    assert_eq!(one, vec![0, 0, 0]);
}

#[test]
fn benchmark_that_does_not_end_fails() {
    let stuck = SAT::from_vec(vec![vec![1, 2], vec![0], vec![-1]]);
    assert!(steps(bench_algorithm_within::<MTsAlgorithmSimulator<InfiniteRandomSpace>>(&stuck, 5, 1000)).is_none());
    assert!(steps(bench_algorithm_within::<NewAlgorithmSimulator<InfiniteRandomSpace>>(&stuck, 5, 1000)).is_none());
    assert!(steps(bench_algorithm_within::<MTsAlgorithmSimulator<InfiniteRandomSpace>>(&stuck, 0, 0)).is_none());
}

#[test]
fn benchmark_with_the_full_probe() {
    let sat = SAT::from_vec(vec![vec![1]]);
    let one = steps(bench_algorithm::<MTsAlgorithmSimulator<InfiniteRandomSpace>>(&sat, 4)).unwrap();
    assert_eq!(one.len(), 4);
}

#[test]
fn run_ends_on_a_formula_that_can_be_satisfied() {
    let sat = SAT::from_array([[-1, 2, 4], [1, 3, 5], [2, 4, 5], [-4, 5, 6]]);
    assert!(run_algorithm::<MTsAlgorithmSimulator<InfiniteRandomSpace>>(&sat));
    assert!(run_algorithm::<NewAlgorithmSimulator<InfiniteRandomSpace>>(&sat));
}

#[test]
fn formula_that_is_never_violated_ends_at_once() {
    let sat = SAT::from_vec(vec![vec![1, -1], vec![2, 3, -2]]);
    assert!(run_algorithm::<MTsAlgorithmSimulator<InfiniteRandomSpace>>(&sat));
    assert!(run_algorithm::<NewAlgorithmSimulator<InfiniteRandomSpace>>(&sat));
    let all = steps(bench_algorithm::<NewAlgorithmSimulator<InfiniteRandomSpace>>(&sat, 5)).unwrap();
    assert_eq!(all, vec![0; 5]);
    let none = SAT::from_vec(vec![]);
    assert!(run_algorithm::<MTsAlgorithmSimulator<InfiniteRandomSpace>>(&none));
    let one = steps(bench_algorithm_within::<MTsAlgorithmSimulator<InfiniteRandomSpace>>(&none, 2, 0)).unwrap();
    assert_eq!(one, vec![0, 0]);
}
