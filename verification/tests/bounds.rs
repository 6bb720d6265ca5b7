use moser_tardos::dep::DependencyGraph;
use moser_tardos::lll::{satisfiability_checker, shearer_independent_sets, PredictedResult};
use moser_tardos::matching::Match;
use moser_tardos::sat::SAT;
use moser_tardos::shearer::shearers_bound_checker;

fn bound(result: PredictedResult) -> Option<(u128, u128)> {
    match result {
        PredictedResult::Invalid => None,
        PredictedResult::UpperBound { numerator, denominator } => Some((numerator, denominator)),
    }
}

#[test]
fn satisfying_assignments_are_counted() {
    let sat = SAT::from_array([[1, 2], [-2, -3], [3, 4]]);
    assert_eq!(bound(satisfiability_checker(&sat)), Some((16, 5)));
    let units = SAT::from_array([[1], [2], [3], [4], [5]]);
    assert_eq!(bound(satisfiability_checker(&units)), Some((32, 1)));
    let free = SAT::from_vec(vec![vec![3, -3]]);
    assert_eq!(bound(satisfiability_checker(&free)), Some((8, 8)));
}

#[test]
fn formula_without_satisfying_assignment_is_invalid() {
    let sat = SAT::from_vec(vec![vec![1], vec![-1]]);
    assert_eq!(bound(satisfiability_checker(&sat)), None);
    let stuck = SAT::from_vec(vec![vec![0]]);
    assert_eq!(bound(satisfiability_checker(&stuck)), None);
}

#[test]
fn formula_without_clauses_is_satisfied() {
    let none = SAT::from_vec(vec![]);
    assert_eq!(bound(satisfiability_checker(&none)), Some((1, 1)));
}

#[test]
fn independent_sets_of_a_path() {
    let sat = SAT::from_array([[1, 2], [-2, -3], [3, 4]]);
    let dep = DependencyGraph::form_sat(&sat);
    let q = shearer_independent_sets(&dep);
    assert_eq!(q, vec![true, true, true, false, true, true, false, false]);
}

#[test]
fn independent_sets_of_unlinked_clauses() {
    let sat = SAT::from_array([[1], [2], [3]]);
    let dep = DependencyGraph::form_sat(&sat);
    assert_eq!(shearer_independent_sets(&dep), vec![true; 8]);
}

#[test]
fn independent_sets_of_a_clique() {
    let sat = SAT::from_array([[-1, 2, 4], [1, 3, 5], [2, 4, 5], [-4, 5, 6]]);
    let dep = DependencyGraph::form_sat(&sat);
    let q = shearer_independent_sets(&dep);
    assert_eq!(q.len(), 16);
    for (mask, independent) in q.iter().enumerate() {
        assert_eq!(*independent, mask.count_ones() <= 1);
    }
}

#[test]
fn independent_sets_of_no_clauses() {
    let dep = DependencyGraph::form_sat(&SAT::from_vec(vec![]));
    assert_eq!(shearer_independent_sets(&dep), vec![true]);
}

#[test]
fn independent_sets_of_a_star() {
    let sat = SAT::from_vec(vec![vec![1], vec![2], vec![1, 2, 3], vec![3]]);
    let dep = DependencyGraph::form_sat(&sat);
    let q = shearer_independent_sets(&dep);
    for mask in 0..16usize {
        let with_centre = mask & 4 != 0;
        assert_eq!(q[mask], !with_centre || mask == 4);
    }
}

#[test]
fn greedy_matching_takes_the_most_likely_partner() {
    let sat = SAT::from_array([[1, 2], [-2, -3], [3, 4], [2, 4]]);
    assert_eq!(Match::from_sat_greedy(&sat).edges(), &vec![(0, 3)]);
}

#[test]
fn greedy_matching_takes_the_first_of_equals() {
    let sat = SAT::from_array([[1], [2], [3]]);
    assert_eq!(Match::from_sat_greedy(&sat).edges(), &vec![(0, 1)]);
    let sat = SAT::from_array([[1], [2], [3], [4]]);
    assert_eq!(Match::from_sat_greedy(&sat).edges(), &vec![(0, 1), (2, 3)]);
}

#[test]
fn greedy_matching_leaves_clashing_clauses_alone() {
    let sat = SAT::from_vec(vec![vec![1], vec![-1]]);
    assert!(Match::from_sat_greedy(&sat).edges().is_empty());
    assert!(Match::from_sat_greedy(&SAT::from_vec(vec![])).edges().is_empty());
}

#[test]
fn random_matching_pairs_different_clauses() {
    let m = Match::from_random(7);
    assert_eq!(m.edges().len(), 3);
    let mut seen = Vec::new();
    for (u, v) in m.edges() {
        assert!(*u < 7 && *v < 7);
        assert!(!seen.contains(u));
        seen.push(*u);
        assert!(!seen.contains(v));
        seen.push(*v);
    }
    assert!(Match::from_random(0).edges().is_empty());
    assert!(Match::from_random(1).edges().is_empty());
}

#[test]
fn random_matching_is_shuffled() {
    let m = Match::from_random(100);
    let mut ordered = Vec::new();
    for i in 0..50 {
        ordered.push((2 * i, 2 * i + 1));
    }
    assert_eq!(m.edges().len(), 50);
    assert_ne!(m.edges(), &ordered);
}

#[test]
fn matched_pairs_ask_for_corrections() {
    let sat = SAT::from_array([[1, 2], [-2, -3], [3, 4], [2, 4]]);
    let greedy = Match::from_sat_greedy(&sat);
    assert_eq!(greedy.corrections(&sat), vec![(0, 3, 3)]);
    let units = SAT::from_array([[1], [2], [3], [4]]);
    let greedy = Match::from_sat_greedy(&units);
    assert_eq!(greedy.edges(), &vec![(0, 1), (2, 3)]);
    assert!(greedy.corrections(&units).is_empty());
    let mixed = SAT::from_vec(vec![vec![1, 2, 3], vec![1, 4], vec![-1]]);
    let greedy = Match::from_sat_greedy(&mixed);
    assert_eq!(greedy.edges(), &vec![(0, 1)]);
    assert_eq!(greedy.corrections(&mixed), vec![(0, 1, 4)]);
}

#[test]
fn exact_criterion_on_a_path() {
    let sat = SAT::from_array([[1, 2], [-2, -3], [3, 4]]);
    let dep = DependencyGraph::form_sat(&sat);
    assert_eq!(bound(shearers_bound_checker(&dep).unwrap()), Some((40, 20)));
}

#[test]
fn exact_criterion_on_a_clique() {
    let sat = SAT::from_array([[-1, 2, 4], [1, 3, 5], [2, 4, 5], [-4, 5, 6]]);
    let dep = DependencyGraph::form_sat(&sat);
    assert_eq!(bound(shearers_bound_checker(&dep).unwrap()), Some((2048, 2048)));
}

#[test]
fn exact_criterion_on_unlinked_clauses() {
    let sat = SAT::from_array([[1], [2]]);
    let dep = DependencyGraph::form_sat(&sat);
    assert_eq!(bound(shearers_bound_checker(&dep).unwrap()), Some((2, 1)));
}

#[test]
fn exact_criterion_fails_where_the_estimates_are_too_large() {
    let sat = SAT::from_array([[1], [-1], [1]]);
    let dep = DependencyGraph::form_sat(&sat);
    assert_eq!(bound(shearers_bound_checker(&dep).unwrap()), None);
}

#[test]
fn exact_criterion_at_the_boundary() {
    let sat = SAT::from_array([[1], [-1]]);
    let dep = DependencyGraph::form_sat(&sat);
    assert_eq!(bound(shearers_bound_checker(&dep).unwrap()), Some((4, 0)));
}

#[test]
fn exact_criterion_on_no_clauses() {
    let dep = DependencyGraph::form_sat(&SAT::from_vec(vec![]));
    assert_eq!(bound(shearers_bound_checker(&dep).unwrap()), Some((0, 1)));
}

#[test]
fn exact_criterion_is_not_worked_out_on_fine_estimates() {
    let mut clauses = Vec::new();
    for c in 0..5isize {
        clauses.push((1..=21).map(|v| c * 21 + v).collect::<Vec<isize>>());
    }
    let dep = DependencyGraph::form_sat(&SAT::from_vec(clauses.clone()));
    assert!(shearers_bound_checker(&dep).is_none());
    clauses.pop();
    let dep = DependencyGraph::form_sat(&SAT::from_vec(clauses));
    let a: u128 = (1 << 21) - 1;
    assert_eq!(bound(shearers_bound_checker(&dep).unwrap()), Some((4 * a * a * a, a * a * a * a)));
}
