use moser_tardos::dep::DependencyGraph;
use moser_tardos::probability::{max_probability, Probability};
use moser_tardos::sat::SAT;
use moser_tardos::utility::new_vector;

fn exponent(p: Probability) -> Option<usize> {
    match p {
        Probability::Zero => None,
        Probability::PowerOfHalf(e) => Some(e),
    }
}

fn example() -> SAT {
    SAT::from_array([[-1, 2, 4], [1, 3, 5], [2, 4, 5], [-4, 5, 6]])
}

#[test]
fn lists_name_later_clauses_with_a_common_variable() {
    let sat = example();
    let dep = DependencyGraph::form_sat(&sat);
    assert_eq!(dep.size(), 4);
    assert_eq!(dep.get_gamma(0), &vec![1, 2, 3]);
    assert_eq!(dep.get_gamma(1), &vec![2, 3]);
    assert_eq!(dep.get_gamma(2), &vec![3]);
    assert_eq!(dep.get_gamma(3), &Vec::<usize>::new());
    for i in 0..dep.size() {
        for j in dep.get_gamma(i) {
            assert!(*j > i);
            let a = sat.get_clause(i).collect_varible();
            let b = sat.get_clause(*j).collect_varible();
            assert!(a.iter().any(|v| b.contains(v)));
        }
    }
}

#[test]
fn gamma_plus_ends_with_the_clause_itself() {
    let dep = DependencyGraph::form_sat(&example());
    assert_eq!(dep.get_gamma_plus(1), vec![2, 3, 1]);
    assert_eq!(dep.get_gamma_plus(3), vec![3]);
}

#[test]
fn clauses_without_common_variable_are_not_linked() {
    let sat = SAT::from_array([[1, 2], [-2, -3], [3, 4]]);
    let dep = DependencyGraph::form_sat(&sat);
    assert_eq!(dep.get_gamma(0), &vec![1]);
    assert_eq!(dep.get_gamma(1), &vec![2]);
    assert_eq!(dep.get_gamma(2), &Vec::<usize>::new());
    assert_eq!(dep.edge_count(), 2);
    assert_eq!(dep.max_d(), 1);
}

#[test]
fn max_d_is_the_largest_number_of_predecessors() {
    let dep = DependencyGraph::form_sat(&example());
    assert_eq!(dep.edge_count(), 6);
    assert_eq!(dep.max_d(), 3);
    let star = SAT::from_vec(vec![vec![1, 2, 3], vec![1], vec![2], vec![3]]);
    let dep = DependencyGraph::form_sat(&star);
    assert_eq!(dep.get_gamma(0), &vec![1, 2, 3]);
    assert_eq!(dep.max_d(), 1);
}

#[test]
fn uniform_formula_has_one_estimate() {
    let dep = DependencyGraph::form_sat(&example());
    for i in 0..4 {
        assert_eq!(exponent(dep.get_p(i)), Some(3));
    }
    assert_eq!(exponent(dep.max_p()), Some(3));
}

#[test]
fn mixed_formula_has_an_estimate_for_each_clause() {
    let sat = SAT::from_vec(vec![vec![1, 2, 0], vec![1, 0], vec![3, 4, 5, 0]]);
    let dep = DependencyGraph::form_sat(&sat);
    assert_eq!(exponent(dep.get_p(0)), Some(2));
    assert_eq!(exponent(dep.get_p(1)), Some(1));
    assert_eq!(exponent(dep.get_p(2)), Some(3));
    assert_eq!(exponent(dep.max_p()), Some(1));
    for i in 0..3 {
        assert!(!dep.get_p(i).is_zero());
        assert!(!dep.max_p().less_than(&dep.get_p(i)));
    }
}

#[test]
fn large_formula_keeps_its_estimates() {
    let mut clauses = Vec::new();
    for i in 0..150isize {
        clauses.push(vec![i + 1, i + 2]);
    }
    let dep = DependencyGraph::form_sat(&SAT::from_vec(clauses));
    assert_eq!(exponent(dep.get_p(0)), Some(2));
    assert_eq!(exponent(dep.max_p()), Some(2));
    assert_eq!(dep.get_gamma(0), &vec![1]);
    assert_eq!(dep.max_d(), 1);
}

#[test]
fn graph_of_no_clauses() {
    let dep = DependencyGraph::form_sat(&SAT::from_vec(vec![]));
    assert_eq!(dep.size(), 0);
    assert_eq!(dep.edge_count(), 0);
    assert_eq!(dep.max_d(), 0);
    assert!(dep.max_p().is_zero());
}

#[test]
fn repeated_variable_links_once() {
    let sat = SAT::from_vec(vec![vec![1, -1], vec![1, 2], vec![-2, 1]]);
    let dep = DependencyGraph::form_sat(&sat);
    assert_eq!(dep.get_gamma(0), &vec![1, 2]);
    assert_eq!(dep.get_gamma(1), &vec![2]);
    assert_eq!(dep.edge_count(), 3);
    assert_eq!(dep.max_d(), 2);
}

#[test]
fn largest_probability() {
    let p = vec![Probability::PowerOfHalf(3), Probability::PowerOfHalf(1), Probability::PowerOfHalf(2)];
    assert_eq!(exponent(max_probability(&p)), Some(1));
    assert!(max_probability(&vec![]).is_zero());
    assert!(max_probability(&vec![Probability::Zero]).is_zero());
}

#[test]
fn new_vector_repeats_the_value() {
    assert_eq!(new_vector(3, 7usize), vec![7, 7, 7]);
    assert_eq!(new_vector(0, true), Vec::<bool>::new());
}

#[test]
fn clone_keeps_the_graph() {
    let dep = DependencyGraph::form_sat(&example());
    let copy = dep.clone();
    assert_eq!(copy.size(), 4);
    assert_eq!(copy.edge_count(), 6);
    assert_eq!(copy.max_d(), 3);
    for i in 0..4 {
        assert_eq!(copy.get_gamma(i), dep.get_gamma(i));
        assert_eq!(exponent(copy.get_p(i)), exponent(dep.get_p(i)));
    }
    assert_eq!(exponent(copy.max_p()), Some(3));
}
