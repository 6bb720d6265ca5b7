use moser_tardos::probability::Probability;
use moser_tardos::sat::{variable_of, Clause, SAT};
use moser_tardos::text::{parse_rows, split_bytes};

fn exponent(p: Probability) -> Option<usize> {
    match p {
        Probability::Zero => None,
        Probability::PowerOfHalf(e) => Some(e),
    }
}

#[test]
fn clause_drops_zeros_and_repeats() {
    let c = Clause::from_vec(vec![3, 0, -1, 3, 0, -1, 2]);
    assert_eq!(c.literals(), &vec![3, -1, 2]);
    assert_eq!(c.size(), 3);
    assert_eq!(c.collect_varible(), vec![3, 1, 2]);
}

#[test]
fn clause_from_array_filters_like_from_vec() {
    let c = Clause::from_array([5, 0, 5, -5]);
    assert_eq!(c.literals(), &vec![5, -5]);
}

#[test]
fn new_clause_is_empty() {
    let c = Clause::new(4);
    assert_eq!(c.size(), 0);
    assert!(c.literals().is_empty());
}

#[test]
fn variable_of_is_the_magnitude() {
    assert_eq!(variable_of(7), 7);
    assert_eq!(variable_of(-7), 7);
    assert_eq!(variable_of(isize::MIN), isize::MAX as usize + 1);
}

#[test]
fn clause_is_violated_when_all_literals_are_false() {
    let c = Clause::from_vec(vec![1, -2, 3]);
    assert!(c.check_violated(&vec![false, true, false]));
    assert!(!c.check_violated(&vec![true, true, false]));
    assert!(!c.check_violated(&vec![false, false, false]));
    assert!(!c.check_violated(&vec![false, true, true]));
}

#[test]
fn empty_clause_is_always_violated() {
    let c = Clause::from_vec(vec![0, 0]);
    assert!(c.check_violated(&vec![]));
    assert!(c.check_violated(&vec![true, false]));
}

#[test]
fn formula_counts() {
    let sat = SAT::from_vec(vec![vec![1, 2, 0], vec![1, 0], vec![3, 4, 5, 0]]);
    assert_eq!(sat.size(), 3);
    assert_eq!(sat.variable_count(), 5);
    assert_eq!(sat.clause_size(), 0);
    assert_eq!(sat.get_clause(2).literals(), &vec![3, 4, 5]);
}

#[test]
fn uniform_formula_has_clause_size() {
    let sat = SAT::from_array([[1, 0], [-2, 0], [3, 0]]);
    assert_eq!(sat.clause_size(), 1);
    assert_eq!(sat.variable_count(), 3);
    let sat = SAT::from_array([[-1, 2, 4], [1, 3, 5], [2, 4, 5], [-4, 5, 6]]);
    assert_eq!(sat.clause_size(), 3);
    assert_eq!(sat.variable_count(), 6);
    assert_eq!(sat.size(), 4);
}

#[test]
fn repeated_literal_changes_clause_size() {
    let sat = SAT::from_vec(vec![vec![1, 1, 2], vec![3, 4, 5]]);
    assert_eq!(sat.clause_size(), 0);
    assert_eq!(sat.get_clause(0).size(), 2);
}

#[test]
fn variable_count_is_the_largest_variable() {
    let sat = SAT::from_vec(vec![vec![-9], vec![2, 3]]);
    assert_eq!(sat.variable_count(), 9);
}

#[test]
fn empty_formula() {
    let sat = SAT::from_vec(vec![]);
    assert_eq!(sat.size(), 0);
    assert_eq!(sat.variable_count(), 0);
    assert_eq!(sat.clause_size(), 0);
    assert_eq!(sat.check_violated(&vec![]), Vec::<bool>::new());
}

#[test]
fn formula_of_empty_clauses() {
    let sat = SAT::new(3, 2, 4);
    assert_eq!(sat.size(), 3);
    assert_eq!(sat.variable_count(), 2);
    assert_eq!(sat.clause_size(), 4);
    assert_eq!(sat.check_violated(&vec![true, true]), vec![true, true, true]);
}

#[test]
fn check_violated_per_clause() {
    let sat = SAT::from_array([[-1, 2, 4], [1, 3, 5], [2, 4, 5], [-4, 5, 6]]);
    let all_false = vec![false; 6];
    assert_eq!(sat.check_violated(&all_false), vec![false, true, true, false]);
    let all_true = vec![true; 6];
    assert_eq!(sat.check_violated(&all_true), vec![false, false, false, false]);
    let mixed = vec![true, false, false, true, false, false];
    assert_eq!(sat.check_violated(&mixed), vec![false, false, false, true]);
}

#[test]
fn clone_keeps_the_formula() {
    let sat = SAT::from_array([[-1, 2, 4], [1, 3, 5]]);
    let copy = sat.clone();
    assert_eq!(copy.size(), 2);
    assert_eq!(copy.variable_count(), 5);
    assert_eq!(copy.clause_size(), 3);
    assert_eq!(copy.get_clause(1).literals(), sat.get_clause(1).literals());
}

#[test]
fn joint_probability_of_clashing_clauses_is_zero() {
    let sat = SAT::from_array([[1, 2], [-2, -3], [3, 4]]);
    assert_eq!(exponent(sat.pr_land(&vec![0, 1])), None);
    assert_eq!(exponent(sat.pr_land(&vec![1, 2])), None);
    assert!(sat.pr_land(&vec![1, 0]).is_zero());
}

#[test]
fn joint_probability_counts_distinct_literals() {
    let sat = SAT::from_array([[1, 2], [-2, -3], [3, 4], [2, 4]]);
    assert_eq!(exponent(sat.pr_land(&vec![0, 2])), Some(4));
    assert_eq!(exponent(sat.pr_land(&vec![0, 3])), Some(3));
    assert_eq!(exponent(sat.pr_land(&vec![0, 0])), Some(2));
    assert_eq!(exponent(sat.pr_land(&vec![0])), Some(2));
    assert_eq!(exponent(sat.pr_land(&vec![])), Some(0));
    assert_eq!(exponent(sat.pr_land(&vec![0, 2, 3])), Some(4));
}

#[test]
fn joint_probability_of_a_clause_with_both_polarities_is_zero() {
    let sat = SAT::from_vec(vec![vec![1, -1], vec![2]]);
    assert!(sat.pr_land(&vec![0, 1]).is_zero());
    assert!(sat.pr_land(&vec![0]).is_zero());
}

#[test]
fn joint_probability_is_not_examined_on_large_formulas() {
    let mut clauses = Vec::new();
    for i in 0..1000isize {
        clauses.push(vec![i + 1]);
    }
    let large = SAT::from_vec(clauses.clone());
    assert!(large.pr_land(&vec![0, 1]).is_zero());
    clauses.pop();
    let smaller = SAT::from_vec(clauses);
    assert_eq!(exponent(smaller.pr_land(&vec![0, 1])), Some(2));
}

#[test]
fn probabilities_are_ordered_by_value() {
    let zero = Probability::Zero;
    let half = Probability::PowerOfHalf(1);
    let quarter = Probability::PowerOfHalf(2);
    let one = Probability::PowerOfHalf(0);
    assert!(zero.less_than(&quarter));
    assert!(quarter.less_than(&half));
    assert!(half.less_than(&one));
    assert!(!half.less_than(&quarter));
    assert!(!half.less_than(&half));
    assert!(!zero.less_than(&zero));
    assert!(!quarter.less_than(&zero));
}

#[test]
fn formula_from_text() {
    let text = b"p cnf 5 3\n1 -2 0\n\n3 4 5 0\n-1\n";
    let sat = SAT::from_text(text).unwrap();
    assert_eq!(sat.size(), 3);
    assert_eq!(sat.variable_count(), 5);
    assert_eq!(sat.clause_size(), 0);
    assert_eq!(sat.get_clause(0).literals(), &vec![1, -2]);
    assert_eq!(sat.get_clause(1).literals(), &vec![3, 4, 5]);
    assert_eq!(sat.get_clause(2).literals(), &vec![-1]);
}

#[test]
fn text_without_terminators_is_uniform() {
    let sat = SAT::from_text(b"header\n1 2\n-2 +3").unwrap();
    assert_eq!(sat.size(), 2);
    assert_eq!(sat.clause_size(), 2);
    assert_eq!(sat.get_clause(1).literals(), &vec![-2, 3]);
}

#[test]
fn text_of_the_header_alone_holds_no_clause() {
    assert_eq!(SAT::from_text(b"anything at all").unwrap().size(), 0);
    assert_eq!(SAT::from_text(b"").unwrap().size(), 0);
    assert_eq!(SAT::from_text(b"x\n\n\n").unwrap().size(), 0);
}

#[test]
fn text_with_anything_but_integers_is_rejected() {
    assert!(SAT::from_text(b"h\n1 x 3").is_none());
    assert!(SAT::from_text(b"h\n1  2").is_none());
    assert!(SAT::from_text(b"h\n1 2 ").is_none());
    assert!(SAT::from_text(b"h\n 1").is_none());
    assert!(SAT::from_text(b"h\n1 2\r\n3").is_none());
    assert!(SAT::from_text(b"h\n-").is_none());
    assert!(SAT::from_text(b"h\n+").is_none());
    assert!(SAT::from_text(b"h\n1 - 2").is_none());
    assert!(SAT::from_text(b"h\n1\t2").is_none());
    assert!(SAT::from_text(b"h\n1\n2 3\nfour").is_none());
}

#[test]
fn text_with_numbers_at_the_limits_of_a_word() {
    let max = format!("h\n{}", isize::MAX);
    assert_eq!(SAT::from_text(max.as_bytes()).unwrap().get_clause(0).literals(), &vec![isize::MAX]);
    let min = format!("h\n{}", isize::MIN);
    assert_eq!(SAT::from_text(min.as_bytes()).unwrap().get_clause(0).literals(), &vec![isize::MIN]);
    let over = format!("h\n{}0", isize::MAX);
    assert!(SAT::from_text(over.as_bytes()).is_none());
    let above = format!("h\n{}", isize::MAX as u128 + 1);
    assert!(SAT::from_text(above.as_bytes()).is_none());
    let below = format!("h\n-{}", isize::MAX as u128 + 2);
    assert!(SAT::from_text(below.as_bytes()).is_none());
    let long = format!("h\n{}", "9".repeat(60));
    assert!(SAT::from_text(long.as_bytes()).is_none());
    assert_eq!(SAT::from_text(b"h\n-0 007 +0").unwrap().get_clause(0).literals(), &vec![7]);
}

#[test]
fn text_is_split_at_each_separator() {
    assert_eq!(split_bytes(b"a,,b,", b','), vec![b"a".to_vec(), vec![], b"b".to_vec(), vec![]]);
    assert_eq!(split_bytes(b"", b','), vec![Vec::<u8>::new()]);
    assert_eq!(parse_rows(b"h\n1 0 2\n\n-3"), Some(vec![vec![1, 0, 2], vec![-3]]));
    assert_eq!(parse_rows(b"h\n1 0 2\n\n-3a"), None);
}
