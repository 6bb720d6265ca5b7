use moser_tardos::dep::DependencyGraph;
use moser_tardos::lll::satisfiability_checker;
use moser_tardos::moser_tardos_algorithm::{
    enum_algorithm, AlgorithmSimulator, EnumResult, ExecuteResult, MTsAlgorithmSimulator,
};
use moser_tardos::random_space::{random_space_of_nbits, InfiniteRandomSpace, LimitedRandomSpace};
use moser_tardos::sat::SAT;
use moser_tardos::shearer::shearers_bound_checker;

#[test]
fn check_random_space_iterator() {
    let mut it = random_space_of_nbits(10);
    let mut bits = Vec::new();
    while let Some(space) = it.next() {
        bits.push(space);
    }
    let str1: String = bits[460].to_bits().iter().map(|b| if *b { "1" } else { "0" }).collect();
    let str2 = format!("{:010b}", 460);
    let str2: String = str2.chars().rev().collect();
    assert_eq!(str1, str2);
}

#[test]
fn check_moser_tardos_simulator() {
    let sat = [[-1, 2, 4], [1, 3, 5], [2, 4, 5], [-4, 5, 6]];
    let sat = SAT::from_array(sat);

    let mut sand_box = MTsAlgorithmSimulator::new(sat.clone(), InfiniteRandomSpace::new(9));
    sand_box.run_init();

    assert!(match sand_box.run_until_terminal() {
        ExecuteResult::Terminal { .. } => true,
        _ => false,
    },);

    let var = sand_box.get_varible();
    for id in 0..sat.size() {
        assert!(!sat.get_clause(id).check_violated(var));
    }
}

#[test]
fn enuming_test() {
    let sat = [[1], [2], [3], [4], [5]];
    let sat = SAT::from_array(sat);

    let result = enum_algorithm::<MTsAlgorithmSimulator<LimitedRandomSpace>>(&sat, 2);

    match result {
        EnumResult::Failed => {
            assert!(false);
        }
        EnumResult::Success { count, bits } => {
            let p: Vec<f64> = count.iter().map(|x| *x as f64 / (1u64 << bits) as f64).collect();
            let str: String = format!("{}", p[0]);
            assert_eq!(str, "0.96875");
        }
    }
}

#[test]
fn lll_test() {
    let sat = [[1, 2], [-2, -3], [3, 4]];
    let sat = SAT::from_array(sat);
    let dep = DependencyGraph::form_sat(&sat);

    println!("{:?}", satisfiability_checker(&sat));
    println!("{:?}", shearers_bound_checker(&dep));
}

#[test]
fn non_cnf_test() {
    let sat = [[1, 0], [-2, 0], [3, 0]];
    let sat = SAT::from_array(sat);
    println!("{:?}", sat.clause_size());

    let sat = vec![vec![1, 2, 0], vec![1, 0], vec![3, 4, 5, 0]];
    let sat = SAT::from_vec(sat);

    println!("{:?}", sat.variable_count());

    let dep = DependencyGraph::form_sat(&sat);

    println!("{:?}", dep.max_p());
}
