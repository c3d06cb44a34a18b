use satsolver::dpll::{DPLL, DPLLClause};

#[test]
fn core_assign_test() {
    let a: Vec<Vec<isize>> = vec![vec![1, 2, 3], vec![-1, 2, 3], vec![1, -1, 2]];
    let lit: isize = 1;
    let expected: Vec<Vec<isize>> = vec![vec![2, 3]];
    assert_eq!(DPLL::assign(&a, lit), expected);
}

#[test]
fn core_exists_empty_clause_test() {
    let a: Vec<Vec<isize>> = vec![vec![], vec![1, 2]];
    assert_eq!(DPLL::exists_empty_clause(&a), true);
    let a: Vec<Vec<isize>> = vec![vec![1, 2], vec![3, 4]];
    assert_eq!(DPLL::exists_empty_clause(&a), false);
}

#[test]
fn core_get_unit_literal_test() {
    let mut a: Vec<Vec<isize>> = vec![vec![1, 2], vec![3], vec![4, 5]];
    assert_eq!(DPLL::get_unit_literal(&mut a).unwrap(), 3);
    let mut a: Vec<Vec<isize>> = vec![vec![1, 2], vec![3, 4], vec![5, 6]];
    assert_eq!(DPLL::get_unit_literal(&mut a), None);
}

#[test]
fn select_test() {
    let a: Vec<Vec<isize>> = vec![vec![1, 2, 3]];
    assert_eq!(DPLL::select(&a), 1);
}

#[test]
fn assign_clause_test() {
    let a: Vec<isize> = vec![1, 2, 3, 1, -1, 3];
    let lit: isize = 1;
    let expected: Vec<isize> = vec![2, 3, -1, 3];
    assert_eq!(DPLLClause::assign_clause(&a, lit), expected);
}

#[test]
fn is_unit_test() {
    let a: Vec<isize> = vec![1];
    assert_eq!(DPLLClause::is_unit(&a), true);
    let a: Vec<isize> = vec![1, 2];
    assert_eq!(DPLLClause::is_unit(&a), false);
}

#[test]
fn core_unit_propagation_test() {
    let mut c: Vec<Vec<isize>> = vec![vec![1], vec![1, 2, 3], vec![-1, 2, 3], vec![1, -1, 2]];
    let mut a: Vec<isize> = Vec::new();
    let (cnf, ass) = DPLL::unit_propagation(&mut c, &mut a);
    let expected_cnf: Vec<Vec<isize>> = vec![vec![2, 3]];
    let expected_ass: Vec<isize> = vec![1];
    assert_eq!(cnf, expected_cnf);
    assert_eq!(ass, expected_ass);
    assert_eq!(a, vec![1]);
}

#[test]
fn core_solver_sat_test() {
    let mut c: Vec<Vec<isize>> = vec![vec![1, 2, 3], vec![4, 5, 6], vec![7, 8, 9]];
    let mut a: Vec<isize> = Vec::new();
    let mut result = DPLL::solver(&mut c, &mut a).unwrap();
    result.sort();
    assert_eq!(result, vec![1, 4, 7]);
}

#[test]
fn core_solver_unsat_test() {
    let mut c: Vec<Vec<isize>> = vec![vec![1, 2], vec![1, -2], vec![-1, 2], vec![-1, -2]];
    let mut a: Vec<isize> = Vec::new();
    assert_eq!(DPLL::solver(&mut c, &mut a), None);
}

#[test]
fn core_solver_model_satisfies_test() {
    // every clause of the input must hold a literal of the returned model
    let formula: Vec<Vec<isize>> = vec![vec![-1, 2], vec![-2, 3], vec![1, 3], vec![-3, -1, 2]];
    let mut c = formula.clone();
    let mut a: Vec<isize> = Vec::new();
    let model = DPLL::solver(&mut c, &mut a).unwrap();
    for clause in &formula {
        assert!(clause.iter().any(|l| model.contains(l)));
    }
}

#[test]
fn core_assign_idempotent_test() {
    let f: Vec<Vec<isize>> = vec![vec![1, 2], vec![-1, 3], vec![2, -3, 1]];
    let once = DPLL::assign(&f, 1);
    let twice = DPLL::assign(&once, 1);
    assert_eq!(twice, once);
}

#[test]
fn propagation_order_test() {
    // two discovery orders for non-contradictory units end in the same formula
    let f: Vec<Vec<isize>> = vec![
        vec![1],
        vec![2],
        vec![1, 2, 3],
        vec![-1, -2, 4, 6],
        vec![-2, 5, 6],
    ];
    let first_then_second = DPLL::assign(&DPLL::assign(&f, 1), 2);
    let second_then_first = DPLL::assign(&DPLL::assign(&f, 2), 1);
    assert_eq!(first_then_second, second_then_first);
    let mut c = f.clone();
    let mut a: Vec<isize> = Vec::new();
    let (propagated, _) = DPLL::unit_propagation(&mut c, &mut a);
    assert_eq!(propagated, first_then_second);
}

#[test]
fn core_assign_commutes_test() {
    let f: Vec<Vec<isize>> = vec![vec![1, 2], vec![-1, -2, 3], vec![2, 3], vec![-2, 1]];
    let ab = DPLL::assign(&DPLL::assign(&f, 1), 2);
    let ba = DPLL::assign(&DPLL::assign(&f, 2), 1);
    assert_eq!(ab, ba);
}
