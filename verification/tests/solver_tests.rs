use satsolver::solver::{retain_lit, Dpll};

#[test]
fn solver_test_1() {
    let c: Vec<Vec<isize>> = vec![vec![1, 2, 3], vec![4, 5, 6], vec![7, 8, 9]];
    let d = Dpll::new(c);
    assert_eq!(
        d.solver(),
        Some(Dpll {
            cnf: vec![],
            ass: vec![1, 4, 7],
        })
    );
}

#[test]
fn solver_test_2() {
    let c: Vec<Vec<isize>> = vec![vec![1, 2], vec![1, -2], vec![-1, 2], vec![-1, -2]];
    let d = Dpll::new(c);
    assert_eq!(d.solver(), None);
}

#[test]
fn unit_propagation_test_1() {
    let c: Vec<Vec<isize>> = vec![vec![1], vec![1, 2, 3], vec![-1, 2, 3], vec![1, -1, 2]];
    let d = Dpll::new(c);
    assert_eq!(
        d.unit_propagation(),
        Dpll {
            cnf: vec![vec![2, 3]],
            ass: vec![1],
        }
    );
}

#[test]
fn unit_propagation_test_2() {
    let c: Vec<Vec<isize>> = vec![
        vec![1],
        vec![2],
        vec![1, 2, 3],
        vec![-1, 2, 3],
        vec![-1, -2, 3, 4],
        vec![1, -1, 2],
    ];
    let d = Dpll::new(c);
    assert_eq!(
        d.unit_propagation(),
        Dpll {
            cnf: vec![vec![3, 4]],
            ass: vec![1, 2],
        }
    );
}

#[test]
fn solver_assign_test() {
    let c: Vec<Vec<isize>> = vec![vec![1, 2, 3], vec![-1, 2, 3], vec![1, -1, 2]];
    let d = Dpll::new(c);
    let expected: Vec<Vec<isize>> = vec![vec![2, 3]];
    assert_eq!(d.assign(1).cnf, expected);
}

#[test]
fn retain_lit_test() {
    let cl: Vec<isize> = vec![1, 2, 3];
    let expected: Vec<isize> = vec![2, 3];
    assert_eq!(retain_lit(cl, 1), expected);
}

#[test]
fn solver_exists_empty_clause_test() {
    let c: Vec<Vec<isize>> = vec![vec![1, 2], vec![], vec![3, 4]];
    let d = Dpll::new(c);
    assert_eq!(d.exists_empty_clause(), true);
    let c2: Vec<Vec<isize>> = vec![vec![1, 2], vec![3, 4]];
    let d2 = Dpll::new(c2);
    assert_eq!(d2.exists_empty_clause(), false);
}

#[test]
fn solver_get_unit_literal_test() {
    let c: Vec<Vec<isize>> = vec![vec![1, 2, 3], vec![9], vec![1, 2]];
    let d = Dpll::new(c);
    assert_eq!(d.get_unit_literal(), Some(9));
    let c2: Vec<Vec<isize>> = vec![vec![1, 2], vec![3, 4]];
    let d2 = Dpll::new(c2);
    assert_eq!(d2.get_unit_literal(), None);
}

#[test]
fn heuristic_select_test() {
    let c: Vec<Vec<isize>> = vec![vec![1, 2, 3], vec![4, 5, 6]];
    let d = Dpll::new(c);
    assert_eq!(d.heuristic_select(), 1);
}

#[test]
fn is_empty_test() {
    let c: Vec<Vec<isize>> = vec![];
    let d = Dpll::new(c);
    assert_eq!(d.is_empty(), true);
    let c: Vec<Vec<isize>> = vec![vec![]];
    let d = Dpll::new(c);
    assert_eq!(d.is_empty(), false);
}

#[test]
fn empty_formula_satisfiable_test() {
    // no clauses: satisfiable with the empty assignment
    let d = Dpll::new(vec![]);
    assert_eq!(
        d.solver(),
        Some(Dpll {
            cnf: vec![],
            ass: vec![],
        })
    );
}

#[test]
fn empty_clause_unsatisfiable_test() {
    let c: Vec<Vec<isize>> = vec![vec![1, 2], vec![]];
    let d = Dpll::new(c);
    assert_eq!(d.solver(), None);
}

#[test]
fn solver_backtracking_test() {
    // the first branch on 1 fails; the model comes from the second branch
    let c: Vec<Vec<isize>> = vec![vec![1, 2], vec![-1, 3], vec![-1, -3]];
    let d = Dpll::new(c);
    let result = d.solver().unwrap();
    assert_eq!(result.cnf, Vec::<Vec<isize>>::new());
    for clause in [vec![1isize, 2], vec![-1, 3], vec![-1, -3]] {
        assert!(clause.iter().any(|l| result.ass.contains(l)));
    }
}
