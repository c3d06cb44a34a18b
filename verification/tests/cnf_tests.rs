use satsolver::cnf::{Clause, Cnf, Literal};
use satsolver::sort::{exsort, quick_iter};

#[test]
fn literal_new_test() {
    let p = Literal::new(3);
    assert_eq!(p.id, 3);
    assert_eq!(p.status, true);
    let n = Literal::new(-5);
    assert_eq!(n.id, 5);
    assert_eq!(n.status, false);
}

#[test]
fn literal_is_pure_test() {
    assert_eq!(Literal::new(2).is_pure(), true);
    assert_eq!(Literal::new(-2).is_pure(), false);
}

#[test]
fn literal_get_rev_literal_test() {
    let l = Literal::new(4);
    let r = l.get_rev_literal();
    assert_eq!(r.id, 4);
    assert_eq!(r.status, false);
    assert_eq!(r.get_rev_literal(), l);
}

#[test]
fn clause_new_test() {
    let ns: Vec<isize> = vec![1, -2, 3];
    let c = Clause::new(&ns);
    assert_eq!(c.len(), 3);
    assert_eq!(c[0], Literal::new(1));
    assert_eq!(c[1], Literal::new(-2));
    assert_eq!(c[2], Literal::new(3));
}

#[test]
fn cnf_new_test() {
    let f = Cnf::new(vec![vec![1, -2], vec![2]]);
    assert_eq!(f.body.len(), 2);
    assert_eq!(f.body[0], vec![Literal::new(1), Literal::new(-2)]);
    assert_eq!(f.body[1], vec![Literal::new(2)]);
}

#[test]
fn exsort_test() {
    let mut a: Vec<isize> = vec![3, -1, 2];
    exsort(&mut a);
    assert_eq!(a, vec![-1, 2, 3]);
}

#[test]
fn exsort_duplicates_test() {
    let mut a: Vec<isize> = vec![-7, 4, -4, 1, 7];
    exsort(&mut a);
    let vars: Vec<isize> = a.iter().map(|x| x.abs()).collect();
    assert_eq!(vars, vec![1, 4, 4, 7, 7]);
    let mut sorted_back = a.clone();
    sorted_back.sort();
    let mut expected: Vec<isize> = vec![-7, 4, -4, 1, 7];
    expected.sort();
    assert_eq!(sorted_back, expected);
}

#[test]
fn quick_iter_subrange_test() {
    let mut a: Vec<isize> = vec![9, 5, -3, 4, 9];
    quick_iter(1, 3, &mut a);
    assert_eq!(a, vec![9, -3, 4, 5, 9]);
}

#[test]
fn quick_iter_degenerate_test() {
    let mut a: Vec<isize> = vec![2, 1];
    quick_iter(1, 1, &mut a);
    assert_eq!(a, vec![2, 1]);
}
