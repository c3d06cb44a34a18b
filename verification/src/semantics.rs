//! Truth-functional semantics of CNF formulas, and the facts about `assign`
//! and exhaustive unit propagation that the solver's contracts rest on.

use vstd::prelude::*;
use crate::logic::{
    assign_cnf, assign_origin, avoids, first_unit, has_empty_clause, num_lits, occurs, propagate,
    remove_lit_of, wf_clause, wf_cnf, wf_lit, lemma_assign_cnf, lemma_assign_no_l,
    lemma_assign_num_lits, lemma_assign_occurs, lemma_assign_wf, lemma_contains_push,
    lemma_first_unit, lemma_first_unit_occurs, lemma_remove_lit_of, lemma_wf_occurs,
    lemma_prefix_contains,
};

verus! {

/// A valuation: the set of variable indices that hold.  A positive literal is
/// satisfied when its variable is in the set, a negative one when it is not.
pub open spec fn lit_sat(v: Set<int>, x: int) -> bool {
    if x > 0 {
        v.contains(x)
    } else {
        !v.contains(-x)
    }
}

/// The clause holds under the valuation: some literal of it is satisfied.
pub open spec fn clause_sat(v: Set<int>, c: Seq<int>) -> bool {
    exists|j: int| 0 <= j < c.len() && lit_sat(v, #[trigger] c[j])
}

/// The formula holds under the valuation: every clause of it does.
pub open spec fn cnf_sat(v: Set<int>, f: Seq<Seq<int>>) -> bool {
    forall|i: int| 0 <= i < f.len() ==> clause_sat(v, #[trigger] f[i])
}

/// Some valuation satisfies the formula.
pub open spec fn satisfiable(f: Seq<Seq<int>>) -> bool {
    exists|v: Set<int>| cnf_sat(v, f)
}

/// An assignment sequence is consistent: no zero, no contradictory pair.
pub open spec fn consistent(a: Seq<int>) -> bool {
    forall|k: int| 0 <= k < a.len() ==> #[trigger] a[k] != 0 && !a.contains(-a[k])
}

/// The clause has a literal that the assignment sets true.
pub open spec fn asg_sat_clause(a: Seq<int>, c: Seq<int>) -> bool {
    exists|x: int| #[trigger] c.contains(x) && a.contains(x)
}

/// Every clause of the formula has a literal the assignment sets true.
pub open spec fn asg_sat_cnf(a: Seq<int>, f: Seq<Seq<int>>) -> bool {
    forall|i: int| 0 <= i < f.len() ==> asg_sat_clause(a, #[trigger] f[i])
}

/// The valuation updated so that literal `l` holds.
pub open spec fn set_lit(v: Set<int>, l: int) -> Set<int> {
    if l > 0 {
        v.insert(l)
    } else {
        v.remove(-l)
    }
}

/// Opposite literals are satisfied under exactly opposite conditions.
pub proof fn lemma_lit_sat_neg(v: Set<int>, x: int)
    requires
        x != 0,
    ensures
        lit_sat(v, -x) == !lit_sat(v, x),
{
}

/// A model of `f` in which `l` holds is a model of `assign(f, l)`.
pub proof fn lemma_assign_sat_fwd(v: Set<int>, f: Seq<Seq<int>>, l: int)
    requires
        cnf_sat(v, f),
        lit_sat(v, l),
        l != 0,
    ensures
        cnf_sat(v, assign_cnf(f, l)),
{
    lemma_assign_cnf(f, l);
    let g = assign_cnf(f, l);
    assert forall|j: int| 0 <= j < g.len() implies clause_sat(v, #[trigger] g[j]) by {
        assert(assign_origin(f, l, j));
        let i = choose|i: int|
            0 <= i < f.len() && !(#[trigger] f[i]).contains(l) && g[j] == remove_lit_of(f[i], -l);
        assert(clause_sat(v, f[i]));
        let k = choose|k: int| 0 <= k < f[i].len() && lit_sat(v, #[trigger] f[i][k]);
        let x = f[i][k];
        assert(f[i].contains(x));
        if x == -l {
            lemma_lit_sat_neg(v, l);
            assert(false);
        }
        lemma_remove_lit_of(f[i], -l);
        assert(g[j].contains(x));
        let m = choose|m: int| 0 <= m < g[j].len() && g[j][m] == x;
        assert(lit_sat(v, g[j][m]));
    }
}

/// A model of `assign(f, l)` becomes a model of `f` once `l` is made to hold.
pub proof fn lemma_assign_sat_bwd(v: Set<int>, f: Seq<Seq<int>>, l: int)
    requires
        cnf_sat(v, assign_cnf(f, l)),
        l != 0,
        wf_cnf(f),
    ensures
        cnf_sat(set_lit(v, l), f),
{
    lemma_assign_cnf(f, l);
    let g = assign_cnf(f, l);
    let v2 = set_lit(v, l);
    assert forall|i: int| 0 <= i < f.len() implies clause_sat(v2, #[trigger] f[i]) by {
        if f[i].contains(l) {
            let k = choose|k: int| 0 <= k < f[i].len() && f[i][k] == l;
            assert(lit_sat(v2, l));
            assert(lit_sat(v2, f[i][k]));
        } else {
            let c2 = remove_lit_of(f[i], -l);
            assert(g.contains(c2));
            let j = choose|j: int| 0 <= j < g.len() && g[j] == c2;
            assert(clause_sat(v, c2));
            let m = choose|m: int| 0 <= m < c2.len() && lit_sat(v, #[trigger] c2[m]);
            let x = c2[m];
            assert(c2.contains(x));
            lemma_remove_lit_of(f[i], -l);
            assert(f[i].contains(x) && x != -l);
            let q = choose|q: int| 0 <= q < f[i].len() && f[i][q] == x;
            assert(wf_clause(f[i]));
            assert(wf_lit(f[i][q]));
            assert(lit_sat(v2, x) == lit_sat(v, x));
            assert(lit_sat(v2, f[i][q]));
        }
    }
}

/// Branching covers every model: a satisfiable formula stays satisfiable
/// after assigning the branch literal in one of its two polarities.
pub proof fn lemma_branch_sat(f: Seq<Seq<int>>, l: int)
    requires
        l != 0,
    ensures
        satisfiable(f) ==> satisfiable(assign_cnf(f, l)) || satisfiable(assign_cnf(f, -l)),
{
    if satisfiable(f) {
        let v = choose|v: Set<int>| cnf_sat(v, f);
        if lit_sat(v, l) {
            lemma_assign_sat_fwd(v, f, l);
            assert(cnf_sat(v, assign_cnf(f, l)));
        } else {
            lemma_lit_sat_neg(v, l);
            lemma_assign_sat_fwd(v, f, -l);
            assert(cnf_sat(v, assign_cnf(f, -l)));
        }
    }
}

/// `assign` cannot create satisfiability that was not already there.
pub proof fn lemma_assign_sat_up(f: Seq<Seq<int>>, l: int)
    requires
        l != 0,
        wf_cnf(f),
    ensures
        satisfiable(assign_cnf(f, l)) ==> satisfiable(f),
{
    if satisfiable(assign_cnf(f, l)) {
        let v = choose|v: Set<int>| cnf_sat(v, assign_cnf(f, l));
        lemma_assign_sat_bwd(v, f, l);
        assert(cnf_sat(set_lit(v, l), f));
    }
}

/// Assigning the literal of a unit clause preserves satisfiability exactly.
pub proof fn lemma_unit_sat(f: Seq<Seq<int>>, i: int)
    requires
        0 <= i < f.len(),
        f[i].len() == 1,
        wf_cnf(f),
    ensures
        satisfiable(f) <==> satisfiable(assign_cnf(f, f[i][0])),
{
    let l = f[i][0];
    assert(wf_clause(f[i]));
    assert(wf_lit(l));
    if satisfiable(f) {
        let v = choose|v: Set<int>| cnf_sat(v, f);
        assert(clause_sat(v, f[i]));
        let k = choose|k: int| 0 <= k < f[i].len() && lit_sat(v, #[trigger] f[i][k]);
        assert(k == 0);
        lemma_assign_sat_fwd(v, f, l);
        assert(cnf_sat(v, assign_cnf(f, l)));
    }
    lemma_assign_sat_up(f, l);
}

/// A formula with an empty clause has no model.
pub proof fn lemma_empty_clause_unsat(f: Seq<Seq<int>>)
    requires
        has_empty_clause(f),
    ensures
        !satisfiable(f),
{
    let i = choose|i: int| 0 <= i < f.len() && (#[trigger] f[i]).len() == 0;
    if satisfiable(f) {
        let v = choose|v: Set<int>| cnf_sat(v, f);
        assert(clause_sat(v, f[i]));
        let j = choose|j: int| 0 <= j < f[i].len() && lit_sat(v, #[trigger] f[i][j]);
        assert(false);
    }
}

/// The empty formula is satisfied by every valuation, in particular together
/// with the empty assignment.
pub proof fn lemma_empty_formula_sat(f: Seq<Seq<int>>)
    requires
        f.len() == 0,
    ensures
        satisfiable(f),
        asg_sat_cnf(Seq::<int>::empty(), f),
        consistent(Seq::<int>::empty()),
{
    assert(cnf_sat(Set::<int>::empty(), f));
}

/// A consistent assignment that meets every clause yields a model.
pub proof fn lemma_asg_to_model(a: Seq<int>, f: Seq<Seq<int>>)
    requires
        consistent(a),
        asg_sat_cnf(a, f),
    ensures
        satisfiable(f),
{
    let v = Set::new(|p: int| a.contains(p));
    assert forall|i: int| 0 <= i < f.len() implies clause_sat(v, #[trigger] f[i]) by {
        assert(asg_sat_clause(a, f[i]));
        let x = choose|x: int| (#[trigger] f[i].contains(x)) && a.contains(x);
        let k = choose|k: int| 0 <= k < a.len() && a[k] == x;
        assert(a[k] != 0 && !a.contains(-a[k]));
        assert(lit_sat(v, x)) by {
            if x > 0 {
                assert(v.contains(x));
            } else {
                assert(!a.contains(-x));
                assert(!v.contains(-x));
            }
        }
        let j = choose|j: int| 0 <= j < f[i].len() && f[i][j] == x;
        assert(lit_sat(v, f[i][j]));
    }
    assert(cnf_sat(v, f));
}

/// An assignment that meets `assign(f, l)` and holds `l` meets `f` itself.
pub proof fn lemma_asg_assign_lift(a: Seq<int>, f: Seq<Seq<int>>, l: int)
    requires
        asg_sat_cnf(a, assign_cnf(f, l)),
        a.contains(l),
    ensures
        asg_sat_cnf(a, f),
{
    lemma_assign_cnf(f, l);
    let g = assign_cnf(f, l);
    assert forall|i: int| 0 <= i < f.len() implies asg_sat_clause(a, #[trigger] f[i]) by {
        if f[i].contains(l) {
            assert(f[i].contains(l) && a.contains(l));
        } else {
            let c2 = remove_lit_of(f[i], -l);
            assert(g.contains(c2));
            let j = choose|j: int| 0 <= j < g.len() && g[j] == c2;
            assert(asg_sat_clause(a, g[j]));
            let x = choose|x: int| (#[trigger] c2.contains(x)) && a.contains(x);
            lemma_remove_lit_of(f[i], -l);
            assert(f[i].contains(x) && a.contains(x));
        }
    }
}

/// A larger assignment meets every clause a smaller one meets.
pub proof fn lemma_asg_sat_mono(a: Seq<int>, b: Seq<int>, f: Seq<Seq<int>>)
    requires
        asg_sat_cnf(a, f),
        forall|x: int| #[trigger] a.contains(x) ==> b.contains(x),
    ensures
        asg_sat_cnf(b, f),
{
    assert forall|i: int| 0 <= i < f.len() implies asg_sat_clause(b, #[trigger] f[i]) by {
        assert(asg_sat_clause(a, f[i]));
        let x = choose|x: int| (#[trigger] f[i].contains(x)) && a.contains(x);
        assert(f[i].contains(x) && b.contains(x));
    }
}

/// An assignment that starts from one fresh for `g` and goes on with
/// literals whose variables occur in `assign(g, l)` never holds `-l`.
pub proof fn lemma_extend_not_contains(av: Seq<int>, ar: Seq<int>, g: Seq<Seq<int>>, l: int)
    requires
        av.is_prefix_of(ar),
        avoids(g, av),
        occurs(g, l) || occurs(g, -l),
        forall|k: int|
            av.len() <= k < ar.len() ==> occurs(assign_cnf(g, l), #[trigger] ar[k]) || occurs(
                assign_cnf(g, l),
                -ar[k],
            ),
    ensures
        !ar.contains(-l),
{
    lemma_assign_no_l(g, l);
    if ar.contains(-l) {
        let k = choose|k: int| 0 <= k < ar.len() && ar[k] == -l;
        if k < av.len() {
            assert(ar[k] == av[k]);
            assert(!occurs(g, #[trigger] av[k]) && !occurs(g, -av[k]));
            assert(false);
        } else {
            assert(occurs(assign_cnf(g, l), ar[k]) || occurs(assign_cnf(g, l), -ar[k]));
            assert(false);
        }
    }
}

/// Appending a nonzero literal whose negation is absent keeps consistency.
pub proof fn lemma_consistent_snoc(ar: Seq<int>, l: int)
    requires
        consistent(ar),
        l != 0,
        !ar.contains(-l),
    ensures
        consistent(ar.push(l)),
{
    let ap = ar.push(l);
    assert forall|k: int| 0 <= k < ap.len() implies #[trigger] ap[k] != 0 && !ap.contains(
        -ap[k],
    ) by {
        lemma_contains_push(ar, l, -ap[k]);
        if k < ar.len() {
            assert(ap[k] == ar[k]);
            assert(ar[k] != 0 && !ar.contains(-ar[k]));
            if -ap[k] == l {
                assert(ar.contains(-l));
                assert(false);
            }
        } else {
            assert(ap[k] == l);
        }
    }
}

/// A consistent assignment that holds the branch literal, the propagation
/// trace, and a witness in every clause of the branch formula solves the
/// original formula.
pub proof fn lemma_solution_lift(f0: Seq<Seq<int>>, a_fin: Seq<int>, l: int)
    requires
        wf_cnf(f0),
        consistent(a_fin),
        asg_sat_cnf(a_fin, assign_cnf(propagate(f0).0, l)),
        a_fin.contains(l),
        forall|k: int|
            0 <= k < propagate(f0).1.len() ==> a_fin.contains(#[trigger] propagate(f0).1[k]),
    ensures
        asg_sat_cnf(a_fin, f0),
        satisfiable(f0),
{
    lemma_asg_assign_lift(a_fin, propagate(f0).0, l);
    lemma_propagate_asg(f0, a_fin);
    lemma_asg_to_model(a_fin, f0);
}

/// What exhaustive propagation preserves: well-formedness, occurrence,
/// satisfiability, the literal count; and each trace literal occurs in the
/// original formula.
pub proof fn lemma_propagate(f: Seq<Seq<int>>)
    requires
        wf_cnf(f),
    ensures
        wf_cnf(propagate(f).0),
        satisfiable(propagate(f).0) <==> satisfiable(f),
        forall|x: int| #[trigger] occurs(propagate(f).0, x) ==> occurs(f, x),
        num_lits(propagate(f).0) <= num_lits(f),
        forall|k: int| 0 <= k < propagate(f).1.len() ==> occurs(f, #[trigger] propagate(f).1[k]),
    decreases num_lits(f),
{
    match first_unit(f) {
        Some(l) => {
            lemma_first_unit(f);
            lemma_first_unit_occurs(f, l);
            lemma_assign_num_lits(f, l);
            lemma_assign_wf(f, l);
            lemma_assign_occurs(f, l);
            let f2 = assign_cnf(f, l);
            assert(propagate(f) == (propagate(f2).0, seq![l] + propagate(f2).1));
            lemma_propagate(f2);
            let i = choose|i: int|
                0 <= i < f.len() && (#[trigger] f[i]).len() == 1 && f[i][0] == l;
            lemma_unit_sat(f, i);
            let t = propagate(f).1;
            assert forall|k: int| 0 <= k < t.len() implies occurs(f, #[trigger] t[k]) by {
                if k == 0 {
                    assert(t[0] == l);
                } else {
                    assert(t[k] == propagate(f2).1[k - 1]);
                    assert(occurs(f2, t[k]));
                }
            }
        },
        None => {
            assert(propagate(f) == (f, Seq::<int>::empty()));
        },
    }
}

/// Propagation extends a consistent assignment, fresh for the formula, into
/// a consistent assignment fresh for the propagated formula.
pub proof fn lemma_propagate_extend(f: Seq<Seq<int>>, a: Seq<int>)
    requires
        wf_cnf(f),
        consistent(a),
        avoids(f, a),
    ensures
        consistent(a + propagate(f).1),
        avoids(propagate(f).0, a + propagate(f).1),
    decreases num_lits(f),
{
    match first_unit(f) {
        Some(l) => {
            lemma_first_unit_occurs(f, l);
            lemma_assign_num_lits(f, l);
            lemma_assign_wf(f, l);
            lemma_assign_no_l(f, l);
            lemma_assign_occurs(f, l);
            lemma_wf_occurs(f, l);
            let f2 = assign_cnf(f, l);
            assert(propagate(f) == (propagate(f2).0, seq![l] + propagate(f2).1));
            let a2 = a.push(l);
            assert(consistent(a2)) by {
                assert forall|k: int| 0 <= k < a2.len() implies #[trigger] a2[k] != 0
                    && !a2.contains(-a2[k]) by {
                    lemma_contains_push(a, l, -a2[k]);
                    if k < a.len() {
                        assert(a2[k] == a[k]);
                        assert(a[k] != 0 && !a.contains(-a[k]));
                        if -a2[k] == l {
                            assert(!occurs(f, -a[k]));
                            assert(false);
                        }
                    } else {
                        assert(a2[k] == l);
                        if a.contains(-l) {
                            let kk = choose|kk: int| 0 <= kk < a.len() && a[kk] == -l;
                            assert(!occurs(f, -(#[trigger] a[kk])));
                            assert(false);
                        }
                    }
                }
            }
            assert(avoids(f2, a2)) by {
                assert forall|k: int| 0 <= k < a2.len() implies !occurs(f2, #[trigger] a2[k])
                    && !occurs(f2, -a2[k]) by {
                    if k < a.len() {
                        assert(a2[k] == a[k]);
                        assert(!occurs(f, a[k]) && !occurs(f, -a[k]));
                    } else {
                        assert(a2[k] == l);
                    }
                }
            }
            lemma_propagate_extend(f2, a2);
            assert(a + propagate(f).1 =~= a2 + propagate(f2).1);
        },
        None => {
            assert(propagate(f) == (f, Seq::<int>::empty()));
            assert(a + propagate(f).1 =~= a);
        },
    }
}

/// An assignment that contains the whole propagation trace and meets the
/// propagated formula meets the original formula.
pub proof fn lemma_propagate_asg(f: Seq<Seq<int>>, a: Seq<int>)
    requires
        asg_sat_cnf(a, propagate(f).0),
        forall|k: int| 0 <= k < propagate(f).1.len() ==> a.contains(#[trigger] propagate(f).1[k]),
    ensures
        asg_sat_cnf(a, f),
    decreases num_lits(f),
{
    match first_unit(f) {
        Some(l) => {
            lemma_first_unit_occurs(f, l);
            lemma_assign_num_lits(f, l);
            let f2 = assign_cnf(f, l);
            assert(propagate(f) == (propagate(f2).0, seq![l] + propagate(f2).1));
            let t = propagate(f).1;
            assert(t[0] == l);
            assert(a.contains(l));
            assert forall|k: int|
                0 <= k < propagate(f2).1.len() implies a.contains(
                #[trigger] propagate(f2).1[k],
            ) by {
                assert(t[k + 1] == propagate(f2).1[k]);
            }
            lemma_propagate_asg(f2, a);
            lemma_asg_assign_lift(a, f, l);
        },
        None => {
            assert(propagate(f) == (f, Seq::<int>::empty()));
        },
    }
}

} // verus!
