//! The DPLL decision procedure in its function-per-step form: unit
//! propagation followed by a recursive case-split over the polarity of the
//! first literal of the first clause.

use vstd::prelude::*;
use crate::logic::{
    assign_cnf, avoids, cnf_view, first_unit, has_empty_clause, lits_view, num_lits, occurs,
    propagate, remove_lit_of, wf_cnf, lemma_assign_no_l, lemma_assign_num_lits,
    lemma_assign_occurs, lemma_assign_push, lemma_assign_wf, lemma_cnf_view_append,
    lemma_cnf_view_push, lemma_contains_append, lemma_contains_push, lemma_first_unit_push,
    lemma_lits_view_push, lemma_prefix_contains, lemma_prefix_trans, lemma_remove_lit_of_push,
    lemma_wf_occurs,
};
use crate::semantics::{
    asg_sat_cnf, consistent, satisfiable, lemma_asg_sat_mono, lemma_asg_to_model,
    lemma_branch_sat, lemma_consistent_snoc, lemma_empty_clause_unsat, lemma_empty_formula_sat,
    lemma_extend_not_contains, lemma_propagate, lemma_propagate_asg, lemma_propagate_extend,
    lemma_solution_lift,
};

verus! {

/// An exact copy of a literal vector.
pub(crate) fn clone_lits(a: &Vec<isize>) -> (r: Vec<isize>)
    ensures
        r@ == a@,
{
    let mut out: Vec<isize> = Vec::new();
    let mut i: usize = 0;
    while i < a.len()
        invariant
            i <= a@.len(),
            out@ == a@.take(i as int),
        decreases a@.len() - i,
    {
        proof {
            assert(a@.take(i as int + 1) =~= a@.take(i as int).push(a@[i as int]));
        }
        out.push(a[i]);
        i = i + 1;
    }
    proof {
        assert(a@.take(a@.len() as int) =~= a@);
    }
    out
}

/// An exact copy of a clause vector, clause by clause.
pub(crate) fn clone_clauses(c: &Vec<Vec<isize>>) -> (r: Vec<Vec<isize>>)
    ensures
        r@.len() == c@.len(),
        cnf_view(r@) == cnf_view(c@),
{
    let mut out: Vec<Vec<isize>> = Vec::new();
    let mut i: usize = 0;
    while i < c.len()
        invariant
            i <= c@.len(),
            out@.len() == i,
            cnf_view(out@) == cnf_view(c@.take(i as int)),
        decreases c@.len() - i,
    {
        let row = clone_lits(&c[i]);
        proof {
            assert(c@.take(i as int + 1) =~= c@.take(i as int).push(c@[i as int]));
            lemma_cnf_view_push(c@.take(i as int), c@[i as int]);
            lemma_cnf_view_push(out@, row);
            assert(lits_view(row@) == lits_view(c@[i as int]@));
        }
        out.push(row);
        i = i + 1;
    }
    proof {
        assert(c@.take(c@.len() as int) =~= c@);
    }
    out
}

/// Whether the clause holds the literal.
pub(crate) fn clause_contains(clause: &Vec<isize>, lit: isize) -> (r: bool)
    ensures
        r == lits_view(clause@).contains(lit as int),
{
    let mut i: usize = 0;
    while i < clause.len()
        invariant
            i <= clause@.len(),
            forall|k: int| 0 <= k < i ==> #[trigger] lits_view(clause@)[k] != lit as int,
        decreases clause@.len() - i,
    {
        if clause[i] == lit {
            proof {
                assert(lits_view(clause@)[i as int] == lit as int);
            }
            return true;
        }
        i = i + 1;
    }
    proof {
        if lits_view(clause@).contains(lit as int) {
            let k = choose|k: int|
                0 <= k < lits_view(clause@).len() && lits_view(clause@)[k] == lit as int;
            assert(false);
        }
    }
    false
}

/// The literal of the first unit clause of the formula, scanning in order.
pub(crate) fn find_unit(cnf: &Vec<Vec<isize>>) -> (r: Option<isize>)
    ensures
        match r {
            Some(l) => first_unit(cnf_view(cnf@)) == Some(l as int),
            None => first_unit(cnf_view(cnf@)).is_none(),
        },
{
    let mut i: usize = 0;
    while i < cnf.len()
        invariant
            i <= cnf@.len(),
            first_unit(cnf_view(cnf@.take(i as int))).is_none(),
        decreases cnf@.len() - i,
    {
        proof {
            assert(cnf@.take(i as int + 1) =~= cnf@.take(i as int).push(cnf@[i as int]));
            lemma_cnf_view_push(cnf@.take(i as int), cnf@[i as int]);
            lemma_first_unit_push(cnf_view(cnf@.take(i as int)), lits_view(cnf@[i as int]@));
        }
        if cnf[i].len() == 1 {
            let l = cnf[i][0];
            proof {
                assert(lits_view(cnf@[i as int]@)[0] == l as int);
                assert(first_unit(cnf_view(cnf@.take(i as int + 1))) == Some(l as int));
                assert(cnf@.take(i as int + 1) + cnf@.skip(i as int + 1) =~= cnf@);
                lemma_cnf_view_append(cnf@.take(i as int + 1), cnf@.skip(i as int + 1));
                crate::logic::lemma_first_unit_append(
                    cnf_view(cnf@.take(i as int + 1)),
                    cnf_view(cnf@.skip(i as int + 1)),
                );
            }
            return Some(l);
        }
        i = i + 1;
    }
    proof {
        assert(cnf@.take(cnf@.len() as int) =~= cnf@);
    }
    None
}

/// Whether some clause of the formula is empty.
pub(crate) fn find_empty_clause(cnf: &Vec<Vec<isize>>) -> (r: bool)
    ensures
        r == has_empty_clause(cnf_view(cnf@)),
{
    let mut i: usize = 0;
    while i < cnf.len()
        invariant
            i <= cnf@.len(),
            forall|k: int| 0 <= k < i ==> (#[trigger] cnf_view(cnf@)[k]).len() != 0,
        decreases cnf@.len() - i,
    {
        if cnf[i].len() == 0 {
            proof {
                assert(cnf_view(cnf@)[i as int].len() == 0);
            }
            return true;
        }
        i = i + 1;
    }
    proof {
        if has_empty_clause(cnf_view(cnf@)) {
            let k = choose|k: int|
                0 <= k < cnf_view(cnf@).len() && (#[trigger] cnf_view(cnf@)[k]).len() == 0;
            assert(false);
        }
    }
    false
}

/// Clause-level steps of the procedure.
pub struct DPLLClause;

impl DPLLClause {
    /// A unit clause forces its only literal.
    pub fn is_unit(clause: &Vec<isize>) -> (r: bool)
        ensures
            r == (clause@.len() == 1),
    {
        clause.len() == 1
    }

    /// The clause with every occurrence of `lit` removed, order kept.
    pub fn assign_clause(clause: &Vec<isize>, lit: isize) -> (r: Vec<isize>)
        ensures
            lits_view(r@) == remove_lit_of(lits_view(clause@), lit as int),
    {
        let mut out: Vec<isize> = Vec::new();
        let mut i: usize = 0;
        while i < clause.len()
            invariant
                i <= clause@.len(),
                lits_view(out@) == remove_lit_of(lits_view(clause@.take(i as int)), lit as int),
            decreases clause@.len() - i,
        {
            proof {
                assert(clause@.take(i as int + 1) =~= clause@.take(i as int).push(
                    clause@[i as int],
                ));
                lemma_lits_view_push(clause@.take(i as int), clause@[i as int]);
                lemma_remove_lit_of_push(
                    lits_view(clause@.take(i as int)),
                    lit as int,
                    clause@[i as int] as int,
                );
                if clause@[i as int] != lit {
                    lemma_lits_view_push(out@, clause@[i as int]);
                }
            }
            if clause[i] != lit {
                out.push(clause[i]);
            }
            i = i + 1;
        }
        proof {
            assert(clause@.take(clause@.len() as int) =~= clause@);
        }
        out
    }
}

/// The recursive engine: one function per step of the procedure.
pub struct DPLL;

impl DPLL {
    /// The `assign` operation: drop every clause that contains `lit`, strip
    /// `-lit` from the clauses that stay.
    pub fn assign(cnf: &Vec<Vec<isize>>, lit: isize) -> (r: Vec<Vec<isize>>)
        requires
            lit != isize::MIN,
        ensures
            cnf_view(r@) == assign_cnf(cnf_view(cnf@), lit as int),
    {
        let neg = -lit;
        let mut out: Vec<Vec<isize>> = Vec::new();
        let mut i: usize = 0;
        while i < cnf.len()
            invariant
                lit != isize::MIN,
                neg == -lit,
                i <= cnf@.len(),
                cnf_view(out@) == assign_cnf(cnf_view(cnf@.take(i as int)), lit as int),
            decreases cnf@.len() - i,
        {
            let sat_here = clause_contains(&cnf[i], lit);
            proof {
                assert(cnf@.take(i as int + 1) =~= cnf@.take(i as int).push(cnf@[i as int]));
                lemma_cnf_view_push(cnf@.take(i as int), cnf@[i as int]);
                lemma_assign_push(
                    cnf_view(cnf@.take(i as int)),
                    lit as int,
                    lits_view(cnf@[i as int]@),
                );
            }
            if !sat_here {
                let stripped = DPLLClause::assign_clause(&cnf[i], neg);
                proof {
                    lemma_cnf_view_push(out@, stripped);
                }
                out.push(stripped);
            }
            i = i + 1;
        }
        proof {
            assert(cnf@.take(cnf@.len() as int) =~= cnf@);
        }
        out
    }

    /// Whether some clause of the formula is empty.
    pub fn exists_empty_clause(cnf: &Vec<Vec<isize>>) -> (r: bool)
        ensures
            r == has_empty_clause(cnf_view(cnf@)),
    {
        find_empty_clause(cnf)
    }

    /// The literal of the first unit clause, scanning clauses in order.
    pub fn get_unit_literal(cnf: &mut Vec<Vec<isize>>) -> (r: Option<isize>)
        ensures
            final(cnf)@ == old(cnf)@,
            match r {
                Some(l) => first_unit(cnf_view(old(cnf)@)) == Some(l as int),
                None => first_unit(cnf_view(old(cnf)@)).is_none(),
            },
    {
        find_unit(cnf)
    }

    /// The branch literal: the first literal of the first clause.
    pub fn select(cnf: &Vec<Vec<isize>>) -> (r: isize)
        requires
            cnf@.len() > 0,
            cnf@[0]@.len() > 0,
        ensures
            r as int == cnf_view(cnf@)[0][0],
    {
        cnf[0][0]
    }

    /// Exhaustive unit propagation: while a unit clause exists, record its
    /// literal and apply `assign`.  Returns the simplified formula together
    /// with the extended assignment; the formula read through `cnf` is left
    /// as it was.
    pub fn unit_propagation(cnf: &mut Vec<Vec<isize>>, assignment: &mut Vec<isize>) -> (r: (
        Vec<Vec<isize>>,
        Vec<isize>,
    ))
        requires
            wf_cnf(cnf_view(old(cnf)@)),
        ensures
            final(cnf)@ == old(cnf)@,
            lits_view(final(assignment)@) == lits_view(old(assignment)@) + propagate(
                cnf_view(old(cnf)@),
            ).1,
            cnf_view(r.0@) == propagate(cnf_view(old(cnf)@)).0,
            r.1@ == final(assignment)@,
        decreases num_lits(cnf_view(old(cnf)@)),
    {
        let ghost f0 = cnf_view(cnf@);
        let ghost a0 = lits_view(assignment@);
        let u = Self::get_unit_literal(cnf);
        if let Some(lit) = u {
            proof {
                crate::logic::lemma_first_unit_occurs(f0, lit as int);
                lemma_wf_occurs(f0, lit as int);
                lemma_assign_num_lits(f0, lit as int);
                lemma_assign_wf(f0, lit as int);
            }
            let ghost av0 = assignment@;
            assignment.push(lit);
            proof {
                lemma_lits_view_push(av0, lit);
            }
            let mut assigned = Self::assign(cnf, lit);
            let res = Self::unit_propagation(&mut assigned, assignment);
            proof {
                let f2 = assign_cnf(f0, lit as int);
                assert(propagate(f0) == (propagate(f2).0, seq![lit as int] + propagate(f2).1));
                assert(a0 + (seq![lit as int] + propagate(f2).1) =~= a0.push(lit as int) + propagate(
                    f2,
                ).1);
            }
            return res;
        }
        proof {
            assert(propagate(f0) == (f0, Seq::<int>::empty()));
            assert(lits_view(assignment@) + Seq::<int>::empty() =~= lits_view(assignment@));
        }
        (clone_clauses(cnf), clone_lits(assignment))
    }

    /// The DPLL search: propagate, test the two terminal states, otherwise
    /// branch on the first literal of the first clause, trying it positively
    /// and then negatively on a fresh copy of the state.  Returns the
    /// satisfying assignment, or `None` exactly when the formula read
    /// through `cnf` has no model.
    pub fn solver(cnf: &mut Vec<Vec<isize>>, assignment: &mut Vec<isize>) -> (r: Option<
        Vec<isize>,
    >)
        requires
            wf_cnf(cnf_view(old(cnf)@)),
            consistent(lits_view(old(assignment)@)),
            avoids(cnf_view(old(cnf)@), lits_view(old(assignment)@)),
        ensures
            final(cnf)@ == old(cnf)@,
            lits_view(final(assignment)@) == lits_view(old(assignment)@) + propagate(
                cnf_view(old(cnf)@),
            ).1,
            r.is_some() <==> satisfiable(cnf_view(old(cnf)@)),
            match r {
                Some(a) => consistent(lits_view(a@)) && asg_sat_cnf(
                    lits_view(a@),
                    cnf_view(old(cnf)@),
                ) && lits_view(old(assignment)@).is_prefix_of(lits_view(a@)) && (forall|k: int|
                    old(assignment)@.len() <= k < a@.len() ==> occurs(
                        cnf_view(old(cnf)@),
                        #[trigger] lits_view(a@)[k],
                    ) || occurs(cnf_view(old(cnf)@), -lits_view(a@)[k])),
                None => true,
            },
        decreases num_lits(cnf_view(old(cnf)@)),
    {
        let ghost f0 = cnf_view(cnf@);
        let ghost a0 = lits_view(assignment@);
        proof {
            lemma_propagate(f0);
            lemma_propagate_extend(f0, a0);
        }
        let (c, a) = Self::unit_propagation(cnf, assignment);
        let ghost g = propagate(f0).0;
        let ghost t = propagate(f0).1;
        let ghost av = a0 + t;
        proof {
            assert(cnf_view(c@) == g);
            assert(lits_view(a@) == av);
            assert(a0.is_prefix_of(av)) by {
                assert(av.subrange(0, a0.len() as int) =~= a0);
            }
            assert forall|k: int| 0 <= k < t.len() implies av.contains(#[trigger] t[k]) by {
                lemma_contains_append(a0, t, t[k]);
            }
            assert forall|k: int| a0.len() <= k < av.len() implies occurs(
                f0,
                #[trigger] av[k],
            ) by {
                assert(av[k] == t[k - a0.len()]);
            }
        }
        if c.is_empty() {
            proof {
                assert(g.len() == 0);
                lemma_empty_formula_sat(g);
                assert(asg_sat_cnf(av, g));
                lemma_propagate_asg(f0, av);
                lemma_asg_to_model(av, f0);
            }
            return Some(a);
        }
        if Self::exists_empty_clause(&c) {
            proof {
                lemma_empty_clause_unsat(g);
            }
            return None;
        }
        proof {
            assert(g.len() > 0);
            if g[0].len() == 0 {
                assert(has_empty_clause(g));
            }
            assert(c@[0]@.len() > 0);
        }
        let lit = Self::select(&c);
        let ghost l = lit as int;
        proof {
            assert(g[0].contains(g[0][0]));
            assert(occurs(g, l));
            lemma_wf_occurs(g, l);
            lemma_assign_wf(g, l);
            lemma_assign_num_lits(g, l);
            lemma_assign_no_l(g, l);
            lemma_assign_occurs(g, l);
            assert forall|k: int| 0 <= k < av.len() implies !occurs(
                assign_cnf(g, l),
                #[trigger] av[k],
            ) && !occurs(assign_cnf(g, l), -av[k]) by {
                assert(!occurs(g, av[k]) && !occurs(g, -av[k]));
            }
            assert(avoids(assign_cnf(g, l), av));
        }
        let mut c1 = Self::assign(&c, lit);
        let mut a1 = clone_lits(&a);
        let r1 = Self::solver(&mut c1, &mut a1);
        if let Some(mut a_r) = r1 {
            let ghost arv = lits_view(a_r@);
            proof {
                lemma_extend_not_contains(av, arv, g, l);
                lemma_consistent_snoc(arv, l);
                lemma_lits_view_push(a_r@, lit);
                lemma_contains_push(arv, l, l);
                assert forall|x: int| #[trigger] arv.contains(x) implies arv.push(l).contains(
                    x,
                ) by {
                    lemma_contains_push(arv, l, x);
                }
                lemma_asg_sat_mono(arv, arv.push(l), assign_cnf(g, l));
                assert forall|k: int| 0 <= k < t.len() implies arv.push(l).contains(
                    #[trigger] t[k],
                ) by {
                    lemma_prefix_contains(av, arv, t[k]);
                    lemma_contains_push(arv, l, t[k]);
                }
                lemma_solution_lift(f0, arv.push(l), l);
                assert(arv.is_prefix_of(arv.push(l))) by {
                    assert(arv.push(l).subrange(0, arv.len() as int) =~= arv);
                }
                lemma_prefix_trans(a0, av, arv);
                lemma_prefix_trans(a0, arv, arv.push(l));
                assert forall|k: int| a0.len() <= k < arv.push(l).len() implies occurs(
                    f0,
                    #[trigger] arv.push(l)[k],
                ) || occurs(f0, -arv.push(l)[k]) by {
                    if k < av.len() {
                        assert(arv.push(l)[k] == arv[k]);
                        assert(arv[k] == av[k]);
                        assert(occurs(f0, av[k]));
                    } else if k < arv.len() {
                        assert(arv.push(l)[k] == arv[k]);
                        assert(occurs(assign_cnf(g, l), arv[k]) || occurs(
                            assign_cnf(g, l),
                            -arv[k],
                        ));
                        assert(occurs(g, arv[k]) || occurs(g, -arv[k]));
                    } else {
                        assert(arv.push(l)[k] == l);
                        assert(occurs(f0, l));
                    }
                }
            }
            a_r.push(lit);
            return Some(a_r);
        }
        let nlit = -lit;
        let ghost nl = nlit as int;
        proof {
            assert(nl == -l);
            lemma_assign_wf(g, nl);
            lemma_assign_num_lits(g, nl);
            assert(occurs(g, -nl));
            lemma_assign_no_l(g, nl);
            lemma_assign_occurs(g, nl);
            assert forall|k: int| 0 <= k < av.len() implies !occurs(
                assign_cnf(g, nl),
                #[trigger] av[k],
            ) && !occurs(assign_cnf(g, nl), -av[k]) by {
                assert(!occurs(g, av[k]) && !occurs(g, -av[k]));
            }
            assert(avoids(assign_cnf(g, nl), av));
        }
        let mut c2 = Self::assign(&c, nlit);
        let mut a2 = clone_lits(&a);
        let r2 = Self::solver(&mut c2, &mut a2);
        if let Some(mut a_r) = r2 {
            let ghost arv = lits_view(a_r@);
            proof {
                assert(occurs(g, -nl));
                assert forall|k: int| av.len() <= k < arv.len() implies occurs(
                    assign_cnf(g, nl),
                    #[trigger] arv[k],
                ) || occurs(assign_cnf(g, nl), -arv[k]) by {}
                lemma_extend_not_contains(av, arv, g, nl);
                lemma_consistent_snoc(arv, nl);
                lemma_lits_view_push(a_r@, nlit);
                lemma_contains_push(arv, nl, nl);
                assert forall|x: int| #[trigger] arv.contains(x) implies arv.push(nl).contains(
                    x,
                ) by {
                    lemma_contains_push(arv, nl, x);
                }
                lemma_asg_sat_mono(arv, arv.push(nl), assign_cnf(g, nl));
                assert forall|k: int| 0 <= k < t.len() implies arv.push(nl).contains(
                    #[trigger] t[k],
                ) by {
                    lemma_prefix_contains(av, arv, t[k]);
                    lemma_contains_push(arv, nl, t[k]);
                }
                lemma_solution_lift(f0, arv.push(nl), nl);
                assert(arv.is_prefix_of(arv.push(nl))) by {
                    assert(arv.push(nl).subrange(0, arv.len() as int) =~= arv);
                }
                lemma_prefix_trans(a0, av, arv);
                lemma_prefix_trans(a0, arv, arv.push(nl));
                assert forall|k: int| a0.len() <= k < arv.push(nl).len() implies occurs(
                    f0,
                    #[trigger] arv.push(nl)[k],
                ) || occurs(f0, -arv.push(nl)[k]) by {
                    if k < av.len() {
                        assert(arv.push(nl)[k] == arv[k]);
                        assert(arv[k] == av[k]);
                        assert(occurs(f0, av[k]));
                    } else if k < arv.len() {
                        assert(arv.push(nl)[k] == arv[k]);
                        assert(occurs(assign_cnf(g, nl), arv[k]) || occurs(
                            assign_cnf(g, nl),
                            -arv[k],
                        ));
                        assert(occurs(g, arv[k]) || occurs(g, -arv[k]));
                    } else {
                        assert(arv.push(nl)[k] == nl);
                        assert(occurs(f0, -nl));
                    }
                }
            }
            a_r.push(nlit);
            return Some(a_r);
        }
        proof {
            lemma_branch_sat(g, l);
        }
        None
    }
}

} // verus!
