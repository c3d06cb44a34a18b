//! The DPLL solver in its state-carrying form: a `Dpll` value holds the
//! formula still to satisfy together with the assignment fixed so far, and
//! each branch of the search works on its own copy of that state.

use vstd::prelude::*;
use crate::dpll::{clone_lits, find_empty_clause, find_unit, DPLL, DPLLClause};
use crate::logic::{
    assign_cnf, avoids, cnf_view, first_unit, has_empty_clause, lits_view, num_lits, occurs,
    propagate, remove_lit_of, wf_cnf, lemma_assign_no_l, lemma_assign_num_lits,
    lemma_assign_occurs, lemma_assign_wf, lemma_contains_append, lemma_contains_push,
    lemma_first_unit_occurs, lemma_lits_view_push, lemma_prefix_contains, lemma_prefix_trans,
    lemma_wf_occurs,
};
use crate::semantics::{
    asg_sat_cnf, consistent, satisfiable, lemma_asg_to_model, lemma_branch_sat,
    lemma_consistent_snoc, lemma_empty_clause_unsat, lemma_empty_formula_sat,
    lemma_extend_not_contains, lemma_propagate, lemma_propagate_asg, lemma_propagate_extend,
    lemma_solution_lift,
};

verus! {

/// The search state: the simplified formula and the assignment so far.
#[derive(Debug, PartialEq, Clone)]
pub struct Dpll {
    pub cnf: Vec<Vec<isize>>,
    pub ass: Vec<isize>,
}

/// The clause with every occurrence of `lit` removed, order kept.
pub fn retain_lit(cl: Vec<isize>, lit: isize) -> (r: Vec<isize>)
    ensures
        lits_view(r@) == remove_lit_of(lits_view(cl@), lit as int),
{
    DPLLClause::assign_clause(&cl, lit)
}

impl Dpll {
    /// A fresh solver state: the given formula, no literal fixed yet.
    pub fn new(cnf: Vec<Vec<isize>>) -> (r: Dpll)
        ensures
            r.cnf == cnf,
            r.ass@.len() == 0,
    {
        Dpll { cnf, ass: Vec::new() }
    }

    /// The formula has no clause left: every clause has been satisfied.
    pub fn is_empty(&self) -> (r: bool)
        ensures
            r == (self.cnf@.len() == 0),
    {
        self.cnf.is_empty()
    }

    /// Some clause of the formula is empty: a contradiction was reached.
    pub fn exists_empty_clause(&self) -> (r: bool)
        ensures
            r == has_empty_clause(cnf_view(self.cnf@)),
    {
        find_empty_clause(&self.cnf)
    }

    /// The literal of the first unit clause, scanning clauses in order.
    pub fn get_unit_literal(&self) -> (r: Option<isize>)
        ensures
            match r {
                Some(l) => first_unit(cnf_view(self.cnf@)) == Some(l as int),
                None => first_unit(cnf_view(self.cnf@)).is_none(),
            },
    {
        find_unit(&self.cnf)
    }

    /// The branch literal: the first literal of the first clause.
    pub fn heuristic_select(&self) -> (r: isize)
        requires
            self.cnf@.len() > 0,
            self.cnf@[0]@.len() > 0,
        ensures
            r as int == cnf_view(self.cnf@)[0][0],
    {
        self.cnf[0][0]
    }

    /// One `assign` step on the state: the literal is recorded and the
    /// formula simplified, on a copy, so that siblings share nothing.
    pub fn assign(&self, lit: isize) -> (r: Self)
        requires
            lit != isize::MIN,
        ensures
            cnf_view(r.cnf@) == assign_cnf(cnf_view(self.cnf@), lit as int),
            r.ass@ == self.ass@.push(lit),
    {
        let mut ass = clone_lits(&self.ass);
        ass.push(lit);
        let cnf = DPLL::assign(&self.cnf, lit);
        Dpll { cnf, ass }
    }

    /// Exhaustive unit propagation: while a unit clause exists, record its
    /// literal and apply `assign`.
    pub fn unit_propagation(self) -> (r: Self)
        requires
            wf_cnf(cnf_view(self.cnf@)),
        ensures
            cnf_view(r.cnf@) == propagate(cnf_view(self.cnf@)).0,
            lits_view(r.ass@) == lits_view(self.ass@) + propagate(cnf_view(self.cnf@)).1,
        decreases num_lits(cnf_view(self.cnf@)),
    {
        let ghost f0 = cnf_view(self.cnf@);
        let ghost a0 = lits_view(self.ass@);
        let u = self.get_unit_literal();
        if let Some(lit) = u {
            proof {
                lemma_first_unit_occurs(f0, lit as int);
                lemma_wf_occurs(f0, lit as int);
                lemma_assign_num_lits(f0, lit as int);
                lemma_assign_wf(f0, lit as int);
                lemma_lits_view_push(self.ass@, lit);
            }
            let next = self.assign(lit);
            let r = next.unit_propagation();
            proof {
                let f2 = assign_cnf(f0, lit as int);
                assert(propagate(f0) == (propagate(f2).0, seq![lit as int] + propagate(f2).1));
                assert(a0 + (seq![lit as int] + propagate(f2).1) =~= a0.push(lit as int)
                    + propagate(f2).1);
            }
            return r;
        }
        proof {
            assert(propagate(f0) == (f0, Seq::<int>::empty()));
            assert(a0 + Seq::<int>::empty() =~= a0);
        }
        self
    }

    /// The DPLL search on the state: propagate, test the two terminal
    /// states, otherwise branch on the first literal of the first clause in
    /// both polarities.  Succeeds, with a state whose formula is empty and
    /// whose assignment satisfies the incoming formula, exactly when that
    /// formula has a model.
    pub fn solver(self) -> (r: Option<Self>)
        requires
            wf_cnf(cnf_view(self.cnf@)),
            consistent(lits_view(self.ass@)),
            avoids(cnf_view(self.cnf@), lits_view(self.ass@)),
        ensures
            r.is_some() <==> satisfiable(cnf_view(self.cnf@)),
            match r {
                Some(d) => d.cnf@.len() == 0 && consistent(lits_view(d.ass@)) && asg_sat_cnf(
                    lits_view(d.ass@),
                    cnf_view(self.cnf@),
                ) && lits_view(self.ass@).is_prefix_of(lits_view(d.ass@)) && (forall|k: int|
                    self.ass@.len() <= k < d.ass@.len() ==> occurs(
                        cnf_view(self.cnf@),
                        #[trigger] lits_view(d.ass@)[k],
                    ) || occurs(cnf_view(self.cnf@), -lits_view(d.ass@)[k])),
                None => true,
            },
        decreases num_lits(cnf_view(self.cnf@)),
    {
        let ghost f0 = cnf_view(self.cnf@);
        let ghost a0 = lits_view(self.ass@);
        proof {
            lemma_propagate(f0);
            lemma_propagate_extend(f0, a0);
        }
        let dpll = self.unit_propagation();
        let ghost g = propagate(f0).0;
        let ghost t = propagate(f0).1;
        let ghost av = a0 + t;
        proof {
            assert(cnf_view(dpll.cnf@) == g);
            assert(lits_view(dpll.ass@) == av);
            assert(a0.is_prefix_of(av)) by {
                assert(av.subrange(0, a0.len() as int) =~= a0);
            }
            assert(av.is_prefix_of(av)) by {
                assert(av.subrange(0, av.len() as int) =~= av);
            }
            assert forall|k: int| 0 <= k < t.len() implies av.contains(#[trigger] t[k]) by {
                lemma_contains_append(a0, t, t[k]);
            }
            assert forall|k: int| a0.len() <= k < av.len() implies occurs(
                f0,
                #[trigger] av[k],
            ) by {
                assert(av[k] == t[k - a0.len()]);
            }
        }
        if dpll.is_empty() {
            proof {
                assert(g.len() == 0);
                lemma_empty_formula_sat(g);
                assert(asg_sat_cnf(av, g));
                lemma_propagate_asg(f0, av);
                lemma_asg_to_model(av, f0);
            }
            return Some(dpll);
        }
        if dpll.exists_empty_clause() {
            proof {
                lemma_empty_clause_unsat(g);
            }
            return None;
        }
        proof {
            assert(g.len() > 0);
            if g[0].len() == 0 {
                assert(has_empty_clause(g));
            }
            assert(dpll.cnf@[0]@.len() > 0);
        }
        let heuristic_lit = dpll.heuristic_select();
        let ghost l = heuristic_lit as int;
        proof {
            assert(g[0].contains(g[0][0]));
            assert(occurs(g, l));
            lemma_wf_occurs(g, l);
            lemma_assign_wf(g, l);
            lemma_assign_num_lits(g, l);
            lemma_assign_no_l(g, l);
            lemma_assign_occurs(g, l);
            lemma_extend_not_contains(av, av, g, l);
            lemma_consistent_snoc(av, l);
            lemma_lits_view_push(dpll.ass@, heuristic_lit);
            assert forall|k: int| 0 <= k < av.push(l).len() implies !occurs(
                assign_cnf(g, l),
                #[trigger] av.push(l)[k],
            ) && !occurs(assign_cnf(g, l), -av.push(l)[k]) by {
                if k < av.len() {
                    assert(av.push(l)[k] == av[k]);
                    assert(!occurs(g, av[k]) && !occurs(g, -av[k]));
                } else {
                    assert(av.push(l)[k] == l);
                }
            }
            assert(avoids(assign_cnf(g, l), av.push(l)));
        }
        let branch1 = dpll.assign(heuristic_lit);
        let r1 = branch1.solver();
        if let Some(d) = r1 {
            let ghost dv = lits_view(d.ass@);
            proof {
                assert(av.push(l).is_prefix_of(dv));
                lemma_contains_push(av, l, l);
                lemma_prefix_contains(av.push(l), dv, l);
                assert forall|k: int| 0 <= k < t.len() implies dv.contains(#[trigger] t[k]) by {
                    lemma_contains_push(av, l, t[k]);
                    lemma_prefix_contains(av.push(l), dv, t[k]);
                }
                lemma_solution_lift(f0, dv, l);
                assert(av.is_prefix_of(av.push(l))) by {
                    assert(av.push(l).subrange(0, av.len() as int) =~= av);
                }
                lemma_prefix_trans(a0, av, av.push(l));
                lemma_prefix_trans(a0, av.push(l), dv);
                assert(av.push(l) =~= dv.subrange(0, av.push(l).len() as int));
                assert forall|k: int| a0.len() <= k < dv.len() implies occurs(
                    f0,
                    #[trigger] dv[k],
                ) || occurs(f0, -dv[k]) by {
                    if k < av.len() {
                        assert(dv[k] == av[k]);
                        assert(occurs(f0, av[k]));
                    } else if k == av.len() {
                        assert(dv[k] == l);
                        assert(occurs(f0, l));
                    } else {
                        assert(occurs(assign_cnf(g, l), dv[k]) || occurs(
                            assign_cnf(g, l),
                            -dv[k],
                        ));
                        assert(occurs(g, dv[k]) || occurs(g, -dv[k]));
                    }
                }
            }
            return Some(d);
        }
        let nlit = -heuristic_lit;
        let ghost nl = nlit as int;
        proof {
            assert(nl == -l);
            lemma_assign_wf(g, nl);
            lemma_assign_num_lits(g, nl);
            assert(occurs(g, -nl));
            lemma_assign_no_l(g, nl);
            lemma_assign_occurs(g, nl);
            lemma_extend_not_contains(av, av, g, nl);
            lemma_consistent_snoc(av, nl);
            lemma_lits_view_push(dpll.ass@, nlit);
            assert forall|k: int| 0 <= k < av.push(nl).len() implies !occurs(
                assign_cnf(g, nl),
                #[trigger] av.push(nl)[k],
            ) && !occurs(assign_cnf(g, nl), -av.push(nl)[k]) by {
                if k < av.len() {
                    assert(av.push(nl)[k] == av[k]);
                    assert(!occurs(g, av[k]) && !occurs(g, -av[k]));
                } else {
                    assert(av.push(nl)[k] == nl);
                }
            }
            assert(avoids(assign_cnf(g, nl), av.push(nl)));
        }
        let branch2 = dpll.assign(nlit);
        let r2 = branch2.solver();
        if let Some(d) = r2 {
            let ghost dv = lits_view(d.ass@);
            proof {
                assert(av.push(nl).is_prefix_of(dv));
                lemma_contains_push(av, nl, nl);
                lemma_prefix_contains(av.push(nl), dv, nl);
                assert forall|k: int| 0 <= k < t.len() implies dv.contains(#[trigger] t[k]) by {
                    lemma_contains_push(av, nl, t[k]);
                    lemma_prefix_contains(av.push(nl), dv, t[k]);
                }
                lemma_solution_lift(f0, dv, nl);
                assert(av.is_prefix_of(av.push(nl))) by {
                    assert(av.push(nl).subrange(0, av.len() as int) =~= av);
                }
                lemma_prefix_trans(a0, av, av.push(nl));
                lemma_prefix_trans(a0, av.push(nl), dv);
                assert(av.push(nl) =~= dv.subrange(0, av.push(nl).len() as int));
                assert forall|k: int| a0.len() <= k < dv.len() implies occurs(
                    f0,
                    #[trigger] dv[k],
                ) || occurs(f0, -dv[k]) by {
                    if k < av.len() {
                        assert(dv[k] == av[k]);
                        assert(occurs(f0, av[k]));
                    } else if k == av.len() {
                        assert(dv[k] == nl);
                        assert(occurs(f0, -nl));
                    } else {
                        assert(occurs(assign_cnf(g, nl), dv[k]) || occurs(
                            assign_cnf(g, nl),
                            -dv[k],
                        ));
                        assert(occurs(g, dv[k]) || occurs(g, -dv[k]));
                    }
                }
            }
            return Some(d);
        }
        proof {
            lemma_branch_sat(g, l);
        }
        None
    }
}

} // verus!
