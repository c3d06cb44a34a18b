//! Laws of the solver's operations, stated once over the mathematical model
//! and proved for every formula.

use vstd::prelude::*;
use crate::logic::{
    assign_cnf, first_unit, has_empty_clause, num_lits, propagate, remove_lit_of,
    lemma_assign_cnf, lemma_assign_fixed, lemma_assign_no_l, lemma_assign_num_lits,
    lemma_first_unit, lemma_first_unit_occurs, lemma_remove_lit_of, lemma_remove_lit_of_noop,
};
use crate::semantics::{
    asg_sat_cnf, consistent, satisfiable, lemma_empty_clause_unsat, lemma_empty_formula_sat,
};

verus! {

/// Applying `assign` twice in succession with the same literal yields the
/// same formula as applying it once.
pub proof fn lemma_assign_idempotent(f: Seq<Seq<int>>, l: int)
    ensures
        assign_cnf(assign_cnf(f, l), l) == assign_cnf(f, l),
{
    lemma_assign_no_l(f, l);
    lemma_assign_fixed(assign_cnf(f, l), l);
}

/// The empty formula is satisfiable, and the empty assignment witnesses it.
pub proof fn lemma_empty_formula_satisfiable()
    ensures
        satisfiable(Seq::<Seq<int>>::empty()),
        consistent(Seq::<int>::empty()),
        asg_sat_cnf(Seq::<int>::empty(), Seq::<Seq<int>>::empty()),
{
    lemma_empty_formula_sat(Seq::<Seq<int>>::empty());
}

/// A formula that holds an empty clause is unsatisfiable, whatever else it
/// holds.
pub proof fn lemma_empty_clause_unsatisfiable(f: Seq<Seq<int>>)
    requires
        has_empty_clause(f),
    ensures
        !satisfiable(f),
{
    lemma_empty_clause_unsat(f);
}

/// Striking two literals from a clause can be done in either order.
proof fn lemma_remove_commutes(c: Seq<int>, x: int, y: int)
    ensures
        remove_lit_of(remove_lit_of(c, x), y) == remove_lit_of(remove_lit_of(c, y), x),
    decreases c.len(),
{
    if c.len() == 0 {
    } else {
        let h = c.first();
        let rest = c.drop_first();
        lemma_remove_commutes(rest, x, y);
        if h == x && h == y {
        } else if h == x {
            let s = remove_lit_of(rest, y);
            let cy = seq![h] + s;
            assert(remove_lit_of(c, y) == cy);
            assert(cy.first() == h);
            assert(cy.drop_first() =~= s);
            assert(remove_lit_of(cy, x) == remove_lit_of(s, x));
        } else if h == y {
            let s = remove_lit_of(rest, x);
            let cx = seq![h] + s;
            assert(remove_lit_of(c, x) == cx);
            assert(cx.first() == h);
            assert(cx.drop_first() =~= s);
            assert(remove_lit_of(cx, y) == remove_lit_of(s, y));
        } else {
            let sx = remove_lit_of(rest, x);
            let sy = remove_lit_of(rest, y);
            let cx = seq![h] + sx;
            let cy = seq![h] + sy;
            assert(remove_lit_of(c, x) == cx);
            assert(remove_lit_of(c, y) == cy);
            assert(cx.first() == h);
            assert(cx.drop_first() =~= sx);
            assert(cy.first() == h);
            assert(cy.drop_first() =~= sy);
            assert(remove_lit_of(cx, y) == seq![h] + remove_lit_of(sx, y));
            assert(remove_lit_of(cy, x) == seq![h] + remove_lit_of(sy, x));
        }
    }
}

/// Two `assign` steps on literals that do not contradict each other commute.
/// This is the one-step diamond behind `lemma_propagation_confluent` below;
/// when the two literals are contradictory (`l1 == -l2`) the orders may
/// differ, which is what that law's hypothesis excludes.
pub proof fn lemma_assign_commutes(f: Seq<Seq<int>>, l1: int, l2: int)
    requires
        l1 != -l2,
    ensures
        assign_cnf(assign_cnf(f, l1), l2) == assign_cnf(assign_cnf(f, l2), l1),
    decreases f.len(),
{
    if f.len() == 0 {
    } else {
        let c = f.first();
        let rest = f.drop_first();
        lemma_assign_commutes(rest, l1, l2);
        lemma_remove_lit_of(c, -l1);
        lemma_remove_lit_of(c, -l2);
        lemma_remove_commutes(c, -l1, -l2);
        if c.contains(l1) && c.contains(l2) {
        } else if c.contains(l1) {
            // `assign(_, l2)` keeps `c` as `remove_lit_of(c, -l2)`, which still
            // holds `l1` because `l1 != -l2`; `assign(_, l1)` then drops it.
            let c2 = remove_lit_of(c, -l2);
            assert(c2.contains(l1));
            let g2 = assign_cnf(f, l2);
            assert(g2 == seq![c2] + assign_cnf(rest, l2));
            assert(g2.first() == c2);
            assert(g2.drop_first() =~= assign_cnf(rest, l2));
            assert(assign_cnf(g2, l1) == assign_cnf(assign_cnf(rest, l2), l1));
        } else if c.contains(l2) {
            let c1 = remove_lit_of(c, -l1);
            assert(c1.contains(l2));
            let g1 = assign_cnf(f, l1);
            assert(g1 == seq![c1] + assign_cnf(rest, l1));
            assert(g1.first() == c1);
            assert(g1.drop_first() =~= assign_cnf(rest, l1));
            assert(assign_cnf(g1, l2) == assign_cnf(assign_cnf(rest, l1), l2));
        } else {
            let c1 = remove_lit_of(c, -l1);
            let c2 = remove_lit_of(c, -l2);
            assert(!c1.contains(l2));
            assert(!c2.contains(l1));
            let g1 = assign_cnf(f, l1);
            let g2 = assign_cnf(f, l2);
            assert(g1 == seq![c1] + assign_cnf(rest, l1));
            assert(g2 == seq![c2] + assign_cnf(rest, l2));
            assert(g1.first() == c1);
            assert(g1.drop_first() =~= assign_cnf(rest, l1));
            assert(g2.first() == c2);
            assert(g2.drop_first() =~= assign_cnf(rest, l2));
            assert(assign_cnf(g1, l2) == seq![remove_lit_of(c1, -l2)] + assign_cnf(
                assign_cnf(rest, l1),
                l2,
            ));
            assert(assign_cnf(g2, l1) == seq![remove_lit_of(c2, -l1)] + assign_cnf(
                assign_cnf(rest, l2),
                l1,
            ));
        }
    }
}

/// Some unit clause of the formula forces `l`.
pub open spec fn is_unit_of(f: Seq<Seq<int>>, l: int) -> bool {
    exists|i: int| 0 <= i < f.len() && (#[trigger] f[i]).len() == 1 && f[i][0] == l
}

/// The formula has a unit clause.
pub open spec fn has_unit(f: Seq<Seq<int>>) -> bool {
    exists|i: int| 0 <= i < f.len() && (#[trigger] f[i]).len() == 1
}

/// `ws` lists, in discovery order, literals a propagation run may assign:
/// each is forced by a unit clause of the formula of its moment.
pub open spec fn is_step_seq(f: Seq<Seq<int>>, ws: Seq<int>) -> bool
    decreases ws.len(),
{
    ws.len() == 0 || (is_unit_of(f, ws.first()) && is_step_seq(
        assign_cnf(f, ws.first()),
        ws.drop_first(),
    ))
}

/// The formula left after assigning the listed literals in order.
pub open spec fn apply_run(f: Seq<Seq<int>>, ws: Seq<int>) -> Seq<Seq<int>>
    decreases ws.len(),
{
    if ws.len() == 0 {
        f
    } else {
        apply_run(assign_cnf(f, ws.first()), ws.drop_first())
    }
}

/// A complete propagation run: unit steps until no unit clause remains.
pub open spec fn is_unit_run(f: Seq<Seq<int>>, ws: Seq<int>) -> bool {
    is_step_seq(f, ws) && !has_unit(apply_run(f, ws))
}

/// No two unit clauses force contradictory literals.
pub open spec fn no_unit_conflict(g: Seq<Seq<int>>) -> bool {
    forall|l: int| #[trigger] is_unit_of(g, l) ==> !is_unit_of(g, -l)
}

/// The hypothesis of confluence: no stage that unit propagation can reach
/// has two unit clauses forcing contradictory literals.
pub open spec fn conflict_free(f: Seq<Seq<int>>) -> bool {
    forall|ws: Seq<int>| #[trigger] is_step_seq(f, ws) ==> no_unit_conflict(apply_run(f, ws))
}

/// One propagation step, taken off the front of an order.
proof fn lemma_step_cons(f: Seq<Seq<int>>, a: int, ws: Seq<int>)
    ensures
        is_step_seq(f, seq![a] + ws) == (is_unit_of(f, a) && is_step_seq(assign_cnf(f, a), ws)),
        apply_run(f, seq![a] + ws) == apply_run(assign_cnf(f, a), ws),
{
    let c = seq![a] + ws;
    assert(c.len() > 0);
    assert(c.first() == a);
    assert(c.drop_first() =~= ws);
}

/// What is reachable from one step on stays reachable: the confluence
/// hypothesis carries over to the formula after a unit step.
proof fn lemma_conflict_free_step(f: Seq<Seq<int>>, a: int)
    requires
        conflict_free(f),
        is_unit_of(f, a),
    ensures
        conflict_free(assign_cnf(f, a)),
{
    assert forall|ws: Seq<int>| #[trigger] is_step_seq(assign_cnf(f, a), ws) implies no_unit_conflict(
        apply_run(assign_cnf(f, a), ws),
    ) by {
        lemma_step_cons(f, a, ws);
        assert(is_step_seq(f, seq![a] + ws));
    }
}

/// A forced literal occurs in the formula.
proof fn lemma_unit_of_occurs(f: Seq<Seq<int>>, l: int)
    requires
        is_unit_of(f, l),
    ensures
        crate::logic::occurs(f, l),
{
    let i = choose|i: int| 0 <= i < f.len() && (#[trigger] f[i]).len() == 1 && f[i][0] == l;
    assert(f[i].contains(l));
}

/// A unit clause over another variable survives an `assign` step untouched.
proof fn lemma_unit_survives(f: Seq<Seq<int>>, a: int, b: int)
    requires
        is_unit_of(f, b),
        b != a,
        b != -a,
    ensures
        is_unit_of(assign_cnf(f, a), b),
{
    lemma_assign_cnf(f, a);
    let i = choose|i: int| 0 <= i < f.len() && (#[trigger] f[i]).len() == 1 && f[i][0] == b;
    assert(!f[i].contains(a)) by {
        if f[i].contains(a) {
            let j = choose|j: int| 0 <= j < f[i].len() && f[i][j] == a;
            assert(j == 0);
        }
    }
    assert(!f[i].contains(-a)) by {
        if f[i].contains(-a) {
            let j = choose|j: int| 0 <= j < f[i].len() && f[i][j] == -a;
            assert(j == 0);
        }
    }
    lemma_remove_lit_of_noop(f[i], -a);
    assert(assign_cnf(f, a).contains(f[i]));
    let j = choose|j: int| 0 <= j < assign_cnf(f, a).len() && assign_cnf(f, a)[j] == f[i];
    assert(assign_cnf(f, a)[j].len() == 1 && assign_cnf(f, a)[j][0] == b);
}

/// The deterministic scan order the solver uses is itself a complete run,
/// and its result is the propagated formula.
pub proof fn lemma_canonical_run(f: Seq<Seq<int>>)
    ensures
        is_unit_run(f, propagate(f).1),
        apply_run(f, propagate(f).1) == propagate(f).0,
    decreases num_lits(f),
{
    lemma_first_unit(f);
    match first_unit(f) {
        Some(l) => {
            lemma_first_unit_occurs(f, l);
            lemma_assign_num_lits(f, l);
            let f2 = assign_cnf(f, l);
            assert(propagate(f) == (propagate(f2).0, seq![l] + propagate(f2).1));
            lemma_canonical_run(f2);
            assert(is_unit_of(f, l));
            lemma_step_cons(f, l, propagate(f2).1);
        },
        None => {
            assert(propagate(f) == (f, Seq::<int>::empty()));
            assert(apply_run(f, propagate(f).1) == f);
            assert(!has_unit(f)) by {
                if has_unit(f) {
                    let i = choose|i: int| 0 <= i < f.len() && (#[trigger] f[i]).len() == 1;
                    assert(false);
                }
            }
        },
    }
}

/// Propagation confluence: when no reachable stage forces contradictory
/// literals, every complete propagation run, whatever order its unit clauses
/// were discovered in, leaves the same simplified formula.
pub proof fn lemma_propagation_confluent(f: Seq<Seq<int>>, ws1: Seq<int>, ws2: Seq<int>)
    requires
        conflict_free(f),
        is_unit_run(f, ws1),
        is_unit_run(f, ws2),
    ensures
        apply_run(f, ws1) == apply_run(f, ws2),
    decreases num_lits(f),
{
    if ws1.len() == 0 && ws2.len() == 0 {
    } else if ws1.len() == 0 {
        assert(apply_run(f, ws1) == f);
        let b = ws2.first();
        assert(is_unit_of(f, b));
        let i = choose|i: int| 0 <= i < f.len() && (#[trigger] f[i]).len() == 1 && f[i][0] == b;
        assert(has_unit(f));
        assert(false);
    } else if ws2.len() == 0 {
        assert(apply_run(f, ws2) == f);
        let a = ws1.first();
        assert(is_unit_of(f, a));
        let i = choose|i: int| 0 <= i < f.len() && (#[trigger] f[i]).len() == 1 && f[i][0] == a;
        assert(has_unit(f));
        assert(false);
    } else {
        let a = ws1.first();
        let b = ws2.first();
        assert(is_unit_of(f, a) && is_step_seq(assign_cnf(f, a), ws1.drop_first()));
        assert(is_unit_of(f, b) && is_step_seq(assign_cnf(f, b), ws2.drop_first()));
        assert(apply_run(f, ws1) == apply_run(assign_cnf(f, a), ws1.drop_first()));
        assert(apply_run(f, ws2) == apply_run(assign_cnf(f, b), ws2.drop_first()));
        lemma_unit_of_occurs(f, a);
        lemma_unit_of_occurs(f, b);
        lemma_assign_num_lits(f, a);
        lemma_assign_num_lits(f, b);
        lemma_conflict_free_step(f, a);
        lemma_conflict_free_step(f, b);
        if a == b {
            lemma_propagation_confluent(assign_cnf(f, a), ws1.drop_first(), ws2.drop_first());
        } else {
            assert(is_step_seq(f, Seq::<int>::empty()));
            assert(apply_run(f, Seq::<int>::empty()) == f);
            assert(no_unit_conflict(f));
            assert(a != -b) by {
                if a == -b {
                    assert(is_unit_of(f, -a));
                    assert(false);
                }
            }
            lemma_unit_survives(f, a, b);
            lemma_unit_survives(f, b, a);
            lemma_assign_commutes(f, a, b);
            let x = assign_cnf(assign_cnf(f, a), b);
            lemma_canonical_run(x);
            let t = propagate(x).1;
            lemma_step_cons(assign_cnf(f, a), b, t);
            lemma_step_cons(assign_cnf(f, b), a, t);
            lemma_propagation_confluent(assign_cnf(f, a), ws1.drop_first(), seq![b] + t);
            lemma_propagation_confluent(assign_cnf(f, b), ws2.drop_first(), seq![a] + t);
        }
    }
}

/// In particular, under the same hypothesis, every complete run ends in what
/// the solver's own first-unit scan computes.
pub proof fn lemma_propagation_order_independent(f: Seq<Seq<int>>, ws: Seq<int>)
    requires
        conflict_free(f),
        is_unit_run(f, ws),
    ensures
        apply_run(f, ws) == propagate(f).0,
{
    lemma_canonical_run(f);
    lemma_propagation_confluent(f, ws, propagate(f).1);
}

} // verus!
