//! The mathematical model of the solver: literals as nonzero integers,
//! clauses and formulas as sequences, the `assign` simplification, unit
//! discovery, and the exhaustive unit propagation these generate.

use vstd::prelude::*;

verus! {

/// Magnitude of an integer.
pub open spec fn abs_val(x: int) -> int {
    if x >= 0 {
        x
    } else {
        -x
    }
}

/// A literal the executable solver can handle: nonzero, and strictly inside
/// the `isize` range so that its negation is again an `isize`.
pub open spec fn wf_lit(x: int) -> bool {
    x != 0 && isize::MIN < x <= isize::MAX
}

/// Every literal of the clause is well-formed.
pub open spec fn wf_clause(c: Seq<int>) -> bool {
    forall|j: int| 0 <= j < c.len() ==> wf_lit(#[trigger] c[j])
}

/// Every clause of the formula holds only well-formed literals.
pub open spec fn wf_cnf(f: Seq<Seq<int>>) -> bool {
    forall|i: int| 0 <= i < f.len() ==> wf_clause(#[trigger] f[i])
}

/// The mathematical value of a machine-level literal sequence.
pub open spec fn lits_view(a: Seq<isize>) -> Seq<int> {
    a.map_values(|x: isize| x as int)
}

/// The mathematical value of a machine-level formula.
pub open spec fn cnf_view(f: Seq<Vec<isize>>) -> Seq<Seq<int>> {
    f.map_values(|c: Vec<isize>| lits_view(c@))
}

/// The literal `x` occurs somewhere in the formula.
pub open spec fn occurs(f: Seq<Seq<int>>, x: int) -> bool {
    exists|i: int| 0 <= i < f.len() && (#[trigger] f[i]).contains(x)
}

/// Some clause of the formula is empty: a contradiction.
pub open spec fn has_empty_clause(f: Seq<Seq<int>>) -> bool {
    exists|i: int| 0 <= i < f.len() && (#[trigger] f[i]).len() == 0
}

/// Neither a literal of `a` nor its negation occurs in `f`.
pub open spec fn avoids(f: Seq<Seq<int>>, a: Seq<int>) -> bool {
    forall|k: int| 0 <= k < a.len() ==> !occurs(f, #[trigger] a[k]) && !occurs(f, -a[k])
}

/// The clause with every occurrence of `x` removed, order kept.
pub open spec fn remove_lit_of(c: Seq<int>, x: int) -> Seq<int>
    decreases c.len(),
{
    if c.len() == 0 {
        Seq::empty()
    } else if c.first() == x {
        remove_lit_of(c.drop_first(), x)
    } else {
        seq![c.first()] + remove_lit_of(c.drop_first(), x)
    }
}

/// The `assign` operation on a formula: every clause that contains `l` is
/// dropped (it is satisfied), and `-l` is struck from the clauses that stay.
pub open spec fn assign_cnf(f: Seq<Seq<int>>, l: int) -> Seq<Seq<int>>
    decreases f.len(),
{
    if f.len() == 0 {
        Seq::empty()
    } else if f.first().contains(l) {
        assign_cnf(f.drop_first(), l)
    } else {
        seq![remove_lit_of(f.first(), -l)] + assign_cnf(f.drop_first(), l)
    }
}

/// The literal of the first unit clause, scanning clauses in order.
pub open spec fn first_unit(f: Seq<Seq<int>>) -> Option<int>
    decreases f.len(),
{
    if f.len() == 0 {
        None
    } else if f.first().len() == 1 {
        Some(f.first()[0])
    } else {
        first_unit(f.drop_first())
    }
}

/// Total number of literal occurrences: the measure that `assign` shrinks.
pub open spec fn num_lits(f: Seq<Seq<int>>) -> nat
    decreases f.len(),
{
    if f.len() == 0 {
        0
    } else {
        f.first().len() + num_lits(f.drop_first())
    }
}

/// How membership decomposes over the head and tail of a sequence.
pub proof fn lemma_contains_cons<A>(s: Seq<A>, y: A)
    requires
        s.len() > 0,
    ensures
        s.contains(y) <==> (s.first() == y || s.drop_first().contains(y)),
{
    if s.contains(y) {
        let i = choose|i: int| 0 <= i < s.len() && s[i] == y;
        if i > 0 {
            assert(s.drop_first()[i - 1] == y);
        }
    }
    if s.drop_first().contains(y) {
        let i = choose|i: int| 0 <= i < s.drop_first().len() && s.drop_first()[i] == y;
        assert(s[i + 1] == y);
    }
}

/// Membership after pushing one element at the back.
pub proof fn lemma_contains_push<A>(s: Seq<A>, x: A, y: A)
    ensures
        s.push(x).contains(y) <==> (s.contains(y) || y == x),
{
    if s.push(x).contains(y) {
        let i = choose|i: int| 0 <= i < s.push(x).len() && s.push(x)[i] == y;
        if i < s.len() {
            assert(s[i] == y);
        }
    }
    if s.contains(y) {
        let i = choose|i: int| 0 <= i < s.len() && s[i] == y;
        assert(s.push(x)[i] == y);
    }
    assert(s.push(x)[s.len() as int] == x);
}

/// Membership decomposes over concatenation.
pub proof fn lemma_contains_append<A>(a: Seq<A>, b: Seq<A>, y: A)
    ensures
        (a + b).contains(y) <==> (a.contains(y) || b.contains(y)),
{
    if (a + b).contains(y) {
        let i = choose|i: int| 0 <= i < (a + b).len() && (a + b)[i] == y;
        if i < a.len() {
            assert(a[i] == y);
        } else {
            assert(b[i - a.len()] == y);
        }
    }
    if a.contains(y) {
        let i = choose|i: int| 0 <= i < a.len() && a[i] == y;
        assert((a + b)[i] == y);
    }
    if b.contains(y) {
        let i = choose|i: int| 0 <= i < b.len() && b[i] == y;
        assert((a + b)[a.len() + i] == y);
    }
}

/// What `remove_lit_of` keeps: exactly the members other than `x`, and never
/// more elements than the original clause.
pub proof fn lemma_remove_lit_of(c: Seq<int>, x: int)
    ensures
        forall|y: int| #[trigger] remove_lit_of(c, x).contains(y) ==> c.contains(y) && y != x,
        forall|y: int| #[trigger] c.contains(y) && y != x ==> remove_lit_of(c, x).contains(y),
        remove_lit_of(c, x).len() <= c.len(),
    decreases c.len(),
{
    if c.len() == 0 {
    } else {
        let rest = c.drop_first();
        lemma_remove_lit_of(rest, x);
        if c.first() == x {
            assert forall|y: int| #[trigger] remove_lit_of(c, x).contains(y) implies c.contains(y)
                && y != x by {
                lemma_contains_cons(c, y);
            }
            assert forall|y: int| #[trigger] c.contains(y) && y != x implies remove_lit_of(
                c,
                x,
            ).contains(y) by {
                lemma_contains_cons(c, y);
            }
        } else {
            let r = seq![c.first()] + remove_lit_of(rest, x);
            assert(r.drop_first() =~= remove_lit_of(rest, x));
            assert(r.first() == c.first());
            assert forall|y: int| #[trigger] remove_lit_of(c, x).contains(y) implies c.contains(y)
                && y != x by {
                lemma_contains_cons(r, y);
                lemma_contains_cons(c, y);
            }
            assert forall|y: int| #[trigger] c.contains(y) && y != x implies remove_lit_of(
                c,
                x,
            ).contains(y) by {
                lemma_contains_cons(r, y);
                lemma_contains_cons(c, y);
            }
        }
    }
}

/// Clause `j` of `assign(f, l)` descends from some clause of `f` that does
/// not contain `l`, with `-l` struck out.
pub open spec fn assign_origin(f: Seq<Seq<int>>, l: int, j: int) -> bool {
    exists|i: int|
        0 <= i < f.len() && !(#[trigger] f[i]).contains(l) && assign_cnf(f, l)[j] == remove_lit_of(
            f[i],
            -l,
        )
}

/// Every clause kept by `assign` descends from a clause of the original that
/// does not contain `l`, with `-l` struck out; and every such clause is kept.
pub proof fn lemma_assign_cnf(f: Seq<Seq<int>>, l: int)
    ensures
        forall|j: int| 0 <= j < assign_cnf(f, l).len() ==> #[trigger] assign_origin(f, l, j),
        forall|i: int|
            0 <= i < f.len() && !(#[trigger] f[i]).contains(l) ==> assign_cnf(f, l).contains(
                remove_lit_of(f[i], -l),
            ),
    decreases f.len(),
{
    if f.len() == 0 {
    } else {
        let rest = f.drop_first();
        lemma_assign_cnf(rest, l);
        assert(forall|i: int| 0 <= i < rest.len() ==> #[trigger] rest[i] == f[i + 1]);
        if f.first().contains(l) {
            assert(assign_cnf(f, l) == assign_cnf(rest, l));
            assert forall|j: int| 0 <= j < assign_cnf(f, l).len() implies #[trigger] assign_origin(
                f,
                l,
                j,
            ) by {
                assert(assign_origin(rest, l, j));
                let i = choose|i: int|
                    0 <= i < rest.len() && !(#[trigger] rest[i]).contains(l) && assign_cnf(rest, l)[j]
                        == remove_lit_of(rest[i], -l);
                assert(0 <= i + 1 < f.len() && !f[i + 1].contains(l) && assign_cnf(f, l)[j]
                    == remove_lit_of(f[i + 1], -l));
            }
            assert forall|i: int|
                0 <= i < f.len() && !(#[trigger] f[i]).contains(l) implies assign_cnf(
                f,
                l,
            ).contains(remove_lit_of(f[i], -l)) by {
                if i == 0 {
                    assert(f[0] == f.first());
                } else {
                    assert(rest[i - 1] == f[i]);
                }
            }
        } else {
            let r = seq![remove_lit_of(f.first(), -l)] + assign_cnf(rest, l);
            assert(assign_cnf(f, l) == r);
            assert(r.drop_first() =~= assign_cnf(rest, l));
            assert forall|j: int| 0 <= j < assign_cnf(f, l).len() implies #[trigger] assign_origin(
                f,
                l,
                j,
            ) by {
                if j == 0 {
                    assert(r[0] == remove_lit_of(f[0], -l));
                    assert(0 <= 0 < f.len() && !f[0].contains(l) && assign_cnf(f, l)[0]
                        == remove_lit_of(f[0], -l));
                } else {
                    assert(r[j] == assign_cnf(rest, l)[j - 1]);
                    assert(assign_origin(rest, l, j - 1));
                    let i = choose|i: int|
                        0 <= i < rest.len() && !(#[trigger] rest[i]).contains(l) && assign_cnf(
                            rest,
                            l,
                        )[j - 1] == remove_lit_of(rest[i], -l);
                    assert(0 <= i + 1 < f.len() && !f[i + 1].contains(l) && assign_cnf(f, l)[j]
                        == remove_lit_of(f[i + 1], -l));
                }
            }
            assert forall|i: int|
                0 <= i < f.len() && !(#[trigger] f[i]).contains(l) implies assign_cnf(
                f,
                l,
            ).contains(remove_lit_of(f[i], -l)) by {
                if i == 0 {
                    assert(r[0] == remove_lit_of(f[0], -l));
                } else {
                    assert(rest[i - 1] == f[i]);
                    assert(assign_cnf(rest, l).contains(remove_lit_of(f[i], -l)));
                    let j = choose|j: int|
                        0 <= j < assign_cnf(rest, l).len() && assign_cnf(rest, l)[j]
                            == remove_lit_of(f[i], -l);
                    assert(r[j + 1] == remove_lit_of(f[i], -l));
                }
            }
        }
    }
}

/// After `assign(f, l)` neither `l` nor `-l` occurs anywhere.
pub proof fn lemma_assign_no_l(f: Seq<Seq<int>>, l: int)
    ensures
        !occurs(assign_cnf(f, l), l),
        !occurs(assign_cnf(f, l), -l),
{
    lemma_assign_cnf(f, l);
    let g = assign_cnf(f, l);
    assert forall|j: int| 0 <= j < g.len() implies !(#[trigger] g[j]).contains(l) && !g[j].contains(
        -l,
    ) by {
        assert(assign_origin(f, l, j));
        let i = choose|i: int|
            0 <= i < f.len() && !(#[trigger] f[i]).contains(l) && g[j] == remove_lit_of(f[i], -l);
        lemma_remove_lit_of(f[i], -l);
    }
}

/// `assign` introduces no literal: whatever occurs afterwards occurred before.
pub proof fn lemma_assign_occurs(f: Seq<Seq<int>>, l: int)
    ensures
        forall|x: int| #[trigger] occurs(assign_cnf(f, l), x) ==> occurs(f, x),
{
    lemma_assign_cnf(f, l);
    let g = assign_cnf(f, l);
    assert forall|x: int| #[trigger] occurs(g, x) implies occurs(f, x) by {
        let j = choose|j: int| 0 <= j < g.len() && (#[trigger] g[j]).contains(x);
        assert(assign_origin(f, l, j));
        let i = choose|i: int|
            0 <= i < f.len() && !(#[trigger] f[i]).contains(l) && g[j] == remove_lit_of(f[i], -l);
        lemma_remove_lit_of(f[i], -l);
        assert(f[i].contains(x));
    }
}

/// `assign` keeps well-formedness of the formula.
pub proof fn lemma_assign_wf(f: Seq<Seq<int>>, l: int)
    requires
        wf_cnf(f),
    ensures
        wf_cnf(assign_cnf(f, l)),
{
    lemma_assign_cnf(f, l);
    let g = assign_cnf(f, l);
    assert forall|j: int| 0 <= j < g.len() implies wf_clause(#[trigger] g[j]) by {
        assert(assign_origin(f, l, j));
        let i = choose|i: int|
            0 <= i < f.len() && !(#[trigger] f[i]).contains(l) && g[j] == remove_lit_of(f[i], -l);
        lemma_remove_lit_of(f[i], -l);
        assert forall|k: int| 0 <= k < g[j].len() implies wf_lit(#[trigger] g[j][k]) by {
            assert(g[j].contains(g[j][k]));
            assert(f[i].contains(g[j][k]));
            let m = choose|m: int| 0 <= m < f[i].len() && f[i][m] == g[j][k];
            assert(wf_lit(f[i][m]));
        }
    }
}

/// A well-formed formula only holds well-formed literals.
pub proof fn lemma_wf_occurs(f: Seq<Seq<int>>, x: int)
    requires
        wf_cnf(f),
        occurs(f, x),
    ensures
        wf_lit(x),
{
    let i = choose|i: int| 0 <= i < f.len() && (#[trigger] f[i]).contains(x);
    let j = choose|j: int| 0 <= j < f[i].len() && f[i][j] == x;
    assert(wf_lit(f[i][j]));
}

/// Removing a literal that is present strictly shrinks the clause.
pub proof fn lemma_remove_lit_of_strict(c: Seq<int>, x: int)
    requires
        c.contains(x),
    ensures
        remove_lit_of(c, x).len() < c.len(),
    decreases c.len(),
{
    lemma_remove_lit_of(c, x);
    lemma_contains_cons(c, x);
    if c.first() == x {
        lemma_remove_lit_of(c.drop_first(), x);
    } else {
        lemma_remove_lit_of_strict(c.drop_first(), x);
    }
}

/// `assign` never grows the literal count, and shrinks it strictly whenever
/// the assigned literal or its negation occurs in the formula.
pub proof fn lemma_assign_num_lits(f: Seq<Seq<int>>, l: int)
    ensures
        num_lits(assign_cnf(f, l)) <= num_lits(f),
        occurs(f, l) || occurs(f, -l) ==> num_lits(assign_cnf(f, l)) < num_lits(f),
    decreases f.len(),
{
    if f.len() == 0 {
    } else {
        let rest = f.drop_first();
        lemma_assign_num_lits(rest, l);
        assert(forall|i: int| 0 <= i < rest.len() ==> #[trigger] rest[i] == f[i + 1]);
        if f.first().contains(l) {
            assert(f.first().len() >= 1);
            assert(num_lits(assign_cnf(f, l)) <= num_lits(rest));
        } else {
            let r = seq![remove_lit_of(f.first(), -l)] + assign_cnf(rest, l);
            assert(assign_cnf(f, l) == r);
            assert(r.first() == remove_lit_of(f.first(), -l));
            assert(r.drop_first() =~= assign_cnf(rest, l));
            assert(num_lits(r) == remove_lit_of(f.first(), -l).len() + num_lits(
                assign_cnf(rest, l),
            ));
            lemma_remove_lit_of(f.first(), -l);
            if occurs(f, l) {
                let i = choose|i: int| 0 <= i < f.len() && (#[trigger] f[i]).contains(l);
                assert(i != 0);
                assert((#[trigger] rest[i - 1]).contains(l));
                assert(occurs(rest, l));
            }
            if occurs(f, -l) {
                let i = choose|i: int| 0 <= i < f.len() && (#[trigger] f[i]).contains(-l);
                if i == 0 {
                    assert(f.first().contains(-l));
                    lemma_remove_lit_of_strict(f.first(), -l);
                } else {
                    assert((#[trigger] rest[i - 1]).contains(-l));
                    assert(occurs(rest, -l));
                }
            }
        }
    }
}

/// What `first_unit` answers: a unit clause with that literal exists, or no
/// clause of the formula is unit.
pub proof fn lemma_first_unit(f: Seq<Seq<int>>)
    ensures
        match first_unit(f) {
            Some(l) => exists|i: int|
                0 <= i < f.len() && (#[trigger] f[i]).len() == 1 && f[i][0] == l,
            None => forall|i: int| 0 <= i < f.len() ==> (#[trigger] f[i]).len() != 1,
        },
    decreases f.len(),
{
    if f.len() == 0 {
    } else {
        let rest = f.drop_first();
        lemma_first_unit(rest);
        assert(forall|i: int| 0 <= i < rest.len() ==> #[trigger] rest[i] == f[i + 1]);
        if f.first().len() == 1 {
            assert(f[0].len() == 1 && f[0][0] == f.first()[0]);
        } else {
            match first_unit(rest) {
                Some(l) => {
                    let i = choose|i: int|
                        0 <= i < rest.len() && (#[trigger] rest[i]).len() == 1 && rest[i][0] == l;
                    assert(f[i + 1].len() == 1 && f[i + 1][0] == l);
                },
                None => {
                    assert forall|i: int| 0 <= i < f.len() implies (#[trigger] f[i]).len()
                        != 1 by {
                        if i > 0 {
                            assert(rest[i - 1] == f[i]);
                        }
                    }
                },
            }
        }
    }
}

/// The literal of the first unit clause occurs in the formula.
pub proof fn lemma_first_unit_occurs(f: Seq<Seq<int>>, l: int)
    requires
        first_unit(f) == Some(l),
    ensures
        occurs(f, l),
{
    lemma_first_unit(f);
    let i = choose|i: int| 0 <= i < f.len() && (#[trigger] f[i]).len() == 1 && f[i][0] == l;
    assert(f[i].contains(l));
}

/// `remove_lit_of` distributes over concatenation.
pub proof fn lemma_remove_lit_of_append(a: Seq<int>, b: Seq<int>, x: int)
    ensures
        remove_lit_of(a + b, x) == remove_lit_of(a, x) + remove_lit_of(b, x),
    decreases a.len(),
{
    if a.len() == 0 {
        assert(a + b =~= b);
        assert(remove_lit_of(a, x) + remove_lit_of(b, x) =~= remove_lit_of(b, x));
    } else {
        lemma_remove_lit_of_append(a.drop_first(), b, x);
        assert((a + b).first() == a.first());
        assert((a + b).drop_first() =~= a.drop_first() + b);
        if a.first() != x {
            assert(seq![a.first()] + (remove_lit_of(a.drop_first(), x) + remove_lit_of(b, x)) =~= (
            seq![a.first()] + remove_lit_of(a.drop_first(), x)) + remove_lit_of(b, x));
        }
    }
}

/// `assign` distributes over concatenation.
pub proof fn lemma_assign_append(a: Seq<Seq<int>>, b: Seq<Seq<int>>, l: int)
    ensures
        assign_cnf(a + b, l) == assign_cnf(a, l) + assign_cnf(b, l),
    decreases a.len(),
{
    if a.len() == 0 {
        assert(a + b =~= b);
        assert(assign_cnf(a, l) + assign_cnf(b, l) =~= assign_cnf(b, l));
    } else {
        lemma_assign_append(a.drop_first(), b, l);
        assert((a + b).first() == a.first());
        assert((a + b).drop_first() =~= a.drop_first() + b);
        if !a.first().contains(l) {
            assert(seq![remove_lit_of(a.first(), -l)] + (assign_cnf(a.drop_first(), l) + assign_cnf(
                b,
                l,
            )) =~= (seq![remove_lit_of(a.first(), -l)] + assign_cnf(a.drop_first(), l))
                + assign_cnf(b, l));
        }
    }
}

/// `first_unit` over a concatenation: the left part is scanned first.
pub proof fn lemma_first_unit_append(a: Seq<Seq<int>>, b: Seq<Seq<int>>)
    ensures
        first_unit(a + b) == if first_unit(a).is_some() {
            first_unit(a)
        } else {
            first_unit(b)
        },
    decreases a.len(),
{
    if a.len() == 0 {
        assert(a + b =~= b);
    } else {
        lemma_first_unit_append(a.drop_first(), b);
        assert((a + b).first() == a.first());
        assert((a + b).drop_first() =~= a.drop_first() + b);
    }
}

/// One step of `remove_lit_of` at the back, as loops build clauses.
pub proof fn lemma_remove_lit_of_push(c: Seq<int>, x: int, y: int)
    ensures
        remove_lit_of(c.push(y), x) == if y == x {
            remove_lit_of(c, x)
        } else {
            remove_lit_of(c, x).push(y)
        },
{
    let s1 = seq![y];
    assert(c.push(y) =~= c + s1);
    lemma_remove_lit_of_append(c, s1, x);
    assert(s1.drop_first() =~= Seq::<int>::empty());
    assert(remove_lit_of(Seq::<int>::empty(), x) == Seq::<int>::empty());
    if y == x {
        assert(remove_lit_of(s1, x) == Seq::<int>::empty());
        assert(remove_lit_of(c, x) + Seq::<int>::empty() =~= remove_lit_of(c, x));
    } else {
        assert(remove_lit_of(s1, x) == s1 + Seq::<int>::empty());
        assert(s1 + Seq::<int>::empty() =~= s1);
        assert(remove_lit_of(c, x) + s1 =~= remove_lit_of(c, x).push(y));
    }
}

/// One step of `assign` at the back, as loops build formulas.
pub proof fn lemma_assign_push(f: Seq<Seq<int>>, l: int, c: Seq<int>)
    ensures
        assign_cnf(f.push(c), l) == if c.contains(l) {
            assign_cnf(f, l)
        } else {
            assign_cnf(f, l).push(remove_lit_of(c, -l))
        },
{
    let s1 = seq![c];
    assert(f.push(c) =~= f + s1);
    lemma_assign_append(f, s1, l);
    assert(s1.drop_first() =~= Seq::<Seq<int>>::empty());
    assert(assign_cnf(Seq::<Seq<int>>::empty(), l) == Seq::<Seq<int>>::empty());
    if c.contains(l) {
        assert(assign_cnf(s1, l) == Seq::<Seq<int>>::empty());
        assert(assign_cnf(f, l) + Seq::<Seq<int>>::empty() =~= assign_cnf(f, l));
    } else {
        assert(assign_cnf(s1, l) == seq![remove_lit_of(c, -l)] + Seq::<Seq<int>>::empty());
        assert(assign_cnf(f, l) + (seq![remove_lit_of(c, -l)] + Seq::<Seq<int>>::empty())
            =~= assign_cnf(f, l).push(remove_lit_of(c, -l)));
    }
}

/// One step of `first_unit` at the back.
pub proof fn lemma_first_unit_push(f: Seq<Seq<int>>, c: Seq<int>)
    ensures
        first_unit(f.push(c)) == if first_unit(f).is_some() {
            first_unit(f)
        } else if c.len() == 1 {
            Some(c[0])
        } else {
            None::<int>
        },
{
    let s1 = seq![c];
    assert(f.push(c) =~= f + s1);
    lemma_first_unit_append(f, s1);
    assert(s1.first() == c);
    assert(s1.drop_first() =~= Seq::<Seq<int>>::empty());
    assert(first_unit(Seq::<Seq<int>>::empty()) == None::<int>);
    if c.len() == 1 {
        assert(first_unit(s1) == Some(c[0]));
    } else {
        assert(first_unit(s1) == first_unit(s1.drop_first()));
    }
}

/// Machine views commute with pushing a literal.
pub proof fn lemma_lits_view_push(s: Seq<isize>, x: isize)
    ensures
        lits_view(s.push(x)) == lits_view(s).push(x as int),
{
    assert(lits_view(s.push(x)) =~= lits_view(s).push(x as int));
}

/// Machine views commute with pushing a clause.
pub proof fn lemma_cnf_view_push(s: Seq<Vec<isize>>, c: Vec<isize>)
    ensures
        cnf_view(s.push(c)) == cnf_view(s).push(lits_view(c@)),
{
    assert(cnf_view(s.push(c)) =~= cnf_view(s).push(lits_view(c@)));
}

/// Machine views commute with concatenation of formulas.
pub proof fn lemma_cnf_view_append(a: Seq<Vec<isize>>, b: Seq<Vec<isize>>)
    ensures
        cnf_view(a + b) == cnf_view(a) + cnf_view(b),
{
    assert(cnf_view(a + b) =~= cnf_view(a) + cnf_view(b));
}

/// A prefix contains only members of the whole.
pub proof fn lemma_prefix_contains<A>(a: Seq<A>, b: Seq<A>, y: A)
    requires
        a.is_prefix_of(b),
        a.contains(y),
    ensures
        b.contains(y),
{
    let i = choose|i: int| 0 <= i < a.len() && a[i] == y;
    assert(b[i] == a[i]);
}

/// Being a prefix is transitive.
pub proof fn lemma_prefix_trans<A>(a: Seq<A>, b: Seq<A>, c: Seq<A>)
    requires
        a.is_prefix_of(b),
        b.is_prefix_of(c),
    ensures
        a.is_prefix_of(c),
{
    assert(forall|i: int| 0 <= i < a.len() ==> a[i] == b[i]);
    assert(forall|i: int| 0 <= i < b.len() ==> b[i] == c[i]);
    assert(a =~= c.subrange(0, a.len() as int));
}

/// On a formula free of `l` and `-l`, `assign(_, l)` changes nothing.
pub proof fn lemma_assign_fixed(g: Seq<Seq<int>>, l: int)
    requires
        !occurs(g, l),
        !occurs(g, -l),
    ensures
        assign_cnf(g, l) == g,
    decreases g.len(),
{
    if g.len() == 0 {
        assert(assign_cnf(g, l) =~= g);
    } else {
        let rest = g.drop_first();
        assert(forall|i: int| 0 <= i < rest.len() ==> #[trigger] rest[i] == g[i + 1]);
        assert(!occurs(rest, l)) by {
            if occurs(rest, l) {
                let i = choose|i: int| 0 <= i < rest.len() && (#[trigger] rest[i]).contains(l);
                assert(g[i + 1].contains(l));
            }
        }
        assert(!occurs(rest, -l)) by {
            if occurs(rest, -l) {
                let i = choose|i: int| 0 <= i < rest.len() && (#[trigger] rest[i]).contains(-l);
                assert(g[i + 1].contains(-l));
            }
        }
        lemma_assign_fixed(rest, l);
        assert(!g.first().contains(l)) by {
            if g.first().contains(l) {
                assert(g[0].contains(l));
            }
        }
        assert(remove_lit_of(g.first(), -l) == g.first()) by {
            lemma_remove_lit_of_noop(g.first(), -l);
            if g.first().contains(-l) {
                assert(g[0].contains(-l));
            }
        }
        assert(seq![g.first()] + rest =~= g);
    }
}

/// Removing an absent literal is the identity.
pub proof fn lemma_remove_lit_of_noop(c: Seq<int>, x: int)
    ensures
        !c.contains(x) ==> remove_lit_of(c, x) == c,
    decreases c.len(),
{
    if c.len() == 0 {
        assert(remove_lit_of(c, x) =~= c);
    } else {
        lemma_remove_lit_of_noop(c.drop_first(), x);
        if !c.contains(x) {
            lemma_contains_cons(c, x);
            assert(seq![c.first()] + c.drop_first() =~= c);
        }
    }
}

/// Exhaustive unit propagation: the simplified formula and the trace of the
/// propagated literals, first unit clause first.
pub open spec fn propagate(f: Seq<Seq<int>>) -> (Seq<Seq<int>>, Seq<int>)
    decreases num_lits(f) via propagate_decreases
{
    match first_unit(f) {
        Some(l) => (
            propagate(assign_cnf(f, l)).0,
            seq![l] + propagate(assign_cnf(f, l)).1,
        ),
        None => (f, Seq::empty()),
    }
}

#[via_fn]
proof fn propagate_decreases(f: Seq<Seq<int>>) {
    match first_unit(f) {
        Some(l) => {
            lemma_first_unit_occurs(f, l);
            lemma_assign_num_lits(f, l);
        },
        None => {},
    }
}

} // verus!
