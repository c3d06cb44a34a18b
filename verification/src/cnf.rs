//! The literal / clause / formula value types: representation and the basic
//! predicates, with no behaviour beyond them.

use vstd::prelude::*;
use crate::logic::abs_val;

verus! {

/// A propositional literal: a 1-based variable index (`id`) together with a
/// polarity (`status`: `true` means the variable must hold).
#[derive(PartialEq, Eq, Structural, Clone, Copy, Debug)]
pub struct Literal {
    pub id: usize,
    pub status: bool,
}

impl Literal {
    /// Builds a literal from a nonzero signed integer: the magnitude is the
    /// variable index, the sign the polarity. Zero is no literal and is
    /// excluded by the precondition; callers at the input boundary must
    /// reject it before constructing.
    pub fn new(n: isize) -> (r: Literal)
        requires
            n != 0,
        ensures
            r.id == abs_val(n as int),
            r.status == (n > 0),
    {
        if n > 0 {
            Literal { id: n as usize, status: true }
        } else {
            let mag: usize = (-(n + 1)) as usize + 1;
            Literal { id: mag, status: false }
        }
    }

    /// The polarity of the literal.
    pub fn is_pure(&self) -> (r: bool)
        ensures
            r == self.status,
    {
        self.status
    }

    /// The literal over the same variable with the opposite polarity.
    pub fn get_rev_literal(&self) -> (r: Literal)
        ensures
            r.id == self.id,
            r.status == !self.status,
    {
        Literal { id: self.id, status: !self.status }
    }
}

/// A clause is a disjunction of literals; this type only carries the
/// constructor that turns raw integers into literals.
pub struct Clause {}

impl Clause {
    /// Builds the literal sequence of one clause from nonzero integers,
    /// in order and without deduplication.
    pub fn new(ns: &Vec<isize>) -> (r: Vec<Literal>)
        requires
            forall|i: int| 0 <= i < ns@.len() ==> #[trigger] ns@[i] != 0,
        ensures
            r@.len() == ns@.len(),
            forall|i: int| 0 <= i < ns@.len() ==> (#[trigger] r@[i]).id == abs_val(ns@[i] as int)
                && r@[i].status == (ns@[i] > 0),
    {
        let mut out: Vec<Literal> = Vec::new();
        let mut i: usize = 0;
        while i < ns.len()
            invariant
                i <= ns@.len(),
                out@.len() == i,
                forall|k: int| 0 <= k < ns@.len() ==> #[trigger] ns@[k] != 0,
                forall|k: int| 0 <= k < i ==> (#[trigger] out@[k]).id == abs_val(ns@[k] as int)
                    && out@[k].status == (ns@[k] > 0),
            decreases ns@.len() - i,
        {
            out.push(Literal::new(ns[i]));
            i = i + 1;
        }
        out
    }
}

/// A formula in conjunctive normal form: an ordered collection of clauses,
/// read as their conjunction.
#[derive(PartialEq, Clone, Debug)]
pub struct Cnf {
    pub body: Vec<Vec<Literal>>,
}

impl Cnf {
    /// Builds a formula from rows of nonzero integers, clause by clause.
    pub fn new(nss: Vec<Vec<isize>>) -> (r: Cnf)
        requires
            forall|i: int, j: int|
                0 <= i < nss@.len() && 0 <= j < nss@[i]@.len() ==> #[trigger] nss@[i]@[j] != 0,
        ensures
            r.body@.len() == nss@.len(),
            forall|i: int| 0 <= i < nss@.len() ==> (#[trigger] r.body@[i])@.len() == nss@[i]@.len(),
            forall|i: int, j: int|
                0 <= i < nss@.len() && 0 <= j < nss@[i]@.len()
                    ==> (#[trigger] r.body@[i]@[j]).id == abs_val(nss@[i]@[j] as int)
                        && r.body@[i]@[j].status == (nss@[i]@[j] > 0),
    {
        let mut body: Vec<Vec<Literal>> = Vec::new();
        let mut i: usize = 0;
        while i < nss.len()
            invariant
                i <= nss@.len(),
                body@.len() == i,
                forall|k: int, j: int|
                    0 <= k < nss@.len() && 0 <= j < nss@[k]@.len()
                        ==> #[trigger] nss@[k]@[j] != 0,
                forall|k: int| 0 <= k < i ==> (#[trigger] body@[k])@.len() == nss@[k]@.len(),
                forall|k: int, j: int|
                    0 <= k < i && 0 <= j < nss@[k]@.len()
                        ==> (#[trigger] body@[k]@[j]).id == abs_val(nss@[k]@[j] as int)
                            && body@[k]@[j].status == (nss@[k]@[j] > 0),
            decreases nss@.len() - i,
        {
            body.push(Clause::new(&nss[i]));
            i = i + 1;
        }
        Cnf { body }
    }
}

} // verus!
