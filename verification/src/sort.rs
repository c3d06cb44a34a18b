//! Display-order sorting of a finished assignment: ascending by variable
//! index, that is by the magnitude of each literal.  A pure post-processing
//! step, outside the solving contract.

use vstd::prelude::*;
use vstd::seq_lib::group_to_multiset_ensures;
use vstd::seq_lib::lemma_multiset_commutative;
use vstd::multiset::group_multiset_axioms;
use vstd::multiset::Multiset;
use vstd::std_specs::vec::vec_index_mut;
use crate::logic::abs_val;

verus! {

/// No literal is the one value whose magnitude the machine cannot negate.
pub open spec fn no_min(s: Seq<isize>) -> bool {
    forall|k: int| 0 <= k < s.len() ==> #[trigger] s[k] != isize::MIN
}

/// Ascending by magnitude.
pub open spec fn sorted_abs(s: Seq<isize>) -> bool {
    forall|i: int, j: int|
        0 <= i < j < s.len() ==> abs_val(#[trigger] s[i] as int) <= abs_val(#[trigger] s[j] as int)
}

/// The magnitude of a literal.
fn abs_exec(x: isize) -> (r: isize)
    requires
        x != isize::MIN,
    ensures
        r as int == abs_val(x as int),
{
    if x < 0 {
        -x
    } else {
        x
    }
}

/// Sorts a vector ascending by magnitude: a recursive quicksort on owned
/// values, first element as the pivot.
fn sort_by_abs(v: Vec<isize>) -> (r: Vec<isize>)
    requires
        no_min(v@),
    ensures
        r@.to_multiset() == v@.to_multiset(),
        r@.len() == v@.len(),
        sorted_abs(r@),
        no_min(r@),
    decreases v@.len(),
{
    if v.len() <= 1 {
        return v;
    }
    let pivot = v[0];
    let pabs = abs_exec(pivot);
    let mut less: Vec<isize> = Vec::new();
    let mut geq: Vec<isize> = Vec::new();
    let mut i: usize = 1;
    proof {
        broadcast use group_to_multiset_ensures;
        broadcast use group_multiset_axioms;

        assert(v@.subrange(1, 1) =~= Seq::<isize>::empty());
        assert(less@.to_multiset().add(geq@.to_multiset()) =~= v@.subrange(1, 1).to_multiset());
    }
    while i < v.len()
        invariant
            1 <= i <= v@.len(),
            v@.len() >= 2,
            no_min(v@),
            pivot == v@[0],
            pabs as int == abs_val(pivot as int),
            no_min(less@),
            no_min(geq@),
            forall|k: int|
                0 <= k < less@.len() ==> abs_val(#[trigger] less@[k] as int) < abs_val(
                    pivot as int,
                ),
            forall|k: int|
                0 <= k < geq@.len() ==> abs_val(#[trigger] geq@[k] as int) >= abs_val(
                    pivot as int,
                ),
            less@.to_multiset().add(geq@.to_multiset()) == v@.subrange(1, i as int).to_multiset(),
        decreases v@.len() - i,
    {
        let x = v[i];
        let xa = abs_exec(x);
        proof {
            broadcast use group_to_multiset_ensures;
            broadcast use group_multiset_axioms;

            assert(v@.subrange(1, i as int + 1) =~= v@.subrange(1, i as int).push(v@[i as int]));
            let lm = less@.to_multiset();
            let gm = geq@.to_multiset();
            assert((lm.insert(x)).add(gm) =~= lm.add(gm).insert(x));
            assert(lm.add(gm.insert(x)) =~= lm.add(gm).insert(x));
        }
        if xa < pabs {
            less.push(x);
        } else {
            geq.push(x);
        }
        i = i + 1;
    }
    let ghost lessv = less@;
    let ghost geqv = geq@;
    proof {
        broadcast use group_to_multiset_ensures;
        broadcast use group_multiset_axioms;

        assert(v@.subrange(1, v@.len() as int).len() == v@.len() - 1);
        assert(less@.to_multiset().len() + geq@.to_multiset().len() == v@.subrange(
            1,
            v@.len() as int,
        ).to_multiset().len());
        assert(less@.len() < v@.len());
        assert(geq@.len() < v@.len());
    }
    let ls = sort_by_abs(less);
    let gs = sort_by_abs(geq);
    proof {
        broadcast use group_to_multiset_ensures;

        assert forall|k: int|
            0 <= k < ls@.len() implies abs_val(#[trigger] ls@[k] as int) < abs_val(
            pivot as int,
        ) by {
            assert(ls@.contains(ls@[k]));
            assert(ls@.to_multiset().count(ls@[k]) > 0);
            assert(lessv.contains(ls@[k]));
            let m = choose|m: int| 0 <= m < lessv.len() && lessv[m] == ls@[k];
            assert(abs_val(lessv[m] as int) < abs_val(pivot as int));
        }
        assert forall|k: int|
            0 <= k < gs@.len() implies abs_val(#[trigger] gs@[k] as int) >= abs_val(
            pivot as int,
        ) by {
            assert(gs@.contains(gs@[k]));
            assert(gs@.to_multiset().count(gs@[k]) > 0);
            assert(geqv.contains(gs@[k]));
            let m = choose|m: int| 0 <= m < geqv.len() && geqv[m] == gs@[k];
            assert(abs_val(geqv[m] as int) >= abs_val(pivot as int));
        }
    }
    let ghost lsv = ls@;
    let mut out = ls;
    out.push(pivot);
    let mut j: usize = 0;
    proof {
        assert(out@ =~= lsv + seq![pivot] + gs@.subrange(0, 0));
    }
    while j < gs.len()
        invariant
            j <= gs@.len(),
            out@ == lsv + seq![pivot] + gs@.subrange(0, j as int),
        decreases gs@.len() - j,
    {
        proof {
            assert(gs@.subrange(0, j as int + 1) =~= gs@.subrange(0, j as int).push(
                gs@[j as int],
            ));
            assert((lsv + seq![pivot] + gs@.subrange(0, j as int)).push(gs@[j as int]) =~= lsv
                + seq![pivot] + gs@.subrange(0, j as int + 1));
        }
        out.push(gs[j]);
        j = j + 1;
    }
    proof {
        broadcast use group_to_multiset_ensures;
        broadcast use group_multiset_axioms;

        assert(gs@.subrange(0, gs@.len() as int) =~= gs@);
        assert(out@ == lsv + seq![pivot] + gs@);
        lemma_multiset_commutative(lsv + seq![pivot], gs@);
        lemma_multiset_commutative(lsv, seq![pivot]);
        assert(seq![pivot].to_multiset() =~= Multiset::<isize>::empty().insert(pivot)) by {
            assert(seq![pivot] =~= Seq::<isize>::empty().push(pivot));
        }
        lemma_multiset_commutative(seq![pivot], v@.drop_first());
        assert(seq![pivot] + v@.drop_first() =~= v@);
        assert(v@.subrange(1, v@.len() as int) =~= v@.drop_first());
        assert(out@.to_multiset() =~= v@.to_multiset());
        assert(out@.len() == v@.len()) by {
            assert(out@.to_multiset().len() == out@.len());
            assert(v@.to_multiset().len() == v@.len());
        }
        assert forall|i1: int, j1: int|
            0 <= i1 < j1 < out@.len() implies abs_val(#[trigger] out@[i1] as int) <= abs_val(
            #[trigger] out@[j1] as int,
        ) by {
            let ll = lsv.len() as int;
            if j1 < ll {
                assert(out@[i1] == lsv[i1] && out@[j1] == lsv[j1]);
            } else if j1 == ll {
                assert(out@[j1] == pivot);
            } else {
                assert(out@[j1] == gs@[j1 - ll - 1]);
                if i1 < ll {
                    assert(out@[i1] == lsv[i1]);
                } else if i1 == ll {
                    assert(out@[i1] == pivot);
                } else {
                    assert(out@[i1] == gs@[i1 - ll - 1]);
                }
            }
        }
        assert forall|k: int| 0 <= k < out@.len() implies #[trigger] out@[k] != isize::MIN by {
            let ll = lsv.len() as int;
            if k < ll {
                assert(out@[k] == lsv[k]);
            } else if k == ll {
                assert(out@[k] == pivot);
            } else {
                assert(out@[k] == gs@[k - ll - 1]);
            }
        }
    }
    out
}

/// Sorts the range `left ..= right` of the vector ascending by magnitude,
/// leaving everything outside the range alone.  With `left >= right` the
/// vector is left as it is.
pub fn quick_iter(left: usize, right: usize, data: &mut Vec<isize>)
    requires
        right < old(data)@.len(),
        no_min(old(data)@),
    ensures
        final(data)@.len() == old(data)@.len(),
        no_min(final(data)@),
        forall|k: int|
            0 <= k < old(data)@.len() && !(left <= k <= right) ==> final(data)@[k] == old(
                data,
            )@[k],
        final(data)@.subrange(left as int, right as int + 1).to_multiset() == old(
            data,
        )@.subrange(left as int, right as int + 1).to_multiset(),
        forall|i: int, j: int|
            left <= i < j <= right ==> abs_val(#[trigger] final(data)@[i] as int) <= abs_val(
                #[trigger] final(data)@[j] as int,
            ),
        left >= right ==> final(data)@ == old(data)@,
{
    if left >= right {
        return ;
    }
    let n = data.len();
    let mut seg: Vec<isize> = Vec::new();
    let mut k: usize = left;
    while k <= right
        invariant
            left <= k <= right + 1,
            n == data@.len(),
            right < n,
            data@ == old(data)@,
            seg@ == old(data)@.subrange(left as int, k as int),
        decreases right + 1 - k,
    {
        proof {
            assert(old(data)@.subrange(left as int, k as int + 1) =~= old(data)@.subrange(
                left as int,
                k as int,
            ).push(old(data)@[k as int]));
        }
        seg.push(data[k]);
        k = k + 1;
    }
    let sorted_seg = sort_by_abs(seg);
    let width = right - left;
    let mut j: usize = 0;
    while j <= width
        invariant
            j <= width + 1,
            width == right - left,
            n == old(data)@.len(),
            left <= right < n,
            sorted_seg@.len() == width + 1,
            sorted_abs(sorted_seg@),
            no_min(sorted_seg@),
            sorted_seg@.to_multiset() == old(data)@.subrange(
                left as int,
                right as int + 1,
            ).to_multiset(),
            data@.len() == old(data)@.len(),
            forall|m: int|
                0 <= m < old(data)@.len() && !(left <= m <= right) ==> data@[m] == old(
                    data,
                )@[m],
            forall|m: int| left <= m < left + j ==> data@[m] == sorted_seg@[m - left],
            forall|m: int| left + j <= m <= right ==> data@[m] == old(data)@[m],
        decreases width + 1 - j,
    {
        let idx = left + j;
        let val = sorted_seg[j];
        let slot = vec_index_mut(data, idx);
        *slot = val;
        j = j + 1;
    }
    proof {
        assert(data@.subrange(left as int, right as int + 1) =~= sorted_seg@);
    }
}

/// Sorts the whole assignment ascending by variable index: the display
/// order.  The vector must be nonempty.
pub fn exsort(a: &mut Vec<isize>)
    requires
        old(a)@.len() > 0,
        no_min(old(a)@),
    ensures
        final(a)@.len() == old(a)@.len(),
        final(a)@.to_multiset() == old(a)@.to_multiset(),
        sorted_abs(final(a)@),
{
    let last = a.len() - 1;
    quick_iter(0, last, a);
    proof {
        assert(a@.subrange(0, last as int + 1) =~= a@);
        assert(old(a)@.subrange(0, last as int + 1) =~= old(a)@);
        assert forall|i: int, j: int|
            0 <= i < j < a@.len() implies abs_val(#[trigger] a@[i] as int) <= abs_val(
            #[trigger] a@[j] as int,
        ) by {
            assert(0 <= i < j <= last);
        }
    }
}

} // verus!
