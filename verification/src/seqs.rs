//! Facts about filtered sequences that vstd does not provide directly.

use vstd::prelude::*;
use vstd::seq_lib::*;

verus! {

/// Splitting a conjunction of predicates splits the filter.
pub proof fn lemma_filter_split<A>(
    s: Seq<A>,
    p: spec_fn(A) -> bool,
    q: spec_fn(A) -> bool,
    r: spec_fn(A) -> bool,
)
    requires
        forall|x: A| #[trigger] p(x) == (q(x) && r(x)),
    ensures
        s.filter(p) == s.filter(q).filter(r),
    decreases s.len(),
{
    reveal(Seq::filter);
    if s.len() > 0 {
        lemma_filter_split(s.drop_last(), p, q, r);
        let d = s.drop_last();
        if q(s.last()) {
            d.filter(q).lemma_filter_push(s.last(), r);
            assert(s.filter(q) == d.filter(q).push(s.last()));
        }
    }
}

/// A filter whose predicate holds everywhere returns the sequence.
pub proof fn lemma_filter_all_true<A>(s: Seq<A>, p: spec_fn(A) -> bool)
    requires
        forall|i: int| 0 <= i < s.len() ==> p(#[trigger] s[i]),
    ensures
        s.filter(p) == s,
    decreases s.len(),
{
    reveal(Seq::filter);
    if s.len() > 0 {
        lemma_filter_all_true(s.drop_last(), p);
        assert(s.drop_last().push(s.last()) =~= s);
    }
}

/// A filter whose predicate holds nowhere returns the empty sequence.
pub proof fn lemma_filter_all_false<A>(s: Seq<A>, p: spec_fn(A) -> bool)
    requires
        forall|i: int| 0 <= i < s.len() ==> !p(#[trigger] s[i]),
    ensures
        s.filter(p) == Seq::<A>::empty(),
    decreases s.len(),
{
    reveal(Seq::filter);
    if s.len() > 0 {
        lemma_filter_all_false(s.drop_last(), p);
    }
}

/// Every element of a filtered sequence is an element of the source.
pub proof fn lemma_filter_element_of<A>(s: Seq<A>, pred: spec_fn(A) -> bool, i: int)
    requires
        0 <= i < s.filter(pred).len(),
    ensures
        s.contains(s.filter(pred)[i]),
    decreases s.len(),
{
    reveal(Seq::filter);
    if s.len() > 0 {
        if i < s.filter(pred).len() - 1 || !pred(s.last()) {
            lemma_filter_element_of(s.drop_last(), pred, i);
            let x = s.drop_last().filter(pred)[i];
            let j = choose|j: int| 0 <= j < s.drop_last().len() && s.drop_last()[j] == x;
            assert(s[j] == x);
        } else {
            assert(s.filter(pred)[i] == s.last());
            assert(s[s.len() - 1] == s.last());
        }
    }
}

/// Filtering keeps any pairwise fact that held of the source.
pub proof fn lemma_filter_pairwise<A>(
    s: Seq<A>,
    pred: spec_fn(A) -> bool,
    r: spec_fn(A, A) -> bool,
)
    requires
        forall|i: int, j: int| 0 <= i < j < s.len() ==> r(#[trigger] s[i], #[trigger] s[j]),
    ensures
        forall|i: int, j: int|
            0 <= i < j < s.filter(pred).len() ==> r(
                #[trigger] s.filter(pred)[i],
                #[trigger] s.filter(pred)[j],
            ),
    decreases s.len(),
{
    reveal(Seq::filter);
    if s.len() > 0 {
        let d = s.drop_last();
        assert(forall|i: int, j: int|
            0 <= i < j < d.len() ==> r(#[trigger] d[i], #[trigger] d[j]));
        lemma_filter_pairwise(d, pred, r);
        let fs = s.filter(pred);
        let fd = d.filter(pred);
        if pred(s.last()) {
            assert(fs == fd.push(s.last()));
            assert forall|i: int, j: int| 0 <= i < j < fs.len() implies r(
                #[trigger] fs[i],
                #[trigger] fs[j],
            ) by {
                if j < fs.len() - 1 {
                    assert(fs[i] == fd[i] && fs[j] == fd[j]);
                } else {
                    assert(fs[j] == s.last());
                    assert(fs[i] == fd[i]);
                    lemma_filter_element_of(d, pred, i);
                    let k = choose|k: int| 0 <= k < d.len() && d[k] == fd[i];
                    assert(s[k] == fd[i]);
                    assert(r(s[k], s[s.len() - 1]));
                }
            }
        } else {
            assert(fs == fd);
        }
    }
}

} // verus!
