//! Facts about filtered sequences that the proofs of the store rely on.

use vstd::prelude::*;

verus! {

/// Filtering keeps a sequence whole when every element passes.
pub proof fn lemma_filter_keeps_all<A>(s: Seq<A>, pred: spec_fn(A) -> bool)
    requires
        forall|i: int| 0 <= i < s.len() ==> pred(#[trigger] s[i]),
    ensures
        s.filter(pred) == s,
    decreases s.len(),
{
    reveal(Seq::filter);
    if s.len() > 0 {
        lemma_filter_keeps_all(s.drop_last(), pred);
        assert(s.drop_last().push(s.last()) =~= s);
    }
}

/// Filtering leaves nothing when no element passes.
pub proof fn lemma_filter_keeps_none<A>(s: Seq<A>, pred: spec_fn(A) -> bool)
    requires
        forall|i: int| 0 <= i < s.len() ==> !pred(#[trigger] s[i]),
    ensures
        s.filter(pred) == Seq::<A>::empty(),
    decreases s.len(),
{
    reveal(Seq::filter);
    if s.len() > 0 {
        lemma_filter_keeps_none(s.drop_last(), pred);
    } else {
        assert(s =~= Seq::<A>::empty());
    }
}

/// Where exactly the elements from index `p` on pass, filtering cuts the
/// sequence at `p` and keeps the rest.
pub proof fn lemma_filter_is_suffix<A>(s: Seq<A>, pred: spec_fn(A) -> bool, p: int)
    requires
        0 <= p <= s.len(),
        forall|i: int| 0 <= i < p ==> !pred(#[trigger] s[i]),
        forall|i: int| p <= i < s.len() ==> pred(#[trigger] s[i]),
    ensures
        s.filter(pred) == s.skip(p),
{
    let a = s.take(p);
    let b = s.skip(p);
    assert(a + b =~= s);
    lemma_filter_keeps_none(a, pred);
    lemma_filter_keeps_all(b, pred);
    Seq::filter_distributes_over_add(a, b, pred);
    assert(Seq::<A>::empty() + b =~= b);
}

/// Where exactly the elements before index `p` pass, filtering keeps that
/// prefix.
pub proof fn lemma_filter_is_prefix<A>(s: Seq<A>, pred: spec_fn(A) -> bool, p: int)
    requires
        0 <= p <= s.len(),
        forall|i: int| 0 <= i < p ==> pred(#[trigger] s[i]),
        forall|i: int| p <= i < s.len() ==> !pred(#[trigger] s[i]),
    ensures
        s.filter(pred) == s.take(p),
{
    let a = s.take(p);
    let b = s.skip(p);
    assert(a + b =~= s);
    lemma_filter_keeps_all(a, pred);
    lemma_filter_keeps_none(b, pred);
    Seq::filter_distributes_over_add(a, b, pred);
    assert(a + Seq::<A>::empty() =~= a);
}

/// Where every element but the one at index `p` passes, filtering removes
/// just that element.
pub proof fn lemma_filter_drops_one<A>(s: Seq<A>, pred: spec_fn(A) -> bool, p: int)
    requires
        0 <= p < s.len(),
        !pred(s[p]),
        forall|i: int| 0 <= i < s.len() && i != p ==> pred(#[trigger] s[i]),
    ensures
        s.filter(pred) == s.remove(p),
{
    let a = s.take(p + 1);
    let b = s.skip(p + 1);
    assert(a + b =~= s);
    lemma_filter_is_prefix(a, pred, p);
    lemma_filter_keeps_all(b, pred);
    Seq::filter_distributes_over_add(a, b, pred);
    assert(a.take(p) + b =~= s.remove(p));
}

/// Where only the element at index `p` passes, filtering keeps one element.
pub proof fn lemma_filter_count_one<A>(s: Seq<A>, pred: spec_fn(A) -> bool, p: int)
    requires
        0 <= p < s.len(),
        pred(s[p]),
        forall|i: int| 0 <= i < s.len() && i != p ==> !pred(#[trigger] s[i]),
    ensures
        s.filter(pred).len() == 1,
{
    let a = s.take(p + 1);
    let b = s.skip(p + 1);
    assert(a + b =~= s);
    lemma_filter_is_suffix(a, pred, p);
    lemma_filter_keeps_none(b, pred);
    Seq::filter_distributes_over_add(a, b, pred);
}

} // verus!
