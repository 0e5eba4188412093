//! Small general lemmas about `Seq::filter` and `Seq::map_values` that the
//! sort and merge proofs share.

use vstd::prelude::*;

verus! {

/// Filtering after a push keeps the old result and appends the new element
/// exactly when it satisfies the predicate.
pub proof fn lemma_filter_push<A>(s: Seq<A>, pred: spec_fn(A) -> bool, x: A)
    ensures
        s.push(x).filter(pred) == if pred(x) {
            s.filter(pred).push(x)
        } else {
            s.filter(pred)
        },
{
    reveal(Seq::filter);
    assert(s.push(x).drop_last() =~= s);
    assert(s.push(x).last() == x);
}

/// A sequence whose elements all satisfy the predicate filters to itself.
pub proof fn lemma_filter_all<A>(s: Seq<A>, pred: spec_fn(A) -> bool)
    requires
        forall|i: int| 0 <= i < s.len() ==> pred(s[i]),
    ensures
        s.filter(pred) == s,
    decreases s.len(),
{
    reveal(Seq::filter);
    if s.len() > 0 {
        lemma_filter_all(s.drop_last(), pred);
        assert(s.filter(pred) =~= s);
    } else {
        assert(s.filter(pred) =~= s);
    }
}

/// A sequence with no element satisfying the predicate filters to empty.
pub proof fn lemma_filter_none<A>(s: Seq<A>, pred: spec_fn(A) -> bool)
    requires
        forall|i: int| 0 <= i < s.len() ==> !pred(s[i]),
    ensures
        s.filter(pred) == Seq::<A>::empty(),
    decreases s.len(),
{
    reveal(Seq::filter);
    if s.len() > 0 {
        lemma_filter_none(s.drop_last(), pred);
    }
    assert(s.filter(pred) =~= Seq::<A>::empty());
}

/// Every element of a filtered sequence occurs in the original.
pub proof fn lemma_filter_in_orig<A>(s: Seq<A>, pred: spec_fn(A) -> bool)
    ensures
        forall|i: int| 0 <= i < s.filter(pred).len() ==> s.contains(#[trigger] s.filter(pred)[i]),
    decreases s.len(),
{
    reveal(Seq::filter);
    if s.len() > 0 {
        let dl = s.drop_last();
        lemma_filter_in_orig(dl, pred);
        assert forall|i: int| 0 <= i < s.filter(pred).len() implies s.contains(
            #[trigger] s.filter(pred)[i],
        ) by {
            if i < dl.filter(pred).len() {
                assert(dl.contains(dl.filter(pred)[i]));
                let j = choose|j: int| 0 <= j < dl.len() && dl[j] == dl.filter(pred)[i];
                assert(s[j] == s.filter(pred)[i]);
            } else {
                assert(s.filter(pred)[i] == s.last());
                assert(s[s.len() - 1] == s.last());
            }
        }
    }
}

/// Mapping commutes with filtering when the two predicates agree through
/// the mapped function on every element.
pub proof fn lemma_map_filter_commute<A, B>(
    s: Seq<A>,
    f: spec_fn(A) -> B,
    pa: spec_fn(A) -> bool,
    pb: spec_fn(B) -> bool,
)
    requires
        forall|i: int| 0 <= i < s.len() ==> (pa(s[i]) <==> pb(f(s[i]))),
    ensures
        s.filter(pa).map_values(f) == s.map_values(f).filter(pb),
    decreases s.len(),
{
    reveal(Seq::filter);
    if s.len() == 0 {
        assert(s.filter(pa).map_values(f) =~= Seq::<B>::empty());
        assert(s.map_values(f) =~= Seq::<B>::empty());
        assert(s.map_values(f).filter(pb) =~= Seq::<B>::empty());
    } else {
        let dl = s.drop_last();
        lemma_map_filter_commute(dl, f, pa, pb);
        assert(s.map_values(f) =~= dl.map_values(f).push(f(s.last())));
        lemma_filter_push(dl.map_values(f), pb, f(s.last()));
        if pa(s.last()) {
            assert(s.filter(pa) == dl.filter(pa).push(s.last()));
            assert(s.filter(pa).map_values(f) =~= dl.filter(pa).map_values(f).push(f(s.last())));
        } else {
            assert(s.filter(pa) == dl.filter(pa));
        }
    }
}

/// A sequence splits into three consecutive subranges.
pub proof fn lemma_split3<A>(s: Seq<A>, i: int, j: int)
    requires
        0 <= i <= j <= s.len(),
    ensures
        s == s.subrange(0, i) + s.subrange(i, j) + s.subrange(j, s.len() as int),
{
    assert(s =~= s.subrange(0, i) + s.subrange(i, j) + s.subrange(j, s.len() as int));
}

/// The filtered content of a key-sorted sequence whose key-`p` entries sit
/// exactly in `[i, j)` is that block.
pub proof fn lemma_filter_block<A>(s: Seq<A>, pred: spec_fn(A) -> bool, i: int, j: int)
    requires
        0 <= i <= j <= s.len(),
        forall|k: int| 0 <= k < i ==> !pred(s[k]),
        forall|k: int| i <= k < j ==> pred(s[k]),
        forall|k: int| j <= k < s.len() ==> !pred(s[k]),
    ensures
        s.filter(pred) == s.subrange(i, j),
{
    lemma_split3(s, i, j);
    let a = s.subrange(0, i);
    let b = s.subrange(i, j);
    let c = s.subrange(j, s.len() as int);
    Seq::<A>::filter_distributes_over_add(a, b, pred);
    Seq::<A>::filter_distributes_over_add(a + b, c, pred);
    lemma_filter_none(a, pred);
    lemma_filter_all(b, pred);
    lemma_filter_none(c, pred);
    assert(s.filter(pred) =~= b);
}

} // verus!
