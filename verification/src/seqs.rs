//! Facts about sequences that the loops of this crate lean on.

use vstd::prelude::*;

verus! {

/// Filtering a prefix that is one member longer: the member is kept if it passes the test.
pub proof fn lemma_filter_step<A>(s: Seq<A>, pred: spec_fn(A) -> bool, i: int)
    requires
        0 <= i < s.len(),
    ensures
        s.take(i + 1).filter(pred) == if pred(s[i]) {
            s.take(i).filter(pred).push(s[i])
        } else {
            s.take(i).filter(pred)
        },
{
    reveal(Seq::filter);
    assert(s.take(i + 1).drop_last() =~= s.take(i));
}

/// Filtering the empty prefix leaves nothing.
pub proof fn lemma_filter_start<A>(s: Seq<A>, pred: spec_fn(A) -> bool)
    ensures
        s.take(0).filter(pred) == Seq::<A>::empty(),
{
    reveal(Seq::filter);
    assert(s.take(0).filter(pred) =~= Seq::<A>::empty());
}

/// Filtering a sequence with one more member at its end.
pub proof fn lemma_filter_push<A>(s: Seq<A>, a: A, pred: spec_fn(A) -> bool)
    ensures
        s.push(a).filter(pred) == if pred(a) {
            s.filter(pred).push(a)
        } else {
            s.filter(pred)
        },
{
    reveal(Seq::filter);
    assert(s.push(a).drop_last() =~= s);
}

/// Where no member passes the test, filtering leaves nothing.
pub proof fn lemma_filter_none<A>(s: Seq<A>, pred: spec_fn(A) -> bool)
    requires
        forall|i: int| 0 <= i < s.len() ==> !pred(#[trigger] s[i]),
    ensures
        s.filter(pred) == Seq::<A>::empty(),
    decreases s.len(),
{
    reveal(Seq::filter);
    if s.len() > 0 {
        lemma_filter_none(s.drop_last(), pred);
    }
}

/// What a filtered sequence holds: the members of the whole sequence that pass the test.
pub proof fn lemma_filter_members<A>(s: Seq<A>, pred: spec_fn(A) -> bool)
    ensures
        forall|a: A| #[trigger] s.filter(pred).contains(a) <==> (s.contains(a) && pred(a)),
    decreases s.len(),
{
    reveal(Seq::filter);
    if s.len() > 0 {
        let front = s.drop_last();
        lemma_filter_members(front, pred);
        assert forall|a: A| #[trigger] s.filter(pred).contains(a) <==> (s.contains(a) && pred(
            a,
        )) by {
            if s.filter(pred).contains(a) {
                let k = choose|k: int| 0 <= k < s.filter(pred).len() && s.filter(pred)[k] == a;
                if pred(s.last()) && k == s.filter(pred).len() - 1 {
                    assert(s[s.len() - 1] == a);
                } else {
                    assert(front.filter(pred)[k] == a);
                    assert(front.filter(pred).contains(a));
                    let j = choose|j: int| 0 <= j < front.len() && front[j] == a;
                    assert(s[j] == a);
                }
            }
            if s.contains(a) && pred(a) {
                let j = choose|j: int| 0 <= j < s.len() && s[j] == a;
                if j == s.len() - 1 {
                    assert(s.filter(pred)[s.filter(pred).len() - 1] == a);
                } else {
                    assert(front[j] == a);
                    assert(front.filter(pred).contains(a));
                    let k = choose|k: int|
                        0 <= k < front.filter(pred).len() && front.filter(pred)[k] == a;
                    assert(s.filter(pred)[k] == a);
                }
            }
        }
    }
}

} // verus!
