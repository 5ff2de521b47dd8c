//! Facts about filtered sequences that the socket bookkeeping rests on.

use vstd::prelude::*;

verus! {

/// Filtering a sequence with one more element at its end.
pub proof fn lemma_filter_push<A>(s: Seq<A>, x: A, pred: spec_fn(A) -> bool)
    ensures
        s.push(x).filter(pred) == if pred(x) {
            s.filter(pred).push(x)
        } else {
            s.filter(pred)
        },
{
    reveal(Seq::filter);
    assert(s.push(x).drop_last() =~= s);
}

/// What a filtered sequence holds: the elements of the sequence that meet
/// the predicate.
pub proof fn lemma_filter_holds<A>(s: Seq<A>, pred: spec_fn(A) -> bool)
    ensures
        forall|x: A| #[trigger] s.filter(pred).contains(x) <==> s.contains(x) && pred(x),
    decreases s.len(),
{
    reveal(Seq::filter);
    if s.len() > 0 {
        let front = s.drop_last();
        let last = s.last();
        lemma_filter_holds(front, pred);
        assert(s =~= front.push(last));
        lemma_filter_push(front, last, pred);
        assert forall|x: A| #[trigger] s.filter(pred).contains(x) <==> s.contains(x) && pred(
            x,
        ) by {
            if s.filter(pred).contains(x) {
                let i = choose|i: int| 0 <= i < s.filter(pred).len() && s.filter(pred)[i] == x;
                if pred(last) && i == front.filter(pred).len() {
                    assert(s[s.len() - 1] == x);
                } else {
                    assert(front.filter(pred)[i] == x);
                    assert(front.filter(pred).contains(x));
                    let j = choose|j: int| 0 <= j < front.len() && front[j] == x;
                    assert(s[j] == x);
                }
            }
            if s.contains(x) && pred(x) {
                let j = choose|j: int| 0 <= j < s.len() && s[j] == x;
                if j == s.len() - 1 {
                    assert(s.filter(pred)[front.filter(pred).len() as int] == x);
                } else {
                    assert(front[j] == x);
                    assert(front.contains(x));
                    assert(front.filter(pred).contains(x));
                    let i = choose|i: int|
                        0 <= i < front.filter(pred).len() && front.filter(pred)[i] == x;
                    assert(s.filter(pred)[i] == x);
                }
            }
        }
    }
}

/// Whether `f` tells the elements of `s` apart.
pub open spec fn distinct_by<A, K>(s: Seq<A>, f: spec_fn(A) -> K) -> bool {
    forall|i: int, j: int| 0 <= i < j < s.len() ==> f(#[trigger] s[i]) != f(#[trigger] s[j])
}

/// Filtering keeps elements apart that were apart before.
pub proof fn lemma_filter_distinct<A, K>(s: Seq<A>, pred: spec_fn(A) -> bool, f: spec_fn(A) -> K)
    requires
        distinct_by(s, f),
    ensures
        distinct_by(s.filter(pred), f),
    decreases s.len(),
{
    reveal(Seq::filter);
    if s.len() > 0 {
        let front = s.drop_last();
        let last = s.last();
        assert(s =~= front.push(last));
        assert(distinct_by(front, f)) by {
            assert forall|i: int, j: int| 0 <= i < j < front.len() implies f(#[trigger] front[i])
                != f(#[trigger] front[j]) by {
                assert(front[i] == s[i] && front[j] == s[j]);
            }
        }
        lemma_filter_distinct(front, pred, f);
        lemma_filter_push(front, last, pred);
        lemma_filter_holds(front, pred);
        let out = s.filter(pred);
        assert forall|i: int, j: int| 0 <= i < j < out.len() implies f(#[trigger] out[i]) != f(
            #[trigger] out[j],
        ) by {
            if pred(last) && j == front.filter(pred).len() {
                assert(out[i] == front.filter(pred)[i]);
                assert(front.filter(pred).contains(out[i]));
                assert(front.contains(out[i]));
                let k = choose|k: int| 0 <= k < front.len() && front[k] == out[i];
                assert(s[k] == out[i] && s[s.len() - 1] == out[j]);
            } else {
                assert(out[i] == front.filter(pred)[i] && out[j] == front.filter(pred)[j]);
            }
        }
    }
}

} // verus!
