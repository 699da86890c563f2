//! Facts about sequences that several modules rely on.

use vstd::prelude::*;

verus! {

/// Filtering one element more.
pub proof fn lemma_filter_next<A>(s: Seq<A>, i: int, pred: spec_fn(A) -> bool)
    requires
        0 <= i < s.len(),
    ensures
        s.subrange(0, i + 1).filter(pred) == if pred(s[i]) {
            s.subrange(0, i).filter(pred).push(s[i])
        } else {
            s.subrange(0, i).filter(pred)
        },
{
    reveal(Seq::filter);
    assert(s.subrange(0, i + 1).drop_last() =~= s.subrange(0, i));
}

/// Filtering nothing gives nothing.
pub proof fn lemma_filter_start<A>(s: Seq<A>, pred: spec_fn(A) -> bool)
    ensures
        s.subrange(0, 0).filter(pred) == Seq::<A>::empty(),
{
    reveal(Seq::filter);
    assert(s.subrange(0, 0) =~= Seq::<A>::empty());
}

/// What is left after filtering are the elements that meet the condition.
pub proof fn lemma_filter_members<A>(s: Seq<A>, pred: spec_fn(A) -> bool)
    ensures
        forall|k: A| #[trigger] s.filter(pred).contains(k) <==> s.contains(k) && pred(k),
    decreases s.len(),
{
    reveal(Seq::filter);
    if s.len() > 0 {
        let t = s.drop_last();
        lemma_filter_members(t, pred);
        assert forall|k: A| #[trigger] s.filter(pred).contains(k) <==> s.contains(k) && pred(
            k,
        ) by {
            if s.filter(pred).contains(k) {
                let i = choose|i: int| 0 <= i < s.filter(pred).len() && s.filter(pred)[i] == k;
                if pred(s.last()) && i == t.filter(pred).len() {
                    assert(s[s.len() - 1] == k);
                } else {
                    assert(t.filter(pred)[i] == k);
                    assert(t.filter(pred).contains(k));
                    let j = choose|j: int| 0 <= j < t.len() && t[j] == k;
                    assert(s[j] == k);
                }
            }
            if s.contains(k) && pred(k) {
                let j = choose|j: int| 0 <= j < s.len() && s[j] == k;
                if j == s.len() - 1 {
                    assert(s.filter(pred)[t.filter(pred).len() as int] == k);
                } else {
                    assert(t[j] == k);
                    assert(t.contains(k));
                    assert(t.filter(pred).contains(k));
                    let i = choose|i: int| 0 <= i < t.filter(pred).len() && t.filter(pred)[i] == k;
                    assert(s.filter(pred)[i] == k);
                }
            }
        }
    }
}

/// What a sequence holds after a push.
pub proof fn lemma_push_contains<A>(s: Seq<A>, x: A)
    ensures
        forall|w: A| #[trigger] s.push(x).contains(w) <==> s.contains(w) || w == x,
{
    assert forall|w: A| #[trigger] s.push(x).contains(w) <==> s.contains(w) || w == x by {
        if s.contains(w) {
            let i = choose|i: int| 0 <= i < s.len() && s[i] == w;
            assert(s.push(x)[i] == w);
        }
        if w == x {
            assert(s.push(x)[s.len() as int] == w);
        }
        if s.push(x).contains(w) {
            let i = choose|i: int| 0 <= i < s.push(x).len() && s.push(x)[i] == w;
            if i < s.len() {
                assert(s[i] == w);
            }
        }
    }
}

/// What the concatenation of two sequences holds.
pub proof fn lemma_add_contains<A>(s: Seq<A>, t: Seq<A>)
    ensures
        forall|w: A| #[trigger] (s + t).contains(w) <==> s.contains(w) || t.contains(w),
{
    assert forall|w: A| #[trigger] (s + t).contains(w) <==> s.contains(w) || t.contains(w) by {
        if s.contains(w) {
            let i = choose|i: int| 0 <= i < s.len() && s[i] == w;
            assert((s + t)[i] == w);
        }
        if t.contains(w) {
            let i = choose|i: int| 0 <= i < t.len() && t[i] == w;
            assert((s + t)[s.len() + i] == w);
        }
        if (s + t).contains(w) {
            let i = choose|i: int| 0 <= i < (s + t).len() && (s + t)[i] == w;
            if i < s.len() {
                assert(s[i] == w);
            } else {
                assert(t[i - s.len()] == w);
            }
        }
    }
}

} // verus!
