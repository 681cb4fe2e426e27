//! Facts about sequences.

use vstd::prelude::*;

verus! {

/// Filtering a sequence with one more element at its end.
pub proof fn lemma_filter_push<T>(s: Seq<T>, e: T, f: spec_fn(T) -> bool)
    ensures
        s.push(e).filter(f) == (if f(e) {
            s.filter(f).push(e)
        } else {
            s.filter(f)
        }),
{
    reveal(Seq::filter);
    assert(s.push(e).drop_last() =~= s);
}

pub proof fn lemma_filter_empty<T>(f: spec_fn(T) -> bool)
    ensures
        Seq::<T>::empty().filter(f) == Seq::<T>::empty(),
{
    reveal(Seq::filter);
}

/// What passes a filter is what is in the sequence and meets the condition.
pub proof fn lemma_filter_contains<T>(s: Seq<T>, f: spec_fn(T) -> bool)
    ensures
        forall|e: T| #[trigger] s.filter(f).contains(e) <==> s.contains(e) && f(e),
    decreases s.len(),
{
    reveal(Seq::filter);
    if s.len() > 0 {
        let rest = s.drop_last();
        lemma_filter_contains(rest, f);
        let kept = rest.filter(f);
        let all = s.filter(f);
        assert forall|e: T| #[trigger] all.contains(e) <==> s.contains(e) && f(e) by {
            if all.contains(e) {
                let i = choose|i: int| 0 <= i < all.len() && all[i] == e;
                if i < kept.len() {
                    assert(kept[i] == e);
                    assert(kept.contains(e));
                    let k = choose|k: int| 0 <= k < rest.len() && rest[k] == e;
                    assert(s[k] == e);
                } else {
                    assert(s[s.len() - 1] == e);
                }
            }
            if s.contains(e) && f(e) {
                let i = choose|i: int| 0 <= i < s.len() && s[i] == e;
                if i < rest.len() {
                    assert(rest[i] == e);
                    assert(kept.contains(e));
                    let k = choose|k: int| 0 <= k < kept.len() && kept[k] == e;
                    assert(all[k] == e);
                } else {
                    assert(all[all.len() - 1] == e);
                }
            }
        }
    }
}

/// Of a sequence from which one item passes a filter, only one does.
pub proof fn lemma_filter_one<T>(s: Seq<T>, f: spec_fn(T) -> bool, i: int, j: int)
    requires
        0 <= i < j < s.len(),
        f(s[i]),
        f(s[j]),
    ensures
        s.filter(f).len() >= 2,
    decreases s.len(),
{
    reveal(Seq::filter);
    let rest = s.drop_last();
    if j < rest.len() {
        lemma_filter_one(rest, f, i, j);
    } else {
        lemma_filter_contains(rest, f);
        assert(rest[i] == s[i]);
        assert(rest.contains(s[i]));
        assert(rest.filter(f).contains(s[i]));
    }
}

} // verus!
