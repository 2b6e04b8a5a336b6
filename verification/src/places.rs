//! Which places of a sequence were kept, and in what order.

use vstd::prelude::*;

verus! {

/// Whether `at` names places below `n`, each further on than the one before it.
pub open spec fn places(at: Seq<int>, n: int) -> bool {
    &&& forall|i: int| 0 <= i < at.len() ==> 0 <= #[trigger] at[i] < n
    &&& forall|i: int, j: int| 0 <= i < j < at.len() ==> #[trigger] at[i] < #[trigger] at[j]
}

/// Whether the place `a` in a sequence of sequences comes before the place `b`.
pub open spec fn earlier(a: (int, int), b: (int, int)) -> bool {
    a.0 < b.0 || a.0 == b.0 && a.1 < b.1
}

/// What a filter keeps stands at places of its own, in order.
pub(crate) proof fn lemma_places_kept<A, B>(s: Seq<A>, f: spec_fn(A) -> Option<B>) -> (at: Seq<int>)
    ensures
        places(at, s.len() as int),
        at.len() == s.filter_map(f).len(),
        forall|k: int| 0 <= k < s.len() ==> (#[trigger] at.contains(k) <==> f(s[k]) is Some),
        forall|i: int| 0 <= i < at.len() ==> f(s[#[trigger] at[i]]) == Some(s.filter_map(f)[i]),
    decreases s.len(),
{
    if s.len() == 0 {
        Seq::empty()
    } else {
        let rest = s.drop_last();
        let last = s.len() - 1;
        let before = lemma_places_kept(rest, f);
        let kept = s.filter_map(f);
        let at = if f(s[last]) is Some {
            before.push(last)
        } else {
            before
        };
        assert forall|k: int| 0 <= k < s.len() implies (#[trigger] at.contains(k) <==> f(s[k])
            is Some) by {
            if k < last {
                assert(rest[k] == s[k]);
                if before.contains(k) {
                    let i = choose|i: int| 0 <= i < before.len() && before[i] == k;
                    assert(at[i] == k);
                }
                if at.contains(k) {
                    let i = choose|i: int| 0 <= i < at.len() && at[i] == k;
                    assert(before[i] == k);
                }
            } else if f(s[last]) is Some {
                assert(at[before.len() as int] == last);
            } else if at.contains(k) {
                let i = choose|i: int| 0 <= i < at.len() && at[i] == k;
                assert(before[i] < last);
            }
        }
        assert forall|i: int| 0 <= i < at.len() implies f(s[#[trigger] at[i]]) == Some(kept[i]) by {
            if i < before.len() {
                assert(before[i] == at[i]);
                assert(rest[before[i]] == s[at[i]]);
                assert(rest.filter_map(f)[i] == kept[i]);
            }
        }
        at
    }
}

} // verus!
