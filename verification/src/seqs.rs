//! Small facts about sequences that the proofs of the library share.
use vstd::prelude::*;

verus! {

/// After a push a sequence holds what it held and the pushed element; it
/// stays free of duplicates where the element is new.
pub proof fn lemma_push_contains<A>(s: Seq<A>, v: A)
    ensures
        forall|x: A| #[trigger] s.push(v).contains(x) <==> s.contains(x) || x == v,
        s.no_duplicates() && !s.contains(v) ==> s.push(v).no_duplicates(),
{
    let t = s.push(v);
    assert forall|x: A| #[trigger] t.contains(x) <==> s.contains(x) || x == v by {
        if s.contains(x) {
            let i = choose|i: int| 0 <= i < s.len() && s[i] == x;
            assert(t[i] == x);
        }
        if x == v {
            assert(t[s.len() as int] == x);
        }
        if t.contains(x) {
            let i = choose|i: int| 0 <= i < t.len() && t[i] == x;
            if i < s.len() {
                assert(s[i] == x);
            }
        }
    }
    if s.no_duplicates() && !s.contains(v) {
        assert forall|i: int, j: int| 0 <= i < t.len() && 0 <= j < t.len() && i != j implies t[i] != t[j] by {
            if i < s.len() {
                assert(s.contains(s[i]));
            }
            if j < s.len() {
                assert(s.contains(s[j]));
            }
        }
    }
}

/// The first `i + 1` elements of a sequence are its first `i` elements
/// with the next one pushed.
pub proof fn lemma_take_next<A>(s: Seq<A>, i: int)
    requires
        0 <= i < s.len(),
    ensures
        s.take(i + 1) == s.take(i).push(s[i]),
        forall|x: A| #[trigger] s.take(i + 1).contains(x) <==> s.take(i).contains(x) || x == s[i],
{
    assert(s.take(i + 1) =~= s.take(i).push(s[i]));
    lemma_push_contains(s.take(i), s[i]);
}

/// A sequence whose members are all among edges in range is in range.
pub proof fn lemma_members_in_range(picked: Seq<(usize, usize)>, edges: Seq<(usize, usize)>, n: nat)
    requires
        forall|e: (usize, usize)| #[trigger] picked.contains(e) ==> edges.contains(e),
        forall|i: int| 0 <= i < edges.len() ==> (#[trigger] edges[i]).0 < n && edges[i].1 < n,
    ensures
        forall|i: int| 0 <= i < picked.len() ==> (#[trigger] picked[i]).0 < n && picked[i].1 < n,
{
    assert forall|i: int| 0 <= i < picked.len() implies (#[trigger] picked[i]).0 < n && picked[i].1 < n by {
        assert(picked.contains(picked[i]));
        let j = choose|j: int| 0 <= j < edges.len() && edges[j] == picked[i];
        assert(edges[j].0 < n);
    }
}

} // verus!
