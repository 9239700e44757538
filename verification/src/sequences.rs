//! Sequences in which nothing occurs twice, under the changes that the
//! library makes to them.

use vstd::prelude::*;

verus! {

/// A sequence without repetition stays so when it grows by an entry that it
/// did not hold.
pub proof fn lemma_push_distinct<A>(s: Seq<A>, x: A)
    requires
        s.no_duplicates(),
        !s.contains(x),
    ensures
        s.push(x).no_duplicates(),
{
    assert forall|i: int, j: int| 0 <= i < s.len() + 1 && 0 <= j < s.len() + 1 && i != j implies s.push(
        x,
    )[i] != s.push(x)[j] by {
        if i < s.len() {
            assert(s.contains(s[i]));
        }
        if j < s.len() {
            assert(s.contains(s[j]));
        }
    }
}

/// A sequence without repetition stays so when an entry that it did not hold
/// is put in at any position.
pub proof fn lemma_insert_distinct<A>(s: Seq<A>, at: int, x: A)
    requires
        s.no_duplicates(),
        !s.contains(x),
        0 <= at <= s.len(),
    ensures
        s.insert(at, x).no_duplicates(),
{
    let t = s.insert(at, x);
    assert forall|i: int, j: int| 0 <= i < t.len() && 0 <= j < t.len() && i != j implies t[i] != t[j] by {
        let i0 = if i < at { i } else { i - 1 };
        let j0 = if j < at { j } else { j - 1 };
        if i != at {
            assert(t[i] == s[i0]);
            assert(s.contains(s[i0]));
        }
        if j != at {
            assert(t[j] == s[j0]);
            assert(s.contains(s[j0]));
        }
    }
}

/// Taking an entry out of a sequence without repetition leaves the other
/// entries, each once.
pub proof fn lemma_remove_distinct<A>(s: Seq<A>, at: int)
    requires
        s.no_duplicates(),
        0 <= at < s.len(),
    ensures
        s.remove(at).no_duplicates(),
        forall|x: A| s.remove(at).contains(x) <==> s.contains(x) && x != s[at],
{
    let t = s.remove(at);
    assert forall|i: int, j: int| 0 <= i < t.len() && 0 <= j < t.len() && i != j implies t[i] != t[j] by {
        let i0 = if i < at { i } else { i + 1 };
        let j0 = if j < at { j } else { j + 1 };
        assert(t[i] == s[i0]);
        assert(t[j] == s[j0]);
    }
    assert forall|x: A| t.contains(x) <==> s.contains(x) && x != s[at] by {
        if t.contains(x) {
            let m = choose|m: int| 0 <= m < t.len() && t[m] == x;
            let m0 = if m < at { m } else { m + 1 };
            assert(s[m0] == x);
        }
        if s.contains(x) && x != s[at] {
            let m = choose|m: int| 0 <= m < s.len() && s[m] == x;
            let m1 = if m < at { m } else { m - 1 };
            assert(t[m1] == x);
        }
    }
}

} // verus!
