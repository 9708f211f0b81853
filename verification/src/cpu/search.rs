//! Finding the first element of a sequence that has a property.

use vstd::prelude::*;

verus! {

/// The least index at or after `from` whose element satisfies `p`, and the
/// length of `s` where there is none.
pub open spec fn first_where<T>(s: Seq<T>, p: spec_fn(T) -> bool, from: int) -> int
    decreases s.len() - from,
{
    if from < 0 || from >= s.len() {
        s.len() as int
    } else if p(s[from]) {
        from
    } else {
        first_where(s, p, from + 1)
    }
}

/// What `first_where` returns lies in range, satisfies `p` where it is an
/// index, and nothing before it does.
pub proof fn lemma_first_where<T>(s: Seq<T>, p: spec_fn(T) -> bool, from: int)
    requires
        0 <= from <= s.len(),
    ensures
        from <= first_where(s, p, from) <= s.len(),
        first_where(s, p, from) < s.len() ==> p(s[first_where(s, p, from)]),
        forall|k: int| from <= k < first_where(s, p, from) ==> !p(#[trigger] s[k]),
    decreases s.len() - from,
{
    if from < s.len() && !p(s[from]) {
        lemma_first_where(s, p, from + 1);
    }
}

/// An index that satisfies `p`, with nothing between `from` and it that
/// does, is what `first_where` returns.
pub proof fn lemma_first_where_is<T>(s: Seq<T>, p: spec_fn(T) -> bool, from: int, r: int)
    requires
        0 <= from <= r <= s.len(),
        r < s.len() ==> p(s[r]),
        forall|k: int| from <= k < r ==> !p(#[trigger] s[k]),
    ensures
        first_where(s, p, from) == r,
    decreases s.len() - from,
{
    if from < r {
        lemma_first_where_is(s, p, from + 1, r);
    }
}

/// Two searches that agree element by element find the same index.
pub proof fn lemma_first_where_same<T>(
    a: Seq<T>,
    p: spec_fn(T) -> bool,
    b: Seq<T>,
    q: spec_fn(T) -> bool,
    from: int,
)
    requires
        0 <= from <= a.len(),
        a.len() == b.len(),
        forall|k: int| from <= k < a.len() ==> p(#[trigger] a[k]) == q(b[k]),
    ensures
        first_where(a, p, from) == first_where(b, q, from),
    decreases a.len() - from,
{
    if from < a.len() {
        assert(p(a[from]) == q(b[from]));
        if !p(a[from]) {
            lemma_first_where_same(a, p, b, q, from + 1);
        }
    }
}

/// A search through `a + b` ends in `a` where the search through `a` finds
/// something, and goes on into `b` where it does not.
pub proof fn lemma_first_where_append<T>(a: Seq<T>, b: Seq<T>, p: spec_fn(T) -> bool, from: int)
    requires
        0 <= from <= a.len(),
    ensures
        first_where(a + b, p, from) == if first_where(a, p, from) < a.len() {
            first_where(a, p, from)
        } else {
            first_where(a + b, p, a.len() as int)
        },
    decreases a.len() - from,
{
    if from < a.len() {
        assert((a + b)[from] == a[from]);
        if !p(a[from]) {
            lemma_first_where_append(a, b, p, from + 1);
        }
    }
}

} // verus!
