use vstd::prelude::*;

verus! {

/// Index of the first element of `s` satisfying `p`, or `-1` if none does.
/// The stores state their lookup contracts through this function.
pub open spec fn first_where<T>(s: Seq<T>, p: spec_fn(T) -> bool) -> int
    decreases s.len(),
{
    if s.len() == 0 {
        -1
    } else if p(s[0]) {
        0
    } else {
        let r = first_where(s.drop_first(), p);
        if r < 0 {
            -1
        } else {
            r + 1
        }
    }
}

/// What `first_where` finds: either a witness index below which nothing
/// matches, or no match at all.
pub proof fn lemma_first_where<T>(s: Seq<T>, p: spec_fn(T) -> bool)
    ensures
        first_where(s, p) >= 0 ==> {
            &&& first_where(s, p) < s.len()
            &&& p(s[first_where(s, p)])
            &&& forall|k: int| 0 <= k < first_where(s, p) ==> !p(s[k])
        },
        first_where(s, p) < 0 ==> forall|k: int| 0 <= k < s.len() ==> !p(s[k]),
    decreases s.len(),
{
    if s.len() > 0 && !p(s[0]) {
        let t = s.drop_first();
        lemma_first_where(t, p);
        let r = first_where(t, p);
        if r >= 0 {
            assert(s[r + 1] == t[r]);
            assert forall|k: int| 0 <= k < r + 1 implies !p(s[k]) by {
                if k > 0 {
                    assert(s[k] == t[k - 1]);
                }
            }
        } else {
            assert forall|k: int| 0 <= k < s.len() implies !p(s[k]) by {
                if k > 0 {
                    assert(s[k] == t[k - 1]);
                }
            }
        }
    }
}

/// `first_where` is pinned by any index that matches while everything
/// before it does not.
pub proof fn lemma_first_where_is<T>(s: Seq<T>, p: spec_fn(T) -> bool, i: int)
    requires
        0 <= i < s.len(),
        p(s[i]),
        forall|k: int| 0 <= k < i ==> !p(s[k]),
    ensures
        first_where(s, p) == i,
    decreases s.len(),
{
    if i > 0 {
        let t = s.drop_first();
        assert(t[i - 1] == s[i]);
        assert forall|k: int| 0 <= k < i - 1 implies !p(t[k]) by {
            assert(t[k] == s[k + 1]);
        }
        lemma_first_where_is(t, p, i - 1);
    }
}

/// If no element matches, `first_where` reports none.
pub proof fn lemma_first_where_none<T>(s: Seq<T>, p: spec_fn(T) -> bool)
    requires
        forall|k: int| 0 <= k < s.len() ==> !p(s[k]),
    ensures
        first_where(s, p) == -1,
    decreases s.len(),
{
    if s.len() > 0 {
        let t = s.drop_first();
        assert forall|k: int| 0 <= k < t.len() implies !p(t[k]) by {
            assert(t[k] == s[k + 1]);
        }
        lemma_first_where_none(t, p);
    }
}

/// A match stays found when the sequence grows at the end.
pub proof fn lemma_first_where_mono<T>(s: Seq<T>, t: Seq<T>, p: spec_fn(T) -> bool)
    requires
        s.len() <= t.len(),
        forall|k: int| 0 <= k < s.len() ==> t[k] == s[k],
        first_where(s, p) >= 0,
    ensures
        first_where(t, p) >= 0,
{
    lemma_first_where(s, p);
    let w = first_where(s, p);
    assert(p(t[w]));
    lemma_first_where(t, p);
    if first_where(t, p) < 0 {
        assert(!p(t[w]));
    }
}

/// Filtering one more element keeps it exactly when it matches.
pub proof fn lemma_filter_push<T>(s: Seq<T>, p: spec_fn(T) -> bool, x: T)
    ensures
        s.push(x).filter(p) == if p(x) {
            s.filter(p).push(x)
        } else {
            s.filter(p)
        },
{
    reveal(Seq::filter);
    assert(s.push(x).drop_last() =~= s);
    assert(s.push(x).last() == x);
}

} // verus!
