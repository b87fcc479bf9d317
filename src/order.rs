//! Stable insertion order by an integer key.

use vstd::prelude::*;

verus! {

/// `s` with `x` placed after every leading element whose key is not greater.
pub open spec fn insert_by<A>(s: Seq<A>, x: A, key: spec_fn(A) -> int) -> Seq<A>
    decreases s.len(),
{
    if s.len() == 0 {
        seq![x]
    } else if key(x) < key(s[0]) {
        seq![x] + s
    } else {
        seq![s[0]] + insert_by(s.drop_first(), x, key)
    }
}

/// `s` sorted by `key`, elements with equal keys in the order they had in `s`.
pub open spec fn sort_by<A>(s: Seq<A>, key: spec_fn(A) -> int) -> Seq<A>
    decreases s.len(),
{
    if s.len() == 0 {
        s
    } else {
        insert_by(sort_by(s.drop_last(), key), s.last(), key)
    }
}

/// Inserting before the first element with a greater key is `insert_by`.
pub proof fn lemma_insert_by_at<A>(s: Seq<A>, x: A, key: spec_fn(A) -> int, p: int)
    requires
        0 <= p <= s.len(),
        forall|j: int| 0 <= j < p ==> key(s[j]) <= key(x),
        p < s.len() ==> key(x) < key(s[p]),
    ensures
        insert_by(s, x, key) == s.insert(p, x),
    decreases s.len(),
{
    if s.len() == 0 {
        assert(s.insert(p, x) =~= seq![x]);
    } else if p == 0 {
        assert(s.insert(p, x) =~= seq![x] + s);
    } else {
        let t = s.drop_first();
        assert forall|j: int| 0 <= j < p - 1 implies key(t[j]) <= key(x) by {
            assert(t[j] == s[j + 1]);
        }
        if p - 1 < t.len() {
            assert(t[p - 1] == s[p]);
        }
        lemma_insert_by_at(t, x, key, p - 1);
        assert(s.insert(p, x) =~= seq![s[0]] + t.insert(p - 1, x));
    }
}

/// Filtering one more element of `s`.
pub proof fn lemma_filter_step<A>(s: Seq<A>, i: int, pred: spec_fn(A) -> bool)
    requires
        0 <= i < s.len(),
    ensures
        s.take(i + 1).filter(pred) == (if pred(s[i]) {
            s.take(i).filter(pred).push(s[i])
        } else {
            s.take(i).filter(pred)
        }),
{
    reveal(Seq::filter);
    assert(s.take(i + 1).drop_last() =~= s.take(i));
    assert(s.take(i + 1).last() == s[i]);
}

} // verus!
