//! Sequence-level descriptions of the cache operations: removal of a value
//! from an ordered sequence, and insertion into a bounded
//! least-recently-used sequence whose front is the oldest element.

use vstd::prelude::*;

verus! {

/// The sequence `s` with every occurrence of `v` removed, order otherwise
/// preserved.
pub open spec fn seq_without<T>(s: Seq<T>, v: T) -> Seq<T>
    decreases s.len(),
{
    if s.len() == 0 {
        Seq::empty()
    } else if s[0] == v {
        seq_without(s.drop_first(), v)
    } else {
        seq![s[0]] + seq_without(s.drop_first(), v)
    }
}

/// The sequence `s` with every occurrence of every value of `rem` removed,
/// in order.
pub open spec fn seq_without_all<T>(s: Seq<T>, rem: Seq<T>) -> Seq<T>
    decreases rem.len(),
{
    if rem.len() == 0 {
        s
    } else {
        seq_without_all(seq_without(s, rem[0]), rem.drop_first())
    }
}

/// The content of a bounded least-recently-used sequence of capacity `cap`
/// after inserting `v`: an already-present value leaves the sequence
/// unchanged, a new value is appended at the most-recent end, and if the
/// capacity is exceeded the oldest (front) element is evicted.
pub open spec fn lru_inserted<T>(s: Seq<T>, cap: int, v: T) -> Seq<T> {
    if s.contains(v) {
        s
    } else if s.len() + 1 > cap {
        s.push(v).drop_first()
    } else {
        s.push(v)
    }
}

/// The element evicted by that insertion, if any.
pub open spec fn lru_evicted<T>(s: Seq<T>, cap: int, v: T) -> Option<T> {
    if s.contains(v) {
        None
    } else if s.len() + 1 > cap {
        Some(s[0])
    } else {
        None
    }
}

/// The subsequence of `s` whose elements occur in `keep`, order preserved.
pub open spec fn seq_retain<T>(s: Seq<T>, keep: Seq<T>) -> Seq<T>
    decreases s.len(),
{
    if s.len() == 0 {
        Seq::empty()
    } else if keep.contains(s[0]) {
        seq![s[0]] + seq_retain(s.drop_first(), keep)
    } else {
        seq_retain(s.drop_first(), keep)
    }
}

/// What retaining means for membership, duplicates and length.
pub proof fn lemma_seq_retain_props<T>(s: Seq<T>, keep: Seq<T>)
    ensures
        seq_retain(s, keep).len() <= s.len(),
        forall|x: T|
            seq_retain(s, keep).contains(x) == (s.contains(x) && keep.contains(x)),
        s.no_duplicates() ==> seq_retain(s, keep).no_duplicates(),
    decreases s.len(),
{
    broadcast use vstd::seq_lib::group_seq_properties;

    if s.len() == 0 {
    } else {
        let rest = s.drop_first();
        lemma_seq_retain_props(rest, keep);
        assert(forall|x: T| s.contains(x) ==> x == s[0] || rest.contains(x));
        assert(forall|x: T| rest.contains(x) ==> s.contains(x));
        if keep.contains(s[0]) {
            let w = seq![s[0]] + seq_retain(rest, keep);
            assert(w[0] == s[0]);
            assert(forall|x: T| w.contains(x) ==> x == s[0] || seq_retain(rest, keep).contains(x));
            if s.no_duplicates() {
                assert(!rest.contains(s[0]));
                assert(w.drop_first() =~= seq_retain(rest, keep));
                assert(w.no_duplicates());
            }
        }
    }
}

/// What removing a value means for membership, duplicates and length.
pub proof fn lemma_seq_without_props<T>(s: Seq<T>, v: T)
    ensures
        !seq_without(s, v).contains(v),
        seq_without(s, v).len() <= s.len(),
        forall|x: T| x != v ==> (seq_without(s, v).contains(x) == s.contains(x)),
        s.no_duplicates() ==> seq_without(s, v).no_duplicates(),
        !s.contains(v) ==> seq_without(s, v) == s,
        s.no_duplicates() && s.contains(v) ==> seq_without(s, v).len() == s.len() - 1,
    decreases s.len(),
{
    broadcast use vstd::seq_lib::group_seq_properties;

    if s.len() == 0 {
        assert(seq_without(s, v) =~= s);
    } else {
        let rest = s.drop_first();
        lemma_seq_without_props(rest, v);
        assert(forall|x: T| s.contains(x) ==> x == s[0] || rest.contains(x));
        assert(forall|x: T| rest.contains(x) ==> s.contains(x));
        if s[0] == v {
        } else {
            let w = seq![s[0]] + seq_without(rest, v);
            assert(w[0] == s[0]);
            assert(forall|x: T| w.contains(x) ==> x == s[0] || seq_without(rest, v).contains(x));
            if !s.contains(v) {
                assert(seq_without(s, v) =~= s);
            }
            if s.no_duplicates() {
                assert(rest.no_duplicates());
                assert(!rest.contains(s[0]));
                assert(!seq_without(rest, v).contains(s[0]));
                assert(w.drop_first() =~= seq_without(rest, v));
                assert(w.no_duplicates());
            }
        }
    }
}

/// On a duplicate-free sequence, removing the value at index `i` is the same
/// as deleting that index.
pub proof fn lemma_seq_without_is_remove_idx<T>(s: Seq<T>, i: int)
    requires
        s.no_duplicates(),
        0 <= i < s.len(),
    ensures
        seq_without(s, s[i]) == s.remove(i),
    decreases s.len(),
{
    broadcast use vstd::seq_lib::group_seq_properties;

    let v = s[i];
    let rest = s.drop_first();
    if i == 0 {
        lemma_seq_without_props(rest, v);
        assert(!rest.contains(v));
        assert(seq_without(rest, v) == rest);
        assert(s.remove(0) =~= rest);
    } else {
        assert(s[0] != v);
        assert(rest[i - 1] == v);
        lemma_seq_without_is_remove_idx(rest, i - 1);
        assert(seq_without(s, v) == seq![s[0]] + rest.remove(i - 1));
        assert(seq_without(s, v) =~= s.remove(i));
    }
}

/// Membership after removing a whole list of values.
pub proof fn lemma_seq_without_all_props<T>(s: Seq<T>, rem: Seq<T>)
    ensures
        forall|x: T|
            seq_without_all(s, rem).contains(x) == (s.contains(x) && !rem.contains(x)),
        seq_without_all(s, rem).len() <= s.len(),
        s.no_duplicates() ==> seq_without_all(s, rem).no_duplicates(),
    decreases rem.len(),
{
    broadcast use vstd::seq_lib::group_seq_properties;

    if rem.len() == 0 {
    } else {
        lemma_seq_without_props(s, rem[0]);
        lemma_seq_without_all_props(seq_without(s, rem[0]), rem.drop_first());
        assert(forall|x: T| rem.contains(x) ==> x == rem[0] || rem.drop_first().contains(x));
        assert(forall|x: T| rem.drop_first().contains(x) ==> rem.contains(x));
    }
}

/// Removing one more value extends a removal list.
pub proof fn lemma_seq_without_all_push<T>(s: Seq<T>, rem: Seq<T>, v: T)
    ensures
        seq_without(seq_without_all(s, rem), v) == seq_without_all(s, rem.push(v)),
    decreases rem.len(),
{
    if rem.len() == 0 {
        assert(rem.push(v).drop_first() =~= Seq::<T>::empty());
        assert(seq_without_all(s, rem.push(v))
            == seq_without_all(seq_without(s, v), Seq::<T>::empty()));
    } else {
        lemma_seq_without_all_push(seq_without(s, rem[0]), rem.drop_first(), v);
        assert(rem.push(v)[0] == rem[0]);
        assert(rem.push(v).drop_first() =~= rem.drop_first().push(v));
    }
}

} // verus!
