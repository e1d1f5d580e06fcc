//! Stable insertion order: the one way every list in this crate is sorted.
use vstd::prelude::*;

verus! {

/// `le` is total and transitive, so it ranks any two items.
pub open spec fn is_total_preorder<T>(le: spec_fn(T, T) -> bool) -> bool {
    &&& forall|a: T, b: T| #[trigger] le(a, b) || le(b, a)
    &&& forall|a: T, b: T, c: T| #[trigger] le(a, b) && #[trigger] le(b, c) ==> le(a, c)
}

/// Every item of `s` is ranked no later than every item after it.
pub open spec fn is_sorted_by<T>(s: Seq<T>, le: spec_fn(T, T) -> bool) -> bool {
    forall|i: int, j: int| 0 <= i < j < s.len() ==> #[trigger] le(s[i], s[j])
}

/// `x` placed after the leading items of `s` that rank no later than it.
pub open spec fn insert_by<T>(s: Seq<T>, x: T, le: spec_fn(T, T) -> bool) -> Seq<T>
    decreases s.len(),
{
    if s.len() == 0 {
        seq![x]
    } else if !le(s[0], x) {
        seq![x] + s
    } else {
        seq![s[0]] + insert_by(s.skip(1), x, le)
    }
}

/// Where `insert_by` puts `x`: the number of leading items that rank no later than it.
pub open spec fn insert_pos<T>(s: Seq<T>, x: T, le: spec_fn(T, T) -> bool) -> int
    decreases s.len(),
{
    if s.len() == 0 || !le(s[0], x) {
        0
    } else {
        1 + insert_pos(s.skip(1), x, le)
    }
}

/// The stable sort of `s`: its items inserted one after another, in their order in `s`,
/// so that items that rank alike keep their relative order.
pub open spec fn sort_by<T>(s: Seq<T>, le: spec_fn(T, T) -> bool) -> Seq<T>
    decreases s.len(),
{
    if s.len() == 0 {
        s
    } else {
        insert_by(sort_by(s.drop_last(), le), s.last(), le)
    }
}

pub proof fn lemma_insert_pos<T>(s: Seq<T>, x: T, le: spec_fn(T, T) -> bool)
    ensures
        0 <= insert_pos(s, x, le) <= s.len(),
        forall|k: int| 0 <= k < insert_pos(s, x, le) ==> #[trigger] le(s[k], x),
        insert_pos(s, x, le) < s.len() ==> !le(s[insert_pos(s, x, le)], x),
        insert_by(s, x, le) == s.insert(insert_pos(s, x, le), x),
    decreases s.len(),
{
    if s.len() == 0 {
        assert(insert_by(s, x, le) =~= s.insert(0, x));
    } else if !le(s[0], x) {
        assert(insert_by(s, x, le) =~= s.insert(0, x));
    } else {
        let t = s.skip(1);
        lemma_insert_pos(t, x, le);
        let p = insert_pos(t, x, le);
        assert(insert_by(s, x, le) =~= s.insert(p + 1, x));
        assert forall|k: int| 0 <= k < p + 1 implies #[trigger] le(s[k], x) by {
            if k > 0 {
                assert(s[k] == t[k - 1]);
            }
        }
        if p + 1 < s.len() {
            assert(s[p + 1] == t[p]);
        }
    }
}

/// Any index that splits `s` into items ranked no later than `x` and a first item
/// ranked after it is where `insert_by` puts `x`.
pub proof fn lemma_insert_at<T>(s: Seq<T>, x: T, le: spec_fn(T, T) -> bool, j: int)
    requires
        0 <= j <= s.len(),
        forall|k: int| 0 <= k < j ==> #[trigger] le(s[k], x),
        j < s.len() ==> !le(s[j], x),
    ensures
        insert_by(s, x, le) == s.insert(j, x),
{
    lemma_insert_pos(s, x, le);
    let p = insert_pos(s, x, le);
    if j < p {
        assert(le(s[j], x));
    }
    if p < j {
        assert(le(s[p], x));
    }
}

pub proof fn lemma_insert_sorted<T>(s: Seq<T>, x: T, le: spec_fn(T, T) -> bool)
    requires
        is_total_preorder(le),
        is_sorted_by(s, le),
    ensures
        is_sorted_by(insert_by(s, x, le), le),
        insert_by(s, x, le).len() == s.len() + 1,
{
    lemma_insert_pos(s, x, le);
    let p = insert_pos(s, x, le);
    let r = s.insert(p, x);
    if p < s.len() {
        assert(le(s[p], x) || le(x, s[p]));
    }
    assert forall|i: int, j: int| 0 <= i < j < r.len() implies #[trigger] le(r[i], r[j]) by {
        if j < p {
            assert(le(s[i], s[j]));
        } else if j == p {
            assert(le(s[i], x));
        } else if i < p {
            assert(r[j] == s[j - 1]);
            assert(le(s[i], s[j - 1]));
        } else if i == p {
            assert(le(x, s[p]));
            if j - 1 > p {
                assert(le(s[p], s[j - 1]));
            }
        } else {
            assert(le(s[i - 1], s[j - 1]));
        }
    }
}

/// The stable sort is sorted and keeps the length.
pub proof fn lemma_sort_sorted<T>(s: Seq<T>, le: spec_fn(T, T) -> bool)
    requires
        is_total_preorder(le),
    ensures
        is_sorted_by(sort_by(s, le), le),
        sort_by(s, le).len() == s.len(),
    decreases s.len(),
{
    if s.len() > 0 {
        lemma_sort_sorted(s.drop_last(), le);
        lemma_insert_sorted(sort_by(s.drop_last(), le), s.last(), le);
    }
}

/// A list that is already sorted comes out of the stable sort unchanged.
pub proof fn lemma_sort_of_sorted<T>(s: Seq<T>, le: spec_fn(T, T) -> bool)
    requires
        is_sorted_by(s, le),
    ensures
        sort_by(s, le) == s,
    decreases s.len(),
{
    if s.len() > 0 {
        let t = s.drop_last();
        assert(is_sorted_by(t, le)) by {
            assert forall|i: int, j: int| 0 <= i < j < t.len() implies #[trigger] le(t[i], t[j]) by {
                assert(le(s[i], s[j]));
            }
        }
        lemma_sort_of_sorted(t, le);
        assert forall|k: int| 0 <= k < t.len() implies #[trigger] le(t[k], s.last()) by {
            assert(le(s[k], s[s.len() - 1]));
        }
        lemma_insert_at(t, s.last(), le, t.len() as int);
        assert(t.insert(t.len() as int, s.last()) =~= s);
    }
}

/// Sorting twice orders exactly as sorting once.
pub proof fn lemma_sort_idempotent<T>(s: Seq<T>, le: spec_fn(T, T) -> bool)
    requires
        is_total_preorder(le),
    ensures
        sort_by(sort_by(s, le), le) == sort_by(s, le),
{
    lemma_sort_sorted(s, le);
    lemma_sort_of_sorted(sort_by(s, le), le);
}

/// The stable sort reorders the items of `s` and nothing else.
pub proof fn lemma_sort_permutes<T>(s: Seq<T>, le: spec_fn(T, T) -> bool)
    ensures
        sort_by(s, le).to_multiset() == s.to_multiset(),
    decreases s.len(),
{
    if s.len() > 0 {
        let t = s.drop_last();
        lemma_sort_permutes(t, le);
        let sorted = sort_by(t, le);
        lemma_insert_pos(sorted, s.last(), le);
        vstd::seq_lib::to_multiset_insert(sorted, insert_pos(sorted, s.last(), le), s.last());
        vstd::seq_lib::to_multiset_build(t, s.last());
        assert(t.push(s.last()) =~= s);
    }
}

} // verus!
