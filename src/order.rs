//! Stable insertion sort, stated over sequences and an ordering relation.
use vstd::prelude::*;

verus! {

/// `x` placed into `s` after every element that it does not strictly precede.
pub open spec fn insert_by<T>(s: Seq<T>, x: T, before: spec_fn(T, T) -> bool) -> Seq<T>
    decreases s.len(),
{
    if s.len() > 0 && before(x, s.last()) {
        insert_by(s.drop_last(), x, before).push(s.last())
    } else {
        s.push(x)
    }
}

/// The stable sort of `s` by `before`: elements that neither precedes keep
/// their relative order.
pub open spec fn sort_by<T>(s: Seq<T>, before: spec_fn(T, T) -> bool) -> Seq<T>
    decreases s.len(),
{
    if s.len() == 0 {
        s
    } else {
        insert_by(sort_by(s.drop_last(), before), s.last(), before)
    }
}

/// Inserting at the first place from the back where `x` stops preceding.
pub proof fn lemma_insert_at<T>(s: Seq<T>, x: T, before: spec_fn(T, T) -> bool, p: int)
    requires
        0 <= p <= s.len(),
        forall|j: int| p <= j < s.len() ==> before(x, #[trigger] s[j]),
        p == 0 || !before(x, s[p - 1]),
    ensures
        insert_by(s, x, before) == s.insert(p, x),
    decreases s.len(),
{
    if p == s.len() {
        assert(s.insert(p, x) =~= s.push(x));
    } else {
        let d = s.drop_last();
        assert forall|j: int| p <= j < d.len() implies before(x, #[trigger] d[j]) by {
            assert(d[j] == s[j]);
        }
        if p > 0 {
            assert(d[p - 1] == s[p - 1]);
        }
        lemma_insert_at(d, x, before, p);
        assert(s.insert(p, x) =~= d.insert(p, x).push(s.last()));
    }
}

/// Inserting keeps the elements, with `x` added.
pub proof fn lemma_insert_by_multiset<T>(s: Seq<T>, x: T, before: spec_fn(T, T) -> bool)
    ensures
        insert_by(s, x, before).to_multiset() == s.to_multiset().insert(x),
    decreases s.len(),
{
    broadcast use vstd::seq_lib::group_to_multiset_ensures;

    if s.len() > 0 && before(x, s.last()) {
        let d = s.drop_last();
        lemma_insert_by_multiset(d, x, before);
        assert(s == d.push(s.last()));
        assert(insert_by(s, x, before).to_multiset() == insert_by(d, x, before).to_multiset().insert(
            s.last(),
        ));
        assert(s.to_multiset() == d.to_multiset().insert(s.last()));
        assert(d.to_multiset().insert(x).insert(s.last()) =~= d.to_multiset().insert(
            s.last(),
        ).insert(x));
    }
}

/// Sorting keeps the elements.
pub proof fn lemma_sort_by_multiset<T>(s: Seq<T>, before: spec_fn(T, T) -> bool)
    ensures
        sort_by(s, before).to_multiset() == s.to_multiset(),
    decreases s.len(),
{
    broadcast use vstd::seq_lib::group_to_multiset_ensures;

    if s.len() > 0 {
        let d = s.drop_last();
        lemma_sort_by_multiset(d, before);
        lemma_insert_by_multiset(sort_by(d, before), s.last(), before);
        assert(s == d.push(s.last()));
    }
}

/// Sorting keeps each element.
pub proof fn lemma_sort_by_contains<T>(s: Seq<T>, before: spec_fn(T, T) -> bool, x: T)
    ensures
        sort_by(s, before).contains(x) <==> s.contains(x),
{
    lemma_sort_by_multiset(s, before);
    vstd::seq_lib::to_multiset_contains(s, x);
    vstd::seq_lib::to_multiset_contains(sort_by(s, before), x);
}

/// Inserting places `x` at some position among the others, which keep
/// their order.
pub proof fn lemma_insert_by_position<T>(s: Seq<T>, x: T, before: spec_fn(T, T) -> bool)
    ensures
        exists|p: int| 0 <= p <= s.len() && #[trigger] insert_by(s, x, before) == s.insert(p, x),
    decreases s.len(),
{
    if s.len() > 0 && before(x, s.last()) {
        let d = s.drop_last();
        lemma_insert_by_position(d, x, before);
        let p = choose|p: int| 0 <= p <= d.len() && #[trigger] insert_by(d, x, before) == d.insert(p, x);
        assert(d.insert(p, x).push(s.last()) =~= s.insert(p, x));
        assert(insert_by(s, x, before) == s.insert(p, x));
    } else {
        assert(s.push(x) =~= s.insert(s.len() as int, x));
        assert(insert_by(s, x, before) == s.insert(s.len() as int, x));
    }
}

} // verus!
