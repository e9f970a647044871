use vstd::prelude::*;

verus! {

broadcast use vstd::seq_lib::group_to_multiset_ensures;

/// `sorted` with `x` placed after every element whose key is at most
/// `key(x)`: one step of a stable insertion sort.
pub open spec fn insert_by_key<T>(sorted: Seq<T>, x: T, key: spec_fn(T) -> int) -> Seq<T>
    decreases sorted.len(),
{
    if sorted.len() == 0 {
        seq![x]
    } else if key(sorted.last()) <= key(x) {
        sorted.push(x)
    } else {
        insert_by_key(sorted.drop_last(), x, key).push(sorted.last())
    }
}

/// The stable sort of `s` by ascending `key`: elements with equal keys keep
/// their order in `s` (what `slice::sort_by_key` and `slice::sort_by` give).
pub open spec fn sort_by_key<T>(s: Seq<T>, key: spec_fn(T) -> int) -> Seq<T>
    decreases s.len(),
{
    if s.len() == 0 {
        s
    } else {
        insert_by_key(sort_by_key(s.drop_last(), key), s.last(), key)
    }
}

/// Whether the keys of `s` never decrease.
pub open spec fn is_sorted_by_key<T>(s: Seq<T>, key: spec_fn(T) -> int) -> bool {
    forall|i: int, j: int| 0 <= i <= j < s.len() ==> key(s[i]) <= key(s[j])
}

/// Where insertion puts `x`: `j` is the first position from which on every
/// key exceeds `key(x)`.
pub proof fn lemma_insert_by_key_at<T>(sorted: Seq<T>, x: T, key: spec_fn(T) -> int, j: int)
    requires
        0 <= j <= sorted.len(),
        forall|t: int| j <= t < sorted.len() ==> key(#[trigger] sorted[t]) > key(x),
        j > 0 ==> key(sorted[j - 1]) <= key(x),
    ensures
        insert_by_key(sorted, x, key) == sorted.insert(j, x),
    decreases sorted.len(),
{
    if sorted.len() == 0 {
        assert(sorted.insert(j, x) =~= seq![x]);
    } else if j == sorted.len() {
        assert(sorted.insert(j, x) =~= sorted.push(x));
    } else {
        let d = sorted.drop_last();
        assert(key(sorted[sorted.len() - 1]) > key(x));
        assert forall|t: int| j <= t < d.len() implies key(#[trigger] d[t]) > key(x) by {
            assert(d[t] == sorted[t]);
        }
        if j > 0 {
            assert(d[j - 1] == sorted[j - 1]);
        }
        lemma_insert_by_key_at(d, x, key, j);
        assert(d.insert(j, x).push(sorted.last()) =~= sorted.insert(j, x));
    }
}

/// Insertion into a sorted sequence keeps it sorted.
pub proof fn lemma_insert_by_key_sorted<T>(sorted: Seq<T>, x: T, key: spec_fn(T) -> int)
    requires
        is_sorted_by_key(sorted, key),
    ensures
        is_sorted_by_key(insert_by_key(sorted, x, key), key),
        insert_by_key(sorted, x, key).to_multiset() == sorted.to_multiset().insert(x),
    decreases sorted.len(),
{
    if sorted.len() == 0 {
        assert(seq![x] =~= Seq::<T>::empty().push(x));
    } else if key(sorted.last()) <= key(x) {
    } else {
        let d = sorted.drop_last();
        lemma_insert_by_key_sorted(d, x, key);
        let r = insert_by_key(d, x, key);
        // every element of r is either x or from d, so its key is at most key(last)
        assert forall|i: int| 0 <= i < r.len() implies key(#[trigger] r[i]) <= key(sorted.last()) by {
            assert(r.to_multiset().count(r[i]) > 0);
            assert(r.to_multiset() == d.to_multiset().insert(x));
            if r[i] != x {
                assert(d.to_multiset().count(r[i]) > 0);
                assert(d.contains(r[i]));
                let k = choose|k: int| 0 <= k < d.len() && d[k] == r[i];
                assert(sorted[k] == d[k]);
            }
        }
        assert(sorted.drop_last().push(sorted.last()) =~= sorted);
    }
}

/// Law: the stable sort orders by key and is a permutation of its input.
pub proof fn lemma_sort_by_key_sorted_permutation<T>(s: Seq<T>, key: spec_fn(T) -> int)
    ensures
        is_sorted_by_key(sort_by_key(s, key), key),
        sort_by_key(s, key).to_multiset() == s.to_multiset(),
        sort_by_key(s, key).len() == s.len(),
    decreases s.len(),
{
    if s.len() > 0 {
        lemma_sort_by_key_sorted_permutation(s.drop_last(), key);
        lemma_insert_by_key_sorted(sort_by_key(s.drop_last(), key), s.last(), key);
        assert(s.drop_last().push(s.last()) =~= s);
    }
    assert(sort_by_key(s, key).to_multiset().len() == sort_by_key(s, key).len());
    assert(s.to_multiset().len() == s.len());
}

/// The elements of `s` whose key is `k`, in order.
pub open spec fn with_key<T>(s: Seq<T>, key: spec_fn(T) -> int, k: int) -> Seq<T> {
    s.filter(has_key(key, k))
}

/// The test "the key is `k`".
pub open spec fn has_key<T>(key: spec_fn(T) -> int, k: int) -> spec_fn(T) -> bool {
    |y: T| key(y) == k
}

proof fn lemma_filter_push<T>(s: Seq<T>, x: T, p: spec_fn(T) -> bool)
    ensures
        s.push(x).filter(p) == (if p(x) { s.filter(p).push(x) } else { s.filter(p) }),
{
    reveal(Seq::filter);
    assert(s.push(x).drop_last() =~= s);
}

proof fn lemma_insert_by_key_with_key<T>(sorted: Seq<T>, x: T, key: spec_fn(T) -> int, k: int)
    ensures
        with_key(insert_by_key(sorted, x, key), key, k) == (if key(x) == k {
            with_key(sorted, key, k).push(x)
        } else {
            with_key(sorted, key, k)
        }),
    decreases sorted.len(),
{
    let p = has_key(key, k);
    if sorted.len() == 0 {
        lemma_filter_push(Seq::<T>::empty(), x, p);
        assert(Seq::<T>::empty().push(x) =~= seq![x]);
        reveal(Seq::filter);
    } else if key(sorted.last()) <= key(x) {
        lemma_filter_push(sorted, x, p);
    } else {
        let d = sorted.drop_last();
        lemma_insert_by_key_with_key(d, x, key, k);
        lemma_filter_push(insert_by_key(d, x, key), sorted.last(), p);
        lemma_filter_push(d, sorted.last(), p);
        assert(d.push(sorted.last()) =~= sorted);
    }
}

/// Law: the sort is stable; the elements with any one key come out in the
/// order in which they came in.
pub proof fn lemma_sort_by_key_stable<T>(s: Seq<T>, key: spec_fn(T) -> int, k: int)
    ensures
        with_key(sort_by_key(s, key), key, k) == with_key(s, key, k),
    decreases s.len(),
{
    if s.len() > 0 {
        let d = s.drop_last();
        lemma_sort_by_key_stable(d, key, k);
        lemma_insert_by_key_with_key(sort_by_key(d, key), s.last(), key, k);
        lemma_filter_push(d, s.last(), has_key(key, k));
        assert(d.push(s.last()) =~= s);
    } else {
        reveal(Seq::filter);
    }
}

} // verus!
