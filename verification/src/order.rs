//! Stable ordering of a sequence by a descending integer key.
//!
//! Every level of the directory forest and every language breakdown is put
//! in this order: larger keys first, equal keys in the order they arrived.

use vstd::prelude::*;

verus! {

/// No element is followed by one with a larger key.
pub open spec fn is_descending<T>(s: Seq<T>, key: spec_fn(T) -> int) -> bool {
    forall|i: int, j: int| 0 <= i < j < s.len() ==> key(s[i]) >= key(s[j])
}

/// The elements of `s` whose key is `v`, in the order they have in `s`.
pub open spec fn with_key<T>(s: Seq<T>, key: spec_fn(T) -> int, v: int) -> Seq<T>
    decreases s.len(),
{
    if s.len() == 0 {
        Seq::empty()
    } else if key(s.last()) == v {
        with_key(s.drop_last(), key, v).push(s.last())
    } else {
        with_key(s.drop_last(), key, v)
    }
}

/// Where `x` goes in a descending `s`: behind every element whose key is
/// at least that of `x`, in front of the first whose key is smaller.
pub open spec fn insertion_point<T>(s: Seq<T>, key: spec_fn(T) -> int, x: T) -> int
    decreases s.len(),
{
    if s.len() == 0 || key(s[0]) < key(x) {
        0
    } else {
        1 + insertion_point(s.skip(1), key, x)
    }
}

/// `s` with `x` put at its insertion point.
pub open spec fn insert_descending<T>(s: Seq<T>, key: spec_fn(T) -> int, x: T) -> Seq<T> {
    s.insert(insertion_point(s, key, x), x)
}

/// `s` in descending order of key, equal keys in their order in `s`.
pub open spec fn sort_descending<T>(s: Seq<T>, key: spec_fn(T) -> int) -> Seq<T>
    decreases s.len(),
{
    if s.len() == 0 {
        Seq::empty()
    } else {
        insert_descending(sort_descending(s.drop_last(), key), key, s.last())
    }
}

/// The insertion point lies in the sequence, everything in front of it has
/// a key at least that of `x`, and the element at it has a smaller one.
pub proof fn lemma_insertion_point<T>(s: Seq<T>, key: spec_fn(T) -> int, x: T)
    ensures
        0 <= insertion_point(s, key, x) <= s.len(),
        forall|m: int| 0 <= m < insertion_point(s, key, x) ==> key(#[trigger] s[m]) >= key(x),
        insertion_point(s, key, x) < s.len() ==> key(s[insertion_point(s, key, x)]) < key(x),
    decreases s.len(),
{
    if s.len() == 0 || key(s[0]) < key(x) {
    } else {
        let t = s.skip(1);
        lemma_insertion_point(t, key, x);
        let p = insertion_point(t, key, x);
        assert forall|m: int| 0 <= m < p + 1 implies key(#[trigger] s[m]) >= key(x) by {
            if m > 0 {
                assert(s[m] == t[m - 1]);
            }
        }
        if p < t.len() {
            assert(s[p + 1] == t[p]);
        }
    }
}

/// An index with the two properties of the insertion point is the
/// insertion point.
pub proof fn lemma_insertion_point_unique<T>(s: Seq<T>, key: spec_fn(T) -> int, x: T, k: int)
    requires
        0 <= k <= s.len(),
        forall|m: int| 0 <= m < k ==> key(#[trigger] s[m]) >= key(x),
        k < s.len() ==> key(s[k]) < key(x),
    ensures
        k == insertion_point(s, key, x),
{
    lemma_insertion_point(s, key, x);
    let p = insertion_point(s, key, x);
    if k < p {
        assert(key(s[k]) >= key(x));
    } else if p < k {
        assert(key(s[p]) >= key(x));
    }
}

/// Inserting into a descending sequence leaves it descending.
pub proof fn lemma_insert_descending<T>(s: Seq<T>, key: spec_fn(T) -> int, x: T)
    requires
        is_descending(s, key),
    ensures
        is_descending(insert_descending(s, key, x), key),
        insert_descending(s, key, x).len() == s.len() + 1,
{
    lemma_insertion_point(s, key, x);
    let p = insertion_point(s, key, x);
    let r = insert_descending(s, key, x);
    assert forall|i: int, j: int| 0 <= i < j < r.len() implies key(r[i]) >= key(r[j]) by {
        if j < p {
            assert(r[i] == s[i] && r[j] == s[j]);
        } else if j == p {
            assert(r[i] == s[i]);
        } else if i < p {
            assert(r[i] == s[i] && r[j] == s[j - 1]);
        } else if i == p {
            assert(r[j] == s[j - 1]);
            assert(p <= j - 1);
            if p < j - 1 {
                assert(key(s[p]) >= key(s[j - 1]));
            }
        } else {
            assert(r[i] == s[i - 1] && r[j] == s[j - 1]);
        }
    }
}

/// The sorted sequence is descending and as long as the unsorted one.
pub proof fn lemma_sort_descending<T>(s: Seq<T>, key: spec_fn(T) -> int)
    ensures
        is_descending(sort_descending(s, key), key),
        sort_descending(s, key).len() == s.len(),
    decreases s.len(),
{
    if s.len() > 0 {
        lemma_sort_descending(s.drop_last(), key);
        lemma_insert_descending(sort_descending(s.drop_last(), key), key, s.last());
    }
}

/// `with_key` goes through a concatenation.
pub proof fn lemma_with_key_concat<T>(a: Seq<T>, b: Seq<T>, key: spec_fn(T) -> int, v: int)
    ensures
        with_key(a + b, key, v) == with_key(a, key, v) + with_key(b, key, v),
    decreases b.len(),
{
    if b.len() == 0 {
        assert(a + b =~= a);
        assert(with_key(a, key, v) + with_key(b, key, v) =~= with_key(a, key, v));
    } else {
        assert((a + b).drop_last() =~= a + b.drop_last());
        assert((a + b).last() == b.last());
        lemma_with_key_concat(a, b.drop_last(), key, v);
        if key(b.last()) == v {
            assert((with_key(a, key, v) + with_key(b.drop_last(), key, v)).push(b.last())
                =~= with_key(a, key, v) + with_key(b.drop_last(), key, v).push(b.last()));
        }
    }
}

/// Where no element has key `v`, `with_key` finds nothing.
pub proof fn lemma_with_key_absent<T>(s: Seq<T>, key: spec_fn(T) -> int, v: int)
    requires
        forall|m: int| 0 <= m < s.len() ==> key(#[trigger] s[m]) != v,
    ensures
        with_key(s, key, v) == Seq::<T>::empty(),
    decreases s.len(),
{
    if s.len() > 0 {
        assert(key(s[s.len() - 1]) != v);
        assert forall|m: int| 0 <= m < s.drop_last().len() implies key(
            #[trigger] s.drop_last()[m],
        ) != v by {
            assert(s.drop_last()[m] == s[m]);
        }
        lemma_with_key_absent(s.drop_last(), key, v);
    }
}

/// Inserting `x` into a descending sequence appends it to the elements of
/// its own key and leaves those of every other key as they were.
pub proof fn lemma_insert_with_key<T>(s: Seq<T>, key: spec_fn(T) -> int, x: T, v: int)
    requires
        is_descending(s, key),
    ensures
        with_key(insert_descending(s, key, x), key, v) == if key(x) == v {
            with_key(s, key, v).push(x)
        } else {
            with_key(s, key, v)
        },
{
    lemma_insertion_point(s, key, x);
    let p = insertion_point(s, key, x);
    let front = s.subrange(0, p);
    let back = s.subrange(p, s.len() as int);
    let one = Seq::<T>::empty().push(x);
    assert(s =~= front + back);
    assert(insert_descending(s, key, x) =~= (front + one) + back);
    lemma_with_key_concat(front, back, key, v);
    lemma_with_key_concat(front + one, back, key, v);
    lemma_with_key_concat(front, one, key, v);
    assert(one.drop_last() =~= Seq::<T>::empty());
    assert(with_key(one.drop_last(), key, v) =~= Seq::<T>::empty());
    if key(x) == v {
        assert(with_key(one, key, v) =~= one);
        assert forall|m: int| 0 <= m < back.len() implies key(#[trigger] back[m]) != v by {
            assert(back[m] == s[p + m]);
            if m > 0 {
                assert(key(s[p]) >= key(s[p + m]));
            }
        }
        lemma_with_key_absent(back, key, v);
        assert(with_key(front, key, v) + one + Seq::<T>::empty() =~= (with_key(front, key, v)
            + Seq::<T>::empty()).push(x));
    } else {
        assert(with_key(one, key, v) =~= Seq::<T>::empty());
        assert(with_key(front, key, v) + Seq::<T>::empty() + with_key(back, key, v) =~= with_key(
            front,
            key,
            v,
        ) + with_key(back, key, v));
    }
}

/// Sorting is stable: for every key, the elements with that key stand in
/// the sorted sequence in the order they had before.
pub proof fn lemma_sort_is_stable<T>(s: Seq<T>, key: spec_fn(T) -> int, v: int)
    ensures
        with_key(sort_descending(s, key), key, v) == with_key(s, key, v),
    decreases s.len(),
{
    if s.len() > 0 {
        lemma_sort_is_stable(s.drop_last(), key, v);
        lemma_sort_descending(s.drop_last(), key);
        lemma_insert_with_key(sort_descending(s.drop_last(), key), key, s.last(), v);
    }
}

/// Sorting neither drops nor invents an element.
pub proof fn lemma_sort_keeps_elements<T>(s: Seq<T>, key: spec_fn(T) -> int)
    ensures
        sort_descending(s, key).to_multiset() == s.to_multiset(),
    decreases s.len(),
{
    broadcast use vstd::seq_lib::group_to_multiset_ensures;

    if s.len() > 0 {
        let init = s.drop_last();
        let sorted = sort_descending(init, key);
        lemma_sort_keeps_elements(init, key);
        lemma_insertion_point(sorted, key, s.last());
        let p = insertion_point(sorted, key, s.last());
        sorted.to_multiset_ensures();
        assert(sorted.insert(p, s.last()).to_multiset() =~= sorted.to_multiset().insert(s.last()));
        assert(s =~= init.push(s.last()));
        init.to_multiset_ensures();
    } else {
        assert(sort_descending(s, key) =~= s);
    }
}

/// The sorted sequence holds exactly the elements of the unsorted one.
pub proof fn lemma_sort_contains<T>(s: Seq<T>, key: spec_fn(T) -> int, x: T)
    ensures
        sort_descending(s, key).contains(x) == s.contains(x),
{
    lemma_sort_keeps_elements(s, key);
    vstd::seq_lib::to_multiset_contains(s, x);
    vstd::seq_lib::to_multiset_contains(sort_descending(s, key), x);
}

/// A first element whose key no other exceeds stays first.
pub proof fn lemma_sort_keeps_leader<T>(s: Seq<T>, key: spec_fn(T) -> int)
    requires
        s.len() > 0,
        forall|m: int| 0 <= m < s.len() ==> key(#[trigger] s[m]) <= key(s[0]),
    ensures
        sort_descending(s, key).len() == s.len(),
        sort_descending(s, key)[0] == s[0],
    decreases s.len(),
{
    lemma_sort_descending(s, key);
    let init = s.drop_last();
    let sorted = sort_descending(init, key);
    lemma_sort_descending(init, key);
    lemma_insertion_point(sorted, key, s.last());
    if init.len() > 0 {
        assert forall|m: int| 0 <= m < init.len() implies key(#[trigger] init[m]) <= key(
            init[0],
        ) by {
            assert(init[m] == s[m]);
        }
        lemma_sort_keeps_leader(init, key);
        assert(sorted[0] == s[0]);
        assert(key(s[s.len() - 1]) <= key(s[0]));
        assert(insertion_point(sorted, key, s.last()) >= 1);
    }
}

/// No two elements carry the same mark.
pub open spec fn is_distinct_by<T, A>(s: Seq<T>, mark: spec_fn(T) -> A) -> bool {
    forall|i: int, j: int| 0 <= i < j < s.len() ==> mark(s[i]) != mark(s[j])
}

/// Where no two elements carry the same mark, none do after sorting.
pub proof fn lemma_sort_keeps_distinct<T, A>(
    s: Seq<T>,
    key: spec_fn(T) -> int,
    mark: spec_fn(T) -> A,
)
    requires
        is_distinct_by(s, mark),
    ensures
        is_distinct_by(sort_descending(s, key), mark),
    decreases s.len(),
{
    if s.len() > 0 {
        let init = s.drop_last();
        let sorted = sort_descending(init, key);
        let last = s.last();
        assert forall|i: int, j: int| 0 <= i < j < init.len() implies mark(init[i]) != mark(
            init[j],
        ) by {
            assert(init[i] == s[i] && init[j] == s[j]);
        }
        lemma_sort_keeps_distinct(init, key, mark);
        lemma_insertion_point(sorted, key, last);
        let p = insertion_point(sorted, key, last);
        let all = sorted.insert(p, last);
        assert forall|m: int| 0 <= m < sorted.len() implies mark(#[trigger] sorted[m]) != mark(
            last,
        ) by {
            lemma_sort_contains(init, key, sorted[m]);
            assert(sorted.contains(sorted[m]));
            let q = choose|q: int| 0 <= q < init.len() && init[q] == sorted[m];
            assert(init[q] == s[q]);
            assert(mark(s[q]) != mark(s[s.len() - 1]));
        }
        assert forall|i: int, j: int| 0 <= i < j < all.len() implies mark(all[i]) != mark(
            all[j],
        ) by {
            if i == p {
                assert(all[j] == sorted[j - 1]);
            } else if j == p {
                assert(all[i] == sorted[i]);
            } else {
                let a = if i < p { i } else { i - 1 };
                let b = if j < p { j } else { j - 1 };
                assert(all[i] == sorted[a] && all[j] == sorted[b]);
            }
        }
    }
}

} // verus!
