//! Stable ordering of a sequence by an integer key.
//!
//! Both rankings of the crate, palette candidates by distance and colour
//! groups by pixel count, are stable sorts: elements with equal keys keep
//! the order they came in. This module says what such a sort returns and
//! proves what the rest of the crate uses of it.

use vstd::prelude::*;
use vstd::seq_lib::*;

verus! {

/// Keys never decrease along `s`.
pub open spec fn ascending<T>(s: Seq<T>, key: spec_fn(T) -> int) -> bool {
    forall|i: int, j: int|
        #![trigger s[i], s[j]]
        0 <= i <= j < s.len() ==> key(s[i]) <= key(s[j])
}

/// `i` is the position of the first element of `s` with the least key.
pub open spec fn is_first_least<T>(s: Seq<T>, key: spec_fn(T) -> int, i: int) -> bool {
    &&& 0 <= i < s.len()
    &&& forall|j: int| 0 <= j < s.len() ==> key(s[i]) <= key(#[trigger] s[j])
    &&& forall|j: int| 0 <= j < i ==> key(s[i]) < key(#[trigger] s[j])
}

/// The length of the longest prefix of `s` whose keys are all at most `k`.
pub open spec fn slot<T>(s: Seq<T>, key: spec_fn(T) -> int, k: int) -> int
    decreases s.len(),
{
    if s.len() == 0 || key(s[0]) > k {
        0
    } else {
        1 + slot(s.drop_first(), key, k)
    }
}

/// `s` with `x` placed behind the leading elements whose key is at most
/// that of `x`.
pub open spec fn insert_sorted<T>(s: Seq<T>, key: spec_fn(T) -> int, x: T) -> Seq<T> {
    s.insert(slot(s, key, key(x)), x)
}

/// The elements of `s` in ascending order of key, elements of equal key in
/// the order in which they stand in `s`.
pub open spec fn stable_sort<T>(s: Seq<T>, key: spec_fn(T) -> int) -> Seq<T>
    decreases s.len(),
{
    if s.len() == 0 {
        s
    } else {
        insert_sorted(stable_sort(s.drop_last(), key), key, s.last())
    }
}

/// The test whether an element has the key `k`.
pub open spec fn has_key<T>(key: spec_fn(T) -> int, k: int) -> spec_fn(T) -> bool {
    |x: T| key(x) == k
}

/// A value that is ordered by an integer rank: a lower rank comes first.
pub trait Ranked: Sized {
    /// The rank of the value.
    spec fn rank(&self) -> int;

    /// Whether `self` ranks no later than `other`.
    fn ranks_no_later_than(&self, other: &Self) -> (b: bool)
        ensures
            b == (self.rank() <= other.rank()),
    ;
}

/// The rank as a key.
pub open spec fn by_rank<T: Ranked>() -> spec_fn(T) -> int {
    |x: T| x.rank()
}

/// Sorts `v` by rank. Elements of equal rank keep their order.
pub fn sort_stably<T: Ranked>(v: &mut Vec<T>)
    ensures
        final(v)@ == stable_sort(old(v)@, by_rank::<T>()),
{
    let ghost orig = v@;
    let ghost key = by_rank::<T>();
    let n = v.len();
    let mut i: usize = 0;
    assert(orig.take(0) =~= Seq::<T>::empty());
    assert(orig.skip(0) =~= orig);
    while i < n
        invariant
            i <= n,
            n == orig.len(),
            key == by_rank::<T>(),
            v@ == stable_sort(orig.take(i as int), key) + orig.skip(i as int),
        decreases n - i,
    {
        let ghost sorted = stable_sort(orig.take(i as int), key);
        proof {
            lemma_sort_len(orig.take(i as int), key);
        }
        let x = v.remove(i);
        assert(x == orig[i as int]);
        assert(v@ =~= sorted + orig.skip(i + 1));
        let mut p: usize = 0;
        while p < i && v[p].ranks_no_later_than(&x)
            invariant
                p <= i,
                i < n,
                n == orig.len(),
                sorted.len() == i,
                key == by_rank::<T>(),
                v@ == sorted + orig.skip(i + 1),
                forall|j: int| 0 <= j < p ==> key(#[trigger] sorted[j]) <= key(x),
            decreases i - p,
        {
            assert(v@[p as int] == sorted[p as int]);
            p += 1;
        }
        proof {
            if p < i {
                assert(v@[p as int] == sorted[p as int]);
            }
            lemma_slot_is(sorted, key, key(x), p as int);
        }
        v.insert(p, x);
        proof {
            let next = orig.take(i + 1);
            assert(next.drop_last() =~= orig.take(i as int));
            assert(next.last() == orig[i as int]);
            assert(stable_sort(next, key) == sorted.insert(p as int, x));
            assert(v@ =~= sorted.insert(p as int, x) + orig.skip(i + 1));
        }
        i += 1;
    }
    assert(orig.take(n as int) =~= orig);
    assert(orig.skip(n as int) =~= Seq::<T>::empty());
    assert(v@ =~= stable_sort(orig, key));
}

/// The slot lies within the sequence, every key before it is at most `k`,
/// and the key at it, if any, is greater.
pub proof fn lemma_slot<T>(s: Seq<T>, key: spec_fn(T) -> int, k: int)
    ensures
        0 <= slot(s, key, k) <= s.len(),
        forall|i: int| 0 <= i < slot(s, key, k) ==> key(#[trigger] s[i]) <= k,
        slot(s, key, k) < s.len() ==> key(s[slot(s, key, k)]) > k,
    decreases s.len(),
{
    if s.len() == 0 || key(s[0]) > k {
    } else {
        let t = s.drop_first();
        lemma_slot(t, key, k);
        let p = slot(s, key, k);
        assert forall|i: int| 0 <= i < p implies key(#[trigger] s[i]) <= k by {
            if i > 0 {
                assert(s[i] == t[i - 1]);
            }
        }
        if p < s.len() {
            assert(s[p] == t[p - 1]);
        }
    }
}

/// A position with the two properties of the slot is the slot.
pub proof fn lemma_slot_is<T>(s: Seq<T>, key: spec_fn(T) -> int, k: int, p: int)
    requires
        0 <= p <= s.len(),
        forall|i: int| 0 <= i < p ==> key(#[trigger] s[i]) <= k,
        p < s.len() ==> key(s[p]) > k,
    ensures
        slot(s, key, k) == p,
    decreases s.len(),
{
    if s.len() == 0 || p == 0 {
    } else {
        let t = s.drop_first();
        assert(key(s[0]) <= k);
        assert forall|i: int| 0 <= i < p - 1 implies key(#[trigger] t[i]) <= k by {
            assert(t[i] == s[i + 1]);
        }
        if p - 1 < t.len() {
            assert(t[p - 1] == s[p]);
        }
        lemma_slot_is(t, key, k, p - 1);
    }
}

/// Sorting keeps the length.
pub proof fn lemma_sort_len<T>(s: Seq<T>, key: spec_fn(T) -> int)
    ensures
        stable_sort(s, key).len() == s.len(),
    decreases s.len(),
{
    if s.len() > 0 {
        let r = stable_sort(s.drop_last(), key);
        lemma_sort_len(s.drop_last(), key);
        lemma_slot(r, key, key(s.last()));
        r.insert_ensures(slot(r, key, key(s.last())), s.last());
    }
}

/// Placing an element into an ascending sequence leaves it ascending.
pub proof fn lemma_insert_ascending<T>(s: Seq<T>, key: spec_fn(T) -> int, x: T)
    requires
        ascending(s, key),
    ensures
        ascending(insert_sorted(s, key, x), key),
{
    let p = slot(s, key, key(x));
    let r = insert_sorted(s, key, x);
    lemma_slot(s, key, key(x));
    s.insert_ensures(p, x);
    assert forall|i: int, j: int| 0 <= i <= j < r.len() implies key(r[i]) <= key(r[j]) by {
        if i < p {
            assert(r[i] == s[i]);
        } else if i > p {
            assert(r[i] == s[i - 1]);
        }
        if j < p {
            assert(r[j] == s[j]);
        } else if j > p {
            assert(r[j] == s[j - 1]);
            assert(key(s[p]) <= key(s[j - 1]));
        }
    }
}

/// The result of sorting is ascending.
pub proof fn lemma_sort_ascending<T>(s: Seq<T>, key: spec_fn(T) -> int)
    ensures
        ascending(stable_sort(s, key), key),
    decreases s.len(),
{
    if s.len() > 0 {
        lemma_sort_ascending(s.drop_last(), key);
        lemma_insert_ascending(stable_sort(s.drop_last(), key), key, s.last());
    }
}

/// Sorting a sequence that is already ascending changes nothing.
pub proof fn lemma_sort_of_ascending<T>(s: Seq<T>, key: spec_fn(T) -> int)
    requires
        ascending(s, key),
    ensures
        stable_sort(s, key) == s,
    decreases s.len(),
{
    if s.len() > 0 {
        let t = s.drop_last();
        assert forall|i: int, j: int| 0 <= i <= j < t.len() implies key(t[i]) <= key(t[j]) by {
            assert(t[i] == s[i] && t[j] == s[j]);
        }
        lemma_sort_of_ascending(t, key);
        assert forall|i: int| 0 <= i < t.len() implies key(#[trigger] t[i]) <= key(s.last()) by {
            assert(t[i] == s[i]);
            assert(s.last() == s[s.len() - 1]);
        }
        lemma_slot_is(t, key, key(s.last()), t.len() as int);
        assert(t.insert(t.len() as int, s.last()) =~= s);
    }
}

/// Sorting rearranges: each element occurs as often after as before.
pub proof fn lemma_sort_permutes<T>(s: Seq<T>, key: spec_fn(T) -> int)
    ensures
        stable_sort(s, key).to_multiset() == s.to_multiset(),
    decreases s.len(),
{
    if s.len() > 0 {
        let t = s.drop_last();
        let r = stable_sort(t, key);
        lemma_sort_permutes(t, key);
        lemma_slot(r, key, key(s.last()));
        to_multiset_insert(r, slot(r, key, key(s.last())), s.last());
        to_multiset_build(t, s.last());
        assert(t.push(s.last()) =~= s);
    }
}

/// The sorted sequence holds the elements of the sequence, and no others.
pub proof fn lemma_sort_contains<T>(s: Seq<T>, key: spec_fn(T) -> int, x: T)
    ensures
        stable_sort(s, key).contains(x) <==> s.contains(x),
{
    lemma_sort_permutes(s, key);
    to_multiset_contains(stable_sort(s, key), x);
    to_multiset_contains(s, x);
}

/// Sorting a sequence without repetitions gives one without repetitions.
pub proof fn lemma_sort_no_duplicates<T>(s: Seq<T>, key: spec_fn(T) -> int)
    requires
        s.no_duplicates(),
    ensures
        stable_sort(s, key).no_duplicates(),
{
    lemma_sort_permutes(s, key);
    s.lemma_multiset_has_no_duplicates();
    stable_sort(s, key).lemma_multiset_has_no_duplicates_conv();
}

/// Sorting is stable: the elements of any one key stand in the sorted
/// sequence in the order in which they stand in the sequence.
pub proof fn lemma_sort_stable<T>(s: Seq<T>, key: spec_fn(T) -> int, k: int)
    ensures
        stable_sort(s, key).filter(has_key(key, k)) == s.filter(has_key(key, k)),
    decreases s.len(),
{
    let pred = has_key(key, k);
    if s.len() > 0 {
        let t = s.drop_last();
        let x = s.last();
        let r = stable_sort(t, key);
        let p = slot(r, key, key(x));
        lemma_sort_stable(t, key, k);
        lemma_sort_ascending(t, key);
        lemma_slot(r, key, key(x));
        let head = r.subrange(0, p);
        let tail = r.subrange(p, r.len() as int);
        assert(r =~= head + tail);
        assert(stable_sort(s, key) =~= head.push(x) + tail);
        assert(s =~= t.push(x));
        Seq::filter_distributes_over_add(head, tail, pred);
        Seq::filter_distributes_over_add(head.push(x), tail, pred);
        head.lemma_filter_push(x, pred);
        t.lemma_filter_push(x, pred);
        if key(x) == k {
            assert forall|i: int| 0 <= i < tail.len() implies !pred(#[trigger] tail[i]) by {
                assert(tail[i] == r[p + i]);
                assert(key(r[p]) <= key(r[p + i]));
            }
            tail.lemma_all_neg_filter_empty(pred);
            assert(tail.filter(pred) =~= Seq::<T>::empty());
            assert(head.filter(pred) + tail.filter(pred) =~= head.filter(pred));
            assert(head.filter(pred).push(x) + tail.filter(pred) =~= head.filter(pred).push(x));
        }
    }
}

/// The sorted sequence starts with the first of the elements of least key.
pub proof fn lemma_sort_head<T>(s: Seq<T>, key: spec_fn(T) -> int) -> (i: int)
    requires
        s.len() > 0,
    ensures
        is_first_least(s, key, i),
        stable_sort(s, key).len() > 0,
        stable_sort(s, key)[0] == s[i],
    decreases s.len(),
{
    let t = s.drop_last();
    let r = stable_sort(t, key);
    let x = s.last();
    let p = slot(r, key, key(x));
    lemma_sort_len(t, key);
    lemma_slot(r, key, key(x));
    r.insert_ensures(p, x);
    if t.len() == 0 {
        assert(stable_sort(s, key)[0] == x);
        s.len() - 1
    } else {
        let m = lemma_sort_head(t, key);
        assert(t[m] == s[m]);
        assert forall|j: int| 0 <= j < t.len() implies key(t[m]) <= key(#[trigger] s[j]) by {
            assert(t[j] == s[j]);
        }
        if p == 0 {
            assert(key(r[0]) > key(x));
            assert forall|j: int| 0 <= j < s.len() - 1 implies key(x) < key(#[trigger] s[j]) by {
                assert(t[j] == s[j]);
            }
            s.len() - 1
        } else {
            assert(key(r[0]) <= key(x));
            assert(stable_sort(s, key)[0] == r[0]);
            assert forall|j: int| 0 <= j < m implies key(s[m]) < key(#[trigger] s[j]) by {
                assert(t[j] == s[j]);
            }
            m
        }
    }
}

/// Sorting commutes with a mapping that respects the keys.
pub proof fn lemma_sort_map<T, U>(
    s: Seq<T>,
    key: spec_fn(T) -> int,
    f: spec_fn(T) -> U,
    mapped_key: spec_fn(U) -> int,
)
    requires
        forall|i: int| 0 <= i < s.len() ==> key(#[trigger] s[i]) == mapped_key(f(s[i])),
    ensures
        stable_sort(s, key).map_values(f) == stable_sort(s.map_values(f), mapped_key),
        forall|i: int|
            0 <= i < stable_sort(s, key).len() ==> key(#[trigger] stable_sort(s, key)[i])
                == mapped_key(f(stable_sort(s, key)[i])),
    decreases s.len(),
{
    if s.len() == 0 {
        assert(s.map_values(f) =~= Seq::<U>::empty());
        assert(stable_sort(s, key).map_values(f) =~= stable_sort(s.map_values(f), mapped_key));
    } else {
        let t = s.drop_last();
        let x = s.last();
        let r = stable_sort(t, key);
        assert forall|i: int| 0 <= i < t.len() implies key(#[trigger] t[i]) == mapped_key(
            f(t[i]),
        ) by {
            assert(t[i] == s[i]);
        }
        lemma_sort_map(t, key, f, mapped_key);
        assert(s.map_values(f).drop_last() =~= t.map_values(f));
        assert(s.map_values(f).last() == f(x));
        let rm = r.map_values(f);
        assert(rm == stable_sort(t.map_values(f), mapped_key));
        let p = slot(r, key, key(x));
        lemma_slot(r, key, key(x));
        assert(key(x) == mapped_key(f(x))) by {
            assert(x == s[s.len() - 1]);
        }
        assert forall|i: int| 0 <= i < p implies mapped_key(#[trigger] rm[i]) <= mapped_key(
            f(x),
        ) by {
            assert(key(r[i]) <= key(x));
        }
        lemma_slot_is(rm, mapped_key, mapped_key(f(x)), p);
        r.insert_ensures(p, x);
        rm.insert_ensures(p, f(x));
        let out = stable_sort(s, key);
        assert(out == r.insert(p, x));
        assert(out.map_values(f) =~= rm.insert(p, f(x))) by {
            assert forall|i: int| 0 <= i < out.len() implies out.map_values(f)[i] == rm.insert(
                p,
                f(x),
            )[i] by {
                if i < p {
                    assert(out[i] == r[i]);
                } else if i > p {
                    assert(out[i] == r[i - 1]);
                    assert(rm.insert(p, f(x))[i] == rm[i - 1]);
                }
            }
        }
        assert forall|i: int| 0 <= i < out.len() implies key(#[trigger] out[i]) == mapped_key(
            f(out[i]),
        ) by {
            if i < p {
                assert(out[i] == r[i]);
            } else if i > p {
                assert(out[i] == r[i - 1]);
            }
        }
    }
}

} // verus!
