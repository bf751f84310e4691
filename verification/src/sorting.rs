use vstd::prelude::*;

verus! {

/// Places `x` behind every trailing element whose key exceeds the key of `x`,
/// looking from the back: on a sequence ordered by `key` the result stays
/// ordered and `x` comes after the elements with the same key.
pub open spec fn sorted_insert<T>(s: Seq<T>, x: T, key: spec_fn(T) -> int) -> Seq<T>
    decreases s.len(),
{
    if s.len() == 0 || key(s.last()) <= key(x) {
        s.push(x)
    } else {
        sorted_insert(s.drop_last(), x, key).push(s.last())
    }
}

/// The stable sort of `s` by `key`: insertion of each element in turn.
pub open spec fn stable_sort<T>(s: Seq<T>, key: spec_fn(T) -> int) -> Seq<T>
    decreases s.len(),
{
    if s.len() == 0 {
        s
    } else {
        sorted_insert(stable_sort(s.drop_last(), key), s.last(), key)
    }
}

/// The keys of `s` never decrease.
pub open spec fn is_sorted_by<T>(s: Seq<T>, key: spec_fn(T) -> int) -> bool {
    forall|i: int, j: int| 0 <= i < j < s.len() ==> key(s[i]) <= key(s[j])
}

/// The indices `0, 1, ..., n - 1`.
pub open spec fn indices(n: nat) -> Seq<usize> {
    Seq::new(n, |k: int| k as usize)
}

/// The sum of `val` over `s`.
pub open spec fn sum_by<T>(s: Seq<T>, val: spec_fn(T) -> int) -> int
    decreases s.len(),
{
    if s.len() == 0 {
        0
    } else {
        sum_by(s.drop_last(), val) + val(s.last())
    }
}

pub proof fn lemma_sum_by_push<T>(s: Seq<T>, x: T, val: spec_fn(T) -> int)
    ensures
        sum_by(s.push(x), val) == sum_by(s, val) + val(x),
{
    assert(s.push(x).drop_last() =~= s);
}

pub proof fn lemma_sum_by_update<T>(s: Seq<T>, i: int, x: T, val: spec_fn(T) -> int)
    requires
        0 <= i < s.len(),
    ensures
        sum_by(s.update(i, x), val) == sum_by(s, val) - val(s[i]) + val(x),
    decreases s.len(),
{
    if i == s.len() - 1 {
        assert(s.update(i, x).drop_last() =~= s.drop_last());
    } else {
        lemma_sum_by_update(s.drop_last(), i, x, val);
        assert(s.update(i, x).drop_last() =~= s.drop_last().update(i, x));
    }
}

pub proof fn lemma_sum_by_nonnegative<T>(s: Seq<T>, val: spec_fn(T) -> int)
    requires
        forall|i: int| 0 <= i < s.len() ==> val(#[trigger] s[i]) >= 0,
    ensures
        sum_by(s, val) >= 0,
        forall|i: int| 0 <= i < s.len() ==> val(#[trigger] s[i]) <= sum_by(s, val),
    decreases s.len(),
{
    if s.len() > 0 {
        let t = s.drop_last();
        assert forall|i: int| 0 <= i < t.len() implies val(#[trigger] t[i]) >= 0 by {
            assert(t[i] == s[i]);
        }
        lemma_sum_by_nonnegative(t, val);
        assert forall|i: int| 0 <= i < s.len() implies val(#[trigger] s[i]) <= sum_by(s, val) by {
            if i < s.len() - 1 {
                assert(t[i] == s[i]);
            }
        }
    }
}

/// A prefix sums to no more than the whole when no value is negative.
pub proof fn lemma_sum_by_prefix<T>(s: Seq<T>, k: int, val: spec_fn(T) -> int)
    requires
        0 <= k <= s.len(),
        forall|i: int| 0 <= i < s.len() ==> val(#[trigger] s[i]) >= 0,
    ensures
        sum_by(s.take(k), val) <= sum_by(s, val),
    decreases s.len() - k,
{
    if k < s.len() {
        lemma_sum_by_prefix(s, k + 1, val);
        assert(s.take(k + 1).drop_last() =~= s.take(k));
        assert(s.take(k + 1).last() == s[k]);
    } else {
        assert(s.take(k) =~= s);
    }
}

/// Inserting at the position found by scanning back past the larger keys is
/// `sorted_insert`.
pub proof fn lemma_sorted_insert_at<T>(s: Seq<T>, x: T, key: spec_fn(T) -> int, j: int)
    requires
        0 <= j <= s.len(),
        forall|k: int| j <= k < s.len() ==> key(#[trigger] s[k]) > key(x),
        j == 0 || key(s[j - 1]) <= key(x),
    ensures
        sorted_insert(s, x, key) == s.insert(j, x),
    decreases s.len(),
{
    if j == s.len() {
        assert(s.insert(j, x) =~= s.push(x));
    } else {
        let t = s.drop_last();
        assert forall|k: int| j <= k < t.len() implies key(#[trigger] t[k]) > key(x) by {
            assert(t[k] == s[k]);
        }
        if j > 0 {
            assert(t[j - 1] == s[j - 1]);
        }
        assert(key(s[s.len() - 1]) > key(x));
        lemma_sorted_insert_at(t, x, key, j);
        assert(s.insert(j, x) =~= t.insert(j, x).push(s.last()));
    }
}

pub proof fn lemma_sorted_insert_len<T>(s: Seq<T>, x: T, key: spec_fn(T) -> int)
    ensures
        sorted_insert(s, x, key).len() == s.len() + 1,
    decreases s.len(),
{
    if s.len() > 0 && key(s.last()) > key(x) {
        lemma_sorted_insert_len(s.drop_last(), x, key);
    }
}

pub proof fn lemma_sorted_insert_multiset<T>(s: Seq<T>, x: T, key: spec_fn(T) -> int)
    ensures
        sorted_insert(s, x, key).to_multiset() == s.to_multiset().insert(x),
    decreases s.len(),
{
    broadcast use vstd::seq_lib::group_to_multiset_ensures;

    if s.len() > 0 && key(s.last()) > key(x) {
        let t = s.drop_last();
        lemma_sorted_insert_multiset(t, x, key);
        assert(s =~= t.push(s.last()));
        assert(sorted_insert(s, x, key).to_multiset() =~= s.to_multiset().insert(x));
    }
}

pub proof fn lemma_sorted_insert_sum<T>(
    s: Seq<T>,
    x: T,
    key: spec_fn(T) -> int,
    val: spec_fn(T) -> int,
)
    ensures
        sum_by(sorted_insert(s, x, key), val) == sum_by(s, val) + val(x),
    decreases s.len(),
{
    if s.len() == 0 || key(s.last()) <= key(x) {
        lemma_sum_by_push(s, x, val);
    } else {
        let t = s.drop_last();
        lemma_sorted_insert_sum(t, x, key, val);
        lemma_sum_by_push(sorted_insert(t, x, key), s.last(), val);
    }
}

/// Every element of `sorted_insert(s, x, key)` is `x` or an element of `s`, and
/// the other way round.
pub proof fn lemma_sorted_insert_elements<T>(s: Seq<T>, x: T, key: spec_fn(T) -> int)
    ensures
        forall|k: int|
            0 <= k < sorted_insert(s, x, key).len() ==> (#[trigger] sorted_insert(s, x, key)[k]
                == x || s.contains(sorted_insert(s, x, key)[k])),
    decreases s.len(),
{
    lemma_sorted_insert_len(s, x, key);
    if s.len() == 0 || key(s.last()) <= key(x) {
        assert forall|k: int| 0 <= k < sorted_insert(s, x, key).len() implies (#[trigger] sorted_insert(
            s,
            x,
            key,
        )[k] == x || s.contains(sorted_insert(s, x, key)[k])) by {
            if k < s.len() {
                assert(sorted_insert(s, x, key)[k] == s[k]);
            }
        }
    } else {
        let t = s.drop_last();
        lemma_sorted_insert_elements(t, x, key);
        lemma_sorted_insert_len(t, x, key);
        assert forall|k: int| 0 <= k < sorted_insert(s, x, key).len() implies (#[trigger] sorted_insert(
            s,
            x,
            key,
        )[k] == x || s.contains(sorted_insert(s, x, key)[k])) by {
            if k < sorted_insert(t, x, key).len() {
                let y = sorted_insert(t, x, key)[k];
                assert(sorted_insert(s, x, key)[k] == y);
                if y != x {
                    let m = choose|m: int| 0 <= m < t.len() && t[m] == y;
                    assert(s[m] == y);
                }
            } else {
                assert(sorted_insert(s, x, key)[k] == s[s.len() - 1]);
            }
        }
    }
}

pub proof fn lemma_sorted_insert_sorted<T>(s: Seq<T>, x: T, key: spec_fn(T) -> int)
    requires
        is_sorted_by(s, key),
    ensures
        is_sorted_by(sorted_insert(s, x, key), key),
    decreases s.len(),
{
    lemma_sorted_insert_len(s, x, key);
    if s.len() == 0 || key(s.last()) <= key(x) {
        let r = s.push(x);
        assert forall|i: int, j: int| 0 <= i < j < r.len() implies key(r[i]) <= key(r[j]) by {
            if j == s.len() {
                assert(key(s[i]) <= key(s[s.len() - 1]));
            }
        }
    } else {
        let t = s.drop_last();
        assert(is_sorted_by(t, key));
        lemma_sorted_insert_sorted(t, x, key);
        lemma_sorted_insert_elements(t, x, key);
        lemma_sorted_insert_len(t, x, key);
        let u = sorted_insert(t, x, key);
        let r = u.push(s.last());
        assert forall|i: int, j: int| 0 <= i < j < r.len() implies key(r[i]) <= key(r[j]) by {
            if j == u.len() {
                let y = u[i];
                if y == x {
                } else {
                    let m = choose|m: int| 0 <= m < t.len() && t[m] == y;
                    assert(s[m] == y);
                    assert(key(s[m]) <= key(s[s.len() - 1]));
                }
            }
        }
    }
}

pub proof fn lemma_stable_sort_len<T>(s: Seq<T>, key: spec_fn(T) -> int)
    ensures
        stable_sort(s, key).len() == s.len(),
    decreases s.len(),
{
    if s.len() > 0 {
        lemma_stable_sort_len(s.drop_last(), key);
        lemma_sorted_insert_len(stable_sort(s.drop_last(), key), s.last(), key);
    }
}

/// Sorting gives an ordered rearrangement of its input: the same elements,
/// as often as before, with keys that never decrease.
pub proof fn lemma_stable_sort_sorted_permutation<T>(s: Seq<T>, key: spec_fn(T) -> int)
    ensures
        stable_sort(s, key).len() == s.len(),
        stable_sort(s, key).to_multiset() == s.to_multiset(),
        is_sorted_by(stable_sort(s, key), key),
    decreases s.len(),
{
    broadcast use vstd::seq_lib::group_to_multiset_ensures;

    lemma_stable_sort_len(s, key);
    if s.len() > 0 {
        let t = s.drop_last();
        lemma_stable_sort_sorted_permutation(t, key);
        lemma_sorted_insert_multiset(stable_sort(t, key), s.last(), key);
        lemma_sorted_insert_sorted(stable_sort(t, key), s.last(), key);
        assert(s =~= t.push(s.last()));
    } else {
        assert(is_sorted_by(stable_sort(s, key), key));
    }
}

/// Sorting keeps the sum of any value over the elements.
pub proof fn lemma_stable_sort_sum<T>(s: Seq<T>, key: spec_fn(T) -> int, val: spec_fn(T) -> int)
    ensures
        sum_by(stable_sort(s, key), val) == sum_by(s, val),
    decreases s.len(),
{
    if s.len() > 0 {
        let t = s.drop_last();
        lemma_stable_sort_sum(t, key, val);
        lemma_sorted_insert_sum(stable_sort(t, key), s.last(), key, val);
    }
}

/// The `(key, position)` pairs of a sequence of positions strictly increase.
pub open spec fn is_stable_order(s: Seq<usize>, key: spec_fn(usize) -> int) -> bool {
    forall|i: int, j: int|
        0 <= i < j < s.len() ==> key(s[i]) < key(s[j]) || (key(s[i]) == key(s[j]) && s[i] < s[j])
}

/// Sorting the positions `0..n` by key orders them by key and, among equal
/// keys, by position: the sort is stable.
pub proof fn lemma_stable_sort_of_indices_is_stable(n: nat, key: spec_fn(usize) -> int)
    requires
        n <= usize::MAX + 1,
    ensures
        is_stable_order(stable_sort(indices(n), key), key),
        stable_sort(indices(n), key).len() == n,
        forall|k: int|
            0 <= k < n ==> #[trigger] stable_sort(indices(n), key)[k] < n,
    decreases n,
{
    lemma_stable_sort_len(indices(n), key);
    if n > 0 {
        let m = (n - 1) as nat;
        assert(indices(n).drop_last() =~= indices(m));
        lemma_stable_sort_of_indices_is_stable(m, key);
        let t = stable_sort(indices(m), key);
        let x = (n - 1) as usize;
        assert(indices(n).last() == x);
        lemma_sorted_insert_len(t, x, key);
        lemma_sorted_insert_elements(t, x, key);
        lemma_sorted_insert_stable(t, x, key);
        let r = sorted_insert(t, x, key);
        assert forall|k: int| 0 <= k < n implies #[trigger] r[k] < n by {
            if r[k] != x {
                let q = choose|q: int| 0 <= q < t.len() && t[q] == r[k];
            }
        }
    }
}

proof fn lemma_sorted_insert_stable(s: Seq<usize>, x: usize, key: spec_fn(usize) -> int)
    requires
        is_stable_order(s, key),
        forall|k: int| 0 <= k < s.len() ==> #[trigger] s[k] < x,
    ensures
        is_stable_order(sorted_insert(s, x, key), key),
    decreases s.len(),
{
    lemma_sorted_insert_len(s, x, key);
    if s.len() == 0 || key(s.last()) <= key(x) {
        let r = s.push(x);
        assert forall|i: int, j: int| 0 <= i < j < r.len() implies key(r[i]) < key(r[j]) || (key(r[i])
            == key(r[j]) && r[i] < r[j]) by {
            if j == s.len() {
                if i < s.len() - 1 {
                    assert(key(s[i]) <= key(s[s.len() - 1]));
                }
            }
        }
    } else {
        let t = s.drop_last();
        assert forall|k: int| 0 <= k < t.len() implies #[trigger] t[k] < x by {
            assert(t[k] == s[k]);
        }
        lemma_sorted_insert_stable(t, x, key);
        lemma_sorted_insert_elements(t, x, key);
        lemma_sorted_insert_len(t, x, key);
        let u = sorted_insert(t, x, key);
        let r = u.push(s.last());
        assert forall|i: int, j: int| 0 <= i < j < r.len() implies key(r[i]) < key(r[j]) || (key(r[i])
            == key(r[j]) && r[i] < r[j]) by {
            if j == u.len() {
                let y = u[i];
                if y == x {
                } else {
                    let m = choose|m: int| 0 <= m < t.len() && t[m] == y;
                    assert(s[m] == y);
                }
            }
        }
    }
}

/// No two elements of `s` have the same identity.
pub open spec fn distinct_by<T, K>(s: Seq<T>, id: spec_fn(T) -> K) -> bool {
    forall|i: int, j: int| 0 <= i < j < s.len() ==> id(#[trigger] s[i]) != id(#[trigger] s[j])
}

proof fn lemma_sorted_insert_distinct<T, K>(s: Seq<T>, x: T, key: spec_fn(T) -> int, id: spec_fn(T) -> K)
    requires
        distinct_by(s, id),
        forall|k: int| 0 <= k < s.len() ==> id(#[trigger] s[k]) != id(x),
    ensures
        distinct_by(sorted_insert(s, x, key), id),
    decreases s.len(),
{
    lemma_sorted_insert_len(s, x, key);
    if s.len() == 0 || key(s.last()) <= key(x) {
        let r = s.push(x);
        assert forall|i: int, j: int| 0 <= i < j < r.len() implies id(#[trigger] r[i]) != id(
            #[trigger] r[j],
        ) by {
            assert(r[i] == s[i]);
            if j < s.len() {
                assert(r[j] == s[j]);
            }
        }
    } else {
        let t = s.drop_last();
        assert forall|k: int| 0 <= k < t.len() implies id(#[trigger] t[k]) != id(x) by {
            assert(t[k] == s[k]);
        }
        assert forall|i: int, j: int| 0 <= i < j < t.len() implies id(#[trigger] t[i]) != id(
            #[trigger] t[j],
        ) by {
            assert(t[i] == s[i]);
            assert(t[j] == s[j]);
        }
        lemma_sorted_insert_distinct(t, x, key, id);
        lemma_sorted_insert_elements(t, x, key);
        lemma_sorted_insert_len(t, x, key);
        let u = sorted_insert(t, x, key);
        let r = u.push(s.last());
        assert forall|i: int, j: int| 0 <= i < j < r.len() implies id(#[trigger] r[i]) != id(
            #[trigger] r[j],
        ) by {
            assert(r[i] == u[i]);
            if j < u.len() {
                assert(r[j] == u[j]);
            } else {
                let y = u[i];
                assert(s[s.len() - 1] == s.last());
                if y == x {
                } else {
                    let m = choose|m: int| 0 <= m < t.len() && t[m] == y;
                    assert(s[m] == y);
                }
            }
        }
    }
}

/// Sorting keeps elements apart: when no two elements of `s` share an
/// identity, no two elements of the sorted sequence do, and each of them is an
/// element of `s`.
pub proof fn lemma_stable_sort_distinct<T, K>(s: Seq<T>, key: spec_fn(T) -> int, id: spec_fn(T) -> K)
    requires
        distinct_by(s, id),
    ensures
        distinct_by(stable_sort(s, key), id),
        forall|k: int| 0 <= k < stable_sort(s, key).len() ==> s.contains(#[trigger] stable_sort(s, key)[k]),
    decreases s.len(),
{
    lemma_stable_sort_len(s, key);
    if s.len() > 0 {
        let t = s.drop_last();
        let x = s.last();
        assert forall|i: int, j: int| 0 <= i < j < t.len() implies id(#[trigger] t[i]) != id(
            #[trigger] t[j],
        ) by {
            assert(t[i] == s[i]);
            assert(t[j] == s[j]);
        }
        lemma_stable_sort_distinct(t, key, id);
        lemma_stable_sort_len(t, key);
        let u = stable_sort(t, key);
        assert forall|k: int| 0 <= k < u.len() implies id(#[trigger] u[k]) != id(x) by {
            let m = choose|m: int| 0 <= m < t.len() && t[m] == u[k];
            assert(s[m] == u[k]);
            assert(s[s.len() - 1] == x);
        }
        lemma_sorted_insert_distinct(u, x, key, id);
        lemma_sorted_insert_elements(u, x, key);
        lemma_sorted_insert_len(u, x, key);
        assert forall|k: int| 0 <= k < stable_sort(s, key).len() implies s.contains(
            #[trigger] stable_sort(s, key)[k],
        ) by {
            let y = stable_sort(s, key)[k];
            if y == x {
                assert(s[s.len() - 1] == x);
            } else {
                let q = choose|q: int| 0 <= q < u.len() && u[q] == y;
                let m = choose|m: int| 0 <= m < t.len() && t[m] == u[q];
                assert(s[m] == y);
            }
        }
    }
}

} // verus!
