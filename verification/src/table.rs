//! Tables as sequences of keys and values, in which no key occurs twice.

use vstd::prelude::*;

verus! {

/// Whether no key occurs twice in `t`.
pub open spec fn keys_unique<K, V>(t: Seq<(K, V)>) -> bool {
    forall|i: int, j: int|
        0 <= i < j < t.len() ==> (#[trigger] t[i]).0 != (#[trigger] t[j]).0
}

/// Whether the row `i` of `t` has the key `k`.
pub open spec fn is_row<K, V>(t: Seq<(K, V)>, k: K, i: int) -> bool {
    0 <= i < t.len() && t[i].0 == k
}

/// Whether `t` has the key `k`.
pub open spec fn has_key<K, V>(t: Seq<(K, V)>, k: K) -> bool {
    exists|i: int| is_row(t, k, i)
}

/// The row of `t` that has the key `k`.
pub open spec fn row<K, V>(t: Seq<(K, V)>, k: K) -> int {
    choose|i: int| is_row(t, k, i)
}

/// The value that `t` gives to the key `k`.
pub open spec fn get<K, V>(t: Seq<(K, V)>, k: K) -> Option<V> {
    if has_key(t, k) {
        Some(t[row(t, k)].1)
    } else {
        None
    }
}

/// `t` with the value `v` for the key `k`: in the row of the old value, or in a new last row.
pub open spec fn put<K, V>(t: Seq<(K, V)>, k: K, v: V) -> Seq<(K, V)> {
    if has_key(t, k) {
        t.update(row(t, k), (k, v))
    } else {
        t.push((k, v))
    }
}

/// `t` without the key `k`.
pub open spec fn without<K, V>(t: Seq<(K, V)>, k: K) -> Seq<(K, V)> {
    if has_key(t, k) {
        t.remove(row(t, k))
    } else {
        t
    }
}

/// The row of a key is the only one that has it.
pub proof fn lemma_row<K, V>(t: Seq<(K, V)>, k: K, i: int)
    requires
        keys_unique(t),
        is_row(t, k, i),
    ensures
        has_key(t, k),
        row(t, k) == i,
        get(t, k) == Some(t[i].1),
{
    let j = row(t, k);
    assert(is_row(t, k, j));
    if i < j {
        assert(t[i].0 != t[j].0);
    } else if j < i {
        assert(t[j].0 != t[i].0);
    }
}

/// A key that is in no row has no value.
pub proof fn lemma_no_row<K, V>(t: Seq<(K, V)>, k: K)
    requires
        forall|i: int| 0 <= i < t.len() ==> (#[trigger] t[i]).0 != k,
    ensures
        !has_key(t, k),
        get(t, k) is None,
{
    if has_key(t, k) {
        let j = row(t, k);
        assert(is_row(t, k, j));
        assert(t[j].0 == k);
    }
}

/// What a table gives after a value has been put into it: the new value for its key, and
/// the old values for all others.
pub proof fn lemma_put<K, V>(t: Seq<(K, V)>, k: K, v: V)
    requires
        keys_unique(t),
    ensures
        keys_unique(put(t, k, v)),
        get(put(t, k, v), k) == Some(v),
        forall|other: K| other != k ==> #[trigger] get(put(t, k, v), other) == get(t, other),
{
    let u = put(t, k, v);
    if has_key(t, k) {
        let r = row(t, k);
        assert(is_row(t, k, r));
        assert forall|i: int, j: int| 0 <= i < j < u.len() implies (#[trigger] u[i]).0 != (
        #[trigger] u[j]).0 by {
            assert(u[i].0 == t[i].0 && u[j].0 == t[j].0);
        }
        lemma_row(u, k, r);
    } else {
        assert forall|i: int, j: int| 0 <= i < j < u.len() implies (#[trigger] u[i]).0 != (
        #[trigger] u[j]).0 by {
            assert(u[i].0 == t[i].0);
            if j < t.len() {
                assert(u[j].0 == t[j].0);
            } else {
                assert(!is_row(t, k, i));
            }
        }
        lemma_row(u, k, t.len() as int);
    }
    assert forall|other: K| other != k implies #[trigger] get(u, other) == get(t, other) by {
        if has_key(t, other) {
            let r = row(t, other);
            assert(is_row(t, other, r));
            assert(u[r] == t[r]);
            lemma_row(u, other, r);
        } else {
            assert forall|i: int| 0 <= i < u.len() implies (#[trigger] u[i]).0 != other by {
                if i < t.len() {
                    assert(!is_row(t, other, i));
                }
            }
            lemma_no_row(u, other);
        }
    }
}

/// What a table gives after a key has been taken out of it.
pub proof fn lemma_without<K, V>(t: Seq<(K, V)>, k: K)
    requires
        keys_unique(t),
    ensures
        keys_unique(without(t, k)),
        get(without(t, k), k) is None,
        forall|other: K| other != k ==> #[trigger] get(without(t, k), other) == get(t, other),
{
    let u = without(t, k);
    if has_key(t, k) {
        let r = row(t, k);
        assert(is_row(t, k, r));
        assert forall|i: int, j: int| 0 <= i < j < u.len() implies (#[trigger] u[i]).0 != (
        #[trigger] u[j]).0 by {
            let i2 = if i < r { i } else { i + 1 };
            let j2 = if j < r { j } else { j + 1 };
            assert(u[i] == t[i2] && u[j] == t[j2]);
        }
        assert forall|i: int| 0 <= i < u.len() implies (#[trigger] u[i]).0 != k by {
            let i2 = if i < r { i } else { i + 1 };
            assert(u[i] == t[i2]);
            if t[i2].0 == k {
                lemma_row(t, k, i2);
            }
        }
        lemma_no_row(u, k);
        assert forall|other: K| other != k implies #[trigger] get(u, other) == get(t, other) by {
            if has_key(t, other) {
                let s = row(t, other);
                assert(is_row(t, other, s));
                let s2 = if s < r { s } else { s - 1 };
                assert(s != r);
                assert(u[s2] == t[s]);
                lemma_row(u, other, s2);
                lemma_row(t, other, s);
            } else {
                assert forall|i: int| 0 <= i < u.len() implies (#[trigger] u[i]).0 != other by {
                    let i2 = if i < r { i } else { i + 1 };
                    assert(u[i] == t[i2]);
                    assert(!is_row(t, other, i2));
                }
                lemma_no_row(u, other);
            }
        }
    }
}

/// What a table gives once its rows have gone through `f`, which drops rows or changes their
/// values but not their keys.
pub proof fn lemma_filter_rows<K, V>(t: Seq<(K, V)>, f: spec_fn((K, V)) -> Option<(K, V)>)
    requires
        keys_unique(t),
        forall|r: (K, V)| #[trigger] f(r) matches Some(q) ==> q.0 == r.0,
    ensures
        keys_unique(t.filter_map(f)),
        forall|k: K| #[trigger] get(t.filter_map(f), k) == (match get(t, k) {
            None => None,
            Some(v) => match f((k, v)) {
                Some(q) => Some(q.1),
                None => None,
            },
        }),
    decreases t.len(),
{
    if t.len() == 0 {
        assert forall|k: K| #[trigger] get(t.filter_map(f), k) is None by {
            lemma_no_row(t.filter_map(f), k);
        }
        assert forall|k: K| get(t, k) is None by {
            lemma_no_row(t, k);
        }
    } else {
        let before = t.drop_last();
        let (k0, v0) = t.last();
        assert forall|i: int, j: int| 0 <= i < j < before.len() implies (#[trigger] before[i]).0 != (
        #[trigger] before[j]).0 by {
            assert(t[i] == before[i] && t[j] == before[j]);
        }
        lemma_filter_rows(before, f);
        assert forall|i: int| 0 <= i < before.len() implies (#[trigger] before[i]).0 != k0 by {
            assert(t[i] == before[i]);
            assert(t[i].0 != t[t.len() - 1].0);
        }
        lemma_no_row(before, k0);
        assert(t =~= put(before, k0, v0));
        lemma_put(before, k0, v0);
        let u = before.filter_map(f);
        assert(get(u, k0) is None);
        match f((k0, v0)) {
            Some(q) => {
                assert(t.filter_map(f) =~= put(u, k0, q.1));
                lemma_put(u, k0, q.1);
            },
            None => {},
        }
        assert forall|k: K| #[trigger] get(t.filter_map(f), k) == (match get(t, k) {
            None => None,
            Some(v) => match f((k, v)) {
                Some(q) => Some(q.1),
                None => None,
            },
        }) by {
            if k != k0 {
                assert(get(put(before, k0, v0), k) == get(before, k));
            }
        }
    }
}

} // verus!
