//! Outstanding requests, held as a list of distinct keys with a value each.

use vstd::prelude::*;

verus! {

/// The position of the entry for key `k`, or -1 when there is none.
pub open spec fn find_key<K, V>(s: Seq<(K, V)>, k: K) -> int
    decreases s.len(),
{
    if s.len() == 0 {
        -1
    } else if s[0].0 == k {
        0
    } else {
        let r = find_key(s.drop_first(), k);
        if r < 0 {
            -1
        } else {
            r + 1
        }
    }
}

/// `s` with the value of `k` set to `v` (a new entry at the end when `k`
/// has none).
pub open spec fn put_key<K, V>(s: Seq<(K, V)>, k: K, v: V) -> Seq<(K, V)> {
    let i = find_key(s, k);
    if i < 0 {
        s.push((k, v))
    } else {
        s.update(i, (k, v))
    }
}

/// `s` without the entry for `k`.
pub open spec fn drop_key<K, V>(s: Seq<(K, V)>, k: K) -> Seq<(K, V)> {
    let i = find_key(s, k);
    if i < 0 {
        s
    } else {
        s.remove(i)
    }
}

/// `find_key` is the first position that holds `k`.
pub proof fn lemma_find_key<K, V>(s: Seq<(K, V)>, k: K)
    ensures
        -1 <= find_key(s, k) < s.len(),
        find_key(s, k) == -1 <==> (forall|i: int| 0 <= i < s.len() ==> s[i].0 != k),
        find_key(s, k) >= 0 ==> s[find_key(s, k)].0 == k,
        forall|j: int| 0 <= j < find_key(s, k) ==> s[j].0 != k,
    decreases s.len(),
{
    if s.len() > 0 && s[0].0 != k {
        lemma_find_key(s.drop_first(), k);
        assert forall|i: int| 0 <= i < s.len() && (forall|q: int| 0 <= q < s.len() - 1 ==> s.drop_first()[q].0 != k) implies s[i].0 != k by {
            if i > 0 {
                assert(s[i] == s.drop_first()[i - 1]);
            }
        }
        assert forall|j: int| 0 < j < find_key(s, k) implies s[j].0 != k by {
            assert(s[j] == s.drop_first()[j - 1]);
        }
    }
}

/// The position of the first entry of `s` with key `k`, given that every
/// entry before `i` holds another key.
pub proof fn lemma_find_key_at<K, V>(s: Seq<(K, V)>, k: K, i: int)
    requires
        0 <= i <= s.len(),
        forall|j: int| 0 <= j < i ==> s[j].0 != k,
        i < s.len() ==> s[i].0 == k,
    ensures
        find_key(s, k) == (if i < s.len() { i } else { -1 }),
{
    lemma_find_key(s, k);
    if i < s.len() {
        if find_key(s, k) < i {
            if find_key(s, k) >= 0 {
                assert(s[find_key(s, k)].0 == k);
            } else {
                assert(s[i].0 != k);
            }
        }
    }
}


/// Each key occurs at most once.
pub open spec fn keys_unique<K, V>(s: Seq<(K, V)>) -> bool {
    forall|i: int, j: int| 0 <= i < j < s.len() ==> s[i].0 != s[j].0
}

/// The value held for key `k`.
pub open spec fn key_value<K, V>(s: Seq<(K, V)>, k: K) -> Option<V> {
    if find_key(s, k) >= 0 {
        Some(s[find_key(s, k)].1)
    } else {
        None
    }
}

/// Putting a value for `k` holds that value for `k` and leaves every other
/// key's value; keys stay unique.
pub proof fn lemma_put_key_value<K, V>(s: Seq<(K, V)>, k: K, v: V, k2: K)
    requires
        keys_unique(s),
    ensures
        keys_unique(put_key(s, k, v)),
        key_value(put_key(s, k, v), k2) == (if k2 == k { Some(v) } else { key_value(s, k2) }),
{
    lemma_find_key(s, k);
    lemma_find_key(s, k2);
    let i = find_key(s, k);
    let t = put_key(s, k, v);
    if i < 0 {
        assert forall|a: int, b: int| 0 <= a < b < t.len() implies t[a].0 != t[b].0 by {
            if b == s.len() {
                assert(s[a].0 != k);
            }
        }
        if k2 == k {
            lemma_find_key_at(t, k, s.len() as int);
        } else {
            let j = find_key(s, k2);
            if j >= 0 {
                lemma_find_key_at(t, k2, j);
            } else {
                lemma_find_key_at(t, k2, t.len() as int);
            }
        }
    } else {
        assert forall|a: int, b: int| 0 <= a < b < t.len() implies t[a].0 != t[b].0 by {
            assert(s[a].0 != s[b].0);
        }
        if k2 == k {
            lemma_find_key_at(t, k, i);
        } else {
            let j = find_key(s, k2);
            if j >= 0 {
                lemma_find_key_at(t, k2, j);
            } else {
                lemma_find_key_at(t, k2, t.len() as int);
            }
        }
    }
}

/// Dropping `k` leaves no value for `k` and every other key's value; keys
/// stay unique.
pub proof fn lemma_drop_key_value<K, V>(s: Seq<(K, V)>, k: K, k2: K)
    requires
        keys_unique(s),
    ensures
        keys_unique(drop_key(s, k)),
        key_value(drop_key(s, k), k2) == (if k2 == k { None } else { key_value(s, k2) }),
{
    lemma_find_key(s, k);
    lemma_find_key(s, k2);
    let i = find_key(s, k);
    let t = drop_key(s, k);
    if i >= 0 {
        assert(forall|q: int| 0 <= q < t.len() ==> #[trigger] t[q] == s[if q < i { q } else { q + 1 }]);
        assert forall|a: int, b: int| 0 <= a < b < t.len() implies t[a].0 != t[b].0 by {
            let a1 = if a < i { a } else { a + 1 };
            let b1 = if b < i { b } else { b + 1 };
            assert(s[a1].0 != s[b1].0);
        }
        if k2 == k {
            assert forall|q: int| 0 <= q < t.len() implies t[q].0 != k by {
                let q1 = if q < i { q } else { q + 1 };
                assert(q1 != i);
                if q1 < i {
                    assert(s[q1].0 != s[i].0);
                } else {
                    assert(s[i].0 != s[q1].0);
                }
            }
            lemma_find_key_at(t, k, t.len() as int);
        } else {
            let j = find_key(s, k2);
            if j >= 0 {
                assert(j != i);
                let j1 = if j < i { j } else { j - 1 };
                assert(t[j1] == s[j]);
                assert forall|q: int| 0 <= q < j1 implies t[q].0 != k2 by {
                    let q1 = if q < i { q } else { q + 1 };
                    assert(q1 < j);
                }
                lemma_find_key_at(t, k2, j1);
            } else {
                assert forall|q: int| 0 <= q < t.len() implies t[q].0 != k2 by {
                    let q1 = if q < i { q } else { q + 1 };
                    assert(s[q1].0 != k2);
                }
                lemma_find_key_at(t, k2, t.len() as int);
            }
        }
    }
}

} // verus!
