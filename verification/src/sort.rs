//! Sorting of 128-bit keys, used to order trace records and events by time.

use vstd::prelude::*;
use vstd::relations::{sorted_by, total_ordering};
use vstd::seq_lib::{lemma_multiset_commutative, lemma_sorted_unique};

verus! {

broadcast use vstd::seq_lib::group_to_multiset_ensures;

pub open spec fn key_le(a: u128, b: u128) -> bool {
    a <= b
}

/// The keys of `s` in ascending order.
pub open spec fn sorted_keys(s: Seq<u128>) -> Seq<u128> {
    s.sort_by(|a: u128, b: u128| key_le(a, b))
}

/// Every key is at most every later key.
pub open spec fn is_ascending(s: Seq<u128>) -> bool {
    forall|i: int, j: int| 0 <= i < j < s.len() ==> s[i] <= s[j]
}

proof fn lemma_key_le_total()
    ensures
        total_ordering(|a: u128, b: u128| key_le(a, b)),
{
}

fn merge_sorted(a: &Vec<u128>, b: &Vec<u128>) -> (r: Vec<u128>)
    requires
        is_ascending(a@),
        is_ascending(b@),
    ensures
        is_ascending(r@),
        r@.to_multiset() == (a@ + b@).to_multiset(),
{
    let mut r: Vec<u128> = Vec::new();
    let mut i: usize = 0;
    let mut j: usize = 0;
    while i < a.len() || j < b.len()
        invariant
            0 <= i <= a.len(),
            0 <= j <= b.len(),
            is_ascending(a@),
            is_ascending(b@),
            is_ascending(r@),
            r@.to_multiset() == (a@.take(i as int) + b@.take(j as int)).to_multiset(),
            r.len() == i + j,
            forall|k: int| 0 <= k < r.len() && i < a.len() ==> r@[k] <= a@[i as int],
            forall|k: int| 0 <= k < r.len() && j < b.len() ==> r@[k] <= b@[j as int],
        decreases a.len() + b.len() - i - j,
    {
        let ghost before = r@;
        let take_a: bool = j >= b.len() || (i < a.len() && a[i] <= b[j]);
        if take_a {
            let x = a[i];
            r.push(x);
            proof {
                assert(a@.take(i + 1) =~= a@.take(i as int).push(x));
                lemma_multiset_commutative(a@.take(i as int), b@.take(j as int));
                lemma_multiset_commutative(a@.take(i + 1), b@.take(j as int));
                assert forall|k: int| 0 <= k < r.len() && i + 1 < a.len() implies r@[k] <= a@[i + 1] by {
                    if k < before.len() {
                    } else {
                        assert(a@[i as int] <= a@[i + 1]);
                    }
                }
                assert forall|k: int| 0 <= k < r.len() && j < b.len() implies r@[k] <= b@[j as int] by {
                }
            }
            i = i + 1;
        } else {
            let x = b[j];
            r.push(x);
            proof {
                assert(b@.take(j + 1) =~= b@.take(j as int).push(x));
                lemma_multiset_commutative(a@.take(i as int), b@.take(j as int));
                lemma_multiset_commutative(a@.take(i as int), b@.take(j + 1));
                assert forall|k: int| 0 <= k < r.len() && j + 1 < b.len() implies r@[k] <= b@[j + 1] by {
                    if k < before.len() {
                    } else {
                        assert(b@[j as int] <= b@[j + 1]);
                    }
                }
            }
            j = j + 1;
        }
    }
    assert(a@.take(a.len() as int) =~= a@);
    assert(b@.take(b.len() as int) =~= b@);
    r
}

fn merge_sort(v: &[u128]) -> (r: Vec<u128>)
    ensures
        is_ascending(r@),
        r@.to_multiset() == v@.to_multiset(),
    decreases v.len(),
{
    if v.len() <= 1 {
        let r = vstd::slice::slice_to_vec(v);
        return r;
    }
    let mid: usize = v.len() / 2;
    let left = vstd::slice::slice_subrange(v, 0, mid);
    let right = vstd::slice::slice_subrange(v, mid, v.len());
    let a = merge_sort(left);
    let b = merge_sort(right);
    proof {
        assert(left@ + right@ =~= v@);
        lemma_multiset_commutative(left@, right@);
        lemma_multiset_commutative(a@, b@);
    }
    merge_sorted(&a, &b)
}

/// Sorting keeps the keys, puts them in ascending order and keeps the
/// length.
pub proof fn lemma_sorted_keys(s: Seq<u128>)
    ensures
        sorted_keys(s).to_multiset() == s.to_multiset(),
        is_ascending(sorted_keys(s)),
        sorted_keys(s).len() == s.len(),
{
    lemma_key_le_total();
    s.lemma_sort_by_ensures(|a: u128, b: u128| key_le(a, b));
    assert(sorted_keys(s).to_multiset().len() == s.to_multiset().len());
    let t = sorted_keys(s);
    let leq = |a: u128, b: u128| key_le(a, b);
    assert(sorted_by(t, leq));
    assert forall|i: int, j: int| 0 <= i < j < t.len() implies t[i] <= t[j] by {
        assert(leq(t[i], t[j]));
    }
}

/// Sorts keys into ascending order.
pub fn sort_keys(v: &[u128]) -> (r: Vec<u128>)
    ensures
        r@ == sorted_keys(v@),
{
    let r = merge_sort(v);
    proof {
        assert(sorted_by(r@, |a: u128, b: u128| key_le(a, b)));
        lemma_key_le_total();
        v@.lemma_sort_by_ensures(|a: u128, b: u128| key_le(a, b));
        lemma_sorted_unique(r@, sorted_keys(v@), |a: u128, b: u128| key_le(a, b));
    }
    r
}

/// The key that orders the entry at index `i` with timestamp `t` first by
/// time, then by position.
pub open spec fn time_key(t: u64, i: int) -> u128 {
    (t * 0x1_0000_0000_0000_0000 + i) as u128
}

/// The keys of a sequence of timestamps.
pub open spec fn time_keys(times: Seq<u64>) -> Seq<u128> {
    Seq::new(times.len(), |i: int| time_key(times[i], i))
}

/// The positions of `times` ordered by time, equal times kept in the
/// order they are given in.
pub open spec fn time_order(times: Seq<u64>) -> Seq<int> {
    sorted_keys(time_keys(times)).map_values(|k: u128| (k % 0x1_0000_0000_0000_0000) as int)
}

/// The positions of `times` ordered by time, equal times kept in the
/// order they are given in.
pub fn order_by_time(times: &Vec<u64>) -> (r: Vec<usize>)
    ensures
        r.len() == times.len(),
        forall|k: int| 0 <= k < r.len() ==> r@[k] < times.len(),
        forall|k: int| 0 <= k < r.len() ==> r@[k] as int == #[trigger] time_order(times@)[k],
        time_order(times@).len() == times.len(),
{
    let n: usize = times.len();
    let mut keys: Vec<u128> = Vec::new();
    let mut i: usize = 0;
    while i < n
        invariant
            n == times.len(),
            0 <= i <= n,
            keys@ == time_keys(times@).take(i as int),
        decreases n - i,
    {
        let key: u128 = times[i] as u128 * 0x1_0000_0000_0000_0000u128 + i as u128;
        keys.push(key);
        i = i + 1;
        assert(keys@ =~= time_keys(times@).take(i as int));
    }
    assert(keys@ =~= time_keys(times@));
    let sorted = sort_keys(keys.as_slice());
    proof {
        time_keys(times@).lemma_sort_by_ensures(|a: u128, b: u128| key_le(a, b));
        assert(sorted@.len() == n) by {
            assert(sorted@.to_multiset().len() == time_keys(times@).to_multiset().len());
        }
    }
    let mut r: Vec<usize> = Vec::new();
    let mut k: usize = 0;
    while k < sorted.len()
        invariant
            n == times.len(),
            sorted@ == sorted_keys(time_keys(times@)),
            sorted@.len() == n,
            sorted@.to_multiset() == time_keys(times@).to_multiset(),
            0 <= k <= sorted.len(),
            r.len() == k,
            forall|q: int| 0 <= q < k ==> r@[q] < n,
            forall|q: int| 0 <= q < k ==> r@[q] as int == sorted@[q] % 0x1_0000_0000_0000_0000,
        decreases sorted.len() - k,
    {
        let key = sorted[k];
        proof {
            assert(sorted@.contains(key));
            assert(time_keys(times@).to_multiset().count(key) > 0);
            assert(time_keys(times@).contains(key));
            let j = choose|j: int| 0 <= j < n && time_keys(times@)[j] == key;
            assert(key % 0x1_0000_0000_0000_0000 == j);
        }
        let idx: usize = (key % 0x1_0000_0000_0000_0000u128) as usize;
        r.push(idx);
        k = k + 1;
    }
    r
}

proof fn lemma_key_split(t1: u64, i1: int, t2: u64, i2: int)
    requires
        0 <= i1 < 0x1_0000_0000_0000_0000,
        0 <= i2 < 0x1_0000_0000_0000_0000,
        t1 * 0x1_0000_0000_0000_0000 + i1 <= t2 * 0x1_0000_0000_0000_0000 + i2,
    ensures
        t1 <= t2,
        t1 == t2 ==> i1 <= i2,
{
    let m: int = 0x1_0000_0000_0000_0000;
    if t1 > t2 {
        assert((t1 - t2) * m >= m) by (nonlinear_arith)
            requires
                t1 - t2 >= 1,
                m > 0;
        assert(t1 * m - t2 * m == (t1 - t2) * m) by (nonlinear_arith);
    }
}

/// Ordering by time is a stable sort: the positions come each exactly once,
/// their times ascend, and positions with equal times keep their order.
pub proof fn lemma_time_order(times: Seq<u64>)
    requires
        times.len() <= usize::MAX,
    ensures
        time_order(times).len() == times.len(),
        forall|k: int| 0 <= k < times.len() ==> 0 <= #[trigger] time_order(times)[k] < times.len(),
        forall|a: int, b: int| 0 <= a < times.len() && 0 <= b < times.len() && a != b
            ==> time_order(times)[a] != time_order(times)[b],
        forall|a: int, b: int| 0 <= a < b < times.len()
            ==> times[time_order(times)[a]] <= times[time_order(times)[b]],
        forall|a: int, b: int| 0 <= a < b < times.len() && times[time_order(times)[a]] == times[time_order(times)[b]]
            ==> time_order(times)[a] < time_order(times)[b],
{
    let m: int = 0x1_0000_0000_0000_0000;
    let n = times.len();
    let keys = time_keys(times);
    let sorted = sorted_keys(keys);
    let order = time_order(times);
    lemma_sorted_keys(keys);
    assert forall|j: int| 0 <= j < n implies (#[trigger] keys[j]) as int == times[j] * m + j by {
        assert(times[j] * m + j < 0x1_0000_0000_0000_0000_0000_0000_0000_0000) by (nonlinear_arith)
            requires
                times[j] < m,
                0 <= j < m,
                m == 0x1_0000_0000_0000_0000;
    }
    assert forall|k: int| 0 <= k < n implies exists|j: int| 0 <= j < n && #[trigger] keys[j] == #[trigger] sorted[k] by {
        assert(sorted.contains(sorted[k]));
        assert(sorted.to_multiset().count(sorted[k]) > 0);
        assert(keys.contains(sorted[k]));
    }
    assert forall|k: int| 0 <= k < n implies 0 <= #[trigger] order[k] < n && keys[order[k]] == sorted[k] by {
        let j = choose|j: int| 0 <= j < n && #[trigger] keys[j] == sorted[k];
        assert((times[j] * m + j) % m == j) by (nonlinear_arith)
            requires
                0 <= j < m,
                m > 0;
        assert(order[k] == sorted[k] % 0x1_0000_0000_0000_0000);
    }
    assert forall|a: int, b: int| 0 <= a < n && 0 <= b < n && a != b implies order[a] != order[b] by {
        assert(keys.no_duplicates()) by {
            assert forall|x: int, y: int| 0 <= x < n && 0 <= y < n && x != y implies keys[x] != keys[y] by {
                if keys[x] == keys[y] {
                    lemma_key_split(times[x], x, times[y], y);
                    lemma_key_split(times[y], y, times[x], x);
                }
            }
        }
        keys.lemma_multiset_has_no_duplicates();
        sorted.lemma_multiset_has_no_duplicates_conv();
        if order[a] == order[b] {
            assert(sorted[a] == sorted[b]);
        }
    }
    assert forall|a: int, b: int| 0 <= a < b < n implies times[order[a]] <= times[order[b]]
        && (times[order[a]] == times[order[b]] ==> order[a] <= order[b]) by {
        assert(sorted[a] <= sorted[b]);
        assert(keys[order[a]] == sorted[a]);
        assert(keys[order[b]] == sorted[b]);
        lemma_key_split(times[order[a]], order[a], times[order[b]], order[b]);
    }
}

} // verus!
