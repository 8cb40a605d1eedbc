//! Statistics over trace events: latency ranges and their counts, the
//! latency values of each group, size distributions and request
//! continuity.
//!
//! Latencies are signed nanoseconds and thresholds unsigned nanoseconds;
//! the text of each threshold, as the user gave it, names the ranges.

use vstd::prelude::*;
use crate::text::{string_push, string_push_str, str_eq, concat2};
use vstd::string::StrSliceExecFns;
use crate::threshold::{threshold_ns_spec, parse_time_to_ns};

verus! {

/// The decimal digit `d` as a character.
pub open spec fn digit_char(d: int) -> char {
    if d == 0 {
        '0'
    } else if d == 1 {
        '1'
    } else if d == 2 {
        '2'
    } else if d == 3 {
        '3'
    } else if d == 4 {
        '4'
    } else if d == 5 {
        '5'
    } else if d == 6 {
        '6'
    } else if d == 7 {
        '7'
    } else if d == 8 {
        '8'
    } else {
        '9'
    }
}

/// The decimal text of `n`.
pub open spec fn dec_text(n: nat) -> Seq<char>
    decreases n,
{
    if n < 10 {
        seq![digit_char(n as int)]
    } else {
        dec_text(n / 10).push(digit_char((n % 10) as int))
    }
}

/// The decimal text of `n` with at least two digits.
pub open spec fn pad2_text(n: nat) -> Seq<char> {
    if n < 10 {
        seq!['0', digit_char(n as int)]
    } else {
        dec_text(n)
    }
}

fn digit(d: usize) -> (c: char)
    requires
        d < 10,
    ensures
        c == digit_char(d as int),
{
    if d == 0 {
        '0'
    } else if d == 1 {
        '1'
    } else if d == 2 {
        '2'
    } else if d == 3 {
        '3'
    } else if d == 4 {
        '4'
    } else if d == 5 {
        '5'
    } else if d == 6 {
        '6'
    } else if d == 7 {
        '7'
    } else if d == 8 {
        '8'
    } else {
        '9'
    }
}

/// The decimal text of `n`.
pub fn dec_string(n: usize) -> (r: String)
    ensures
        r@ == dec_text(n as nat),
    decreases n,
{
    if n < 10 {
        let mut s = String::new();
        string_push(&mut s, digit(n));
        s
    } else {
        let mut s = dec_string(n / 10);
        string_push(&mut s, digit(n % 10));
        s
    }
}

/// The decimal text of `n` with at least two digits, as `{:02}` writes it.
pub fn pad2_string(n: usize) -> (r: String)
    ensures
        r@ == pad2_text(n as nat),
{
    if n < 10 {
        let mut s = String::new();
        string_push(&mut s, '0');
        string_push(&mut s, digit(n));
        s
    } else {
        dec_string(n)
    }
}

/// The name of the range of all latencies when there is no threshold.
pub open spec fn whole_key() -> Seq<char> {
    "전체"@
}

/// The name of the first range, up to the first threshold.
pub open spec fn first_key(t: Seq<char>) -> Seq<char> {
    "01_≤ "@ + t
}

/// The name of the last range, above the last threshold.
pub open spec fn last_key(t: Seq<char>) -> Seq<char> {
    "99_> "@ + t
}

/// The name of the range between thresholds `i` and `i + 1`.
pub open spec fn mid_key(i: nat, a: Seq<char>, b: Seq<char>) -> Seq<char> {
    pad2_text(i + 2) + "_"@ + a + " < v ≤ "@ + b
}

/// The first `i` at or after `from` with `tv[i] < lat <= tv[i + 1]`, or -1.
pub open spec fn first_between(lat: int, tv: Seq<u128>, from: int) -> int
    decreases tv.len() - from,
{
    if from < 0 || from + 1 >= tv.len() {
        -1
    } else if tv[from] < lat && lat <= tv[from + 1] {
        from
    } else {
        first_between(lat, tv, from + 1)
    }
}

/// The name of the range of latency `lat` for thresholds `tv` written `th`;
/// empty when no range between two thresholds holds it.
pub open spec fn range_key_spec(lat: int, tv: Seq<u128>, th: Seq<Seq<char>>) -> Seq<char> {
    if tv.len() == 0 {
        whole_key()
    } else if lat <= tv[0] {
        first_key(th[0])
    } else if lat > tv.last() {
        last_key(th.last())
    } else {
        let i = first_between(lat, tv, 0);
        if i >= 0 {
            mid_key(i as nat, th[i], th[i + 1])
        } else {
            Seq::empty()
        }
    }
}

/// The names of all ranges for thresholds written `th`, in order.
pub open spec fn range_keys_spec(th: Seq<Seq<char>>) -> Seq<Seq<char>> {
    if th.len() == 0 {
        seq![whole_key()]
    } else {
        Seq::new(th.len() + 1, |m: int|
            if m == 0 {
                first_key(th[0])
            } else if m == th.len() {
                last_key(th.last())
            } else {
                mid_key((m - 1) as nat, th[m - 1], th[m])
            })
    }
}

/// `a <= b` across the two integer types.
fn le_iu(a: i128, b: u128) -> (r: bool)
    ensures
        r == (a as int <= b as int),
{
    if a < 0 {
        true
    } else {
        (a as u128) <= b
    }
}

/// The text `pad2(i + 2) + "_" + a + " < v ≤ " + b`.
fn mid_key_string(i: usize, a: &str, b: &str) -> (r: String)
    requires
        i + 2 <= usize::MAX,
    ensures
        r@ == mid_key(i as nat, a@, b@),
{
    let mut s = pad2_string(i + 2);
    string_push_str(&mut s, "_");
    string_push_str(&mut s, a);
    string_push_str(&mut s, " < v ≤ ");
    string_push_str(&mut s, b);
    s
}

/// The name of the range that holds `latency`.
pub fn create_range_key(latency: i128, threshold_values: &Vec<u128>, thresholds: &Vec<String>) -> (r: String)
    requires
        threshold_values.len() <= thresholds.len(),
    ensures
        r@ == range_key_spec(latency as int, threshold_values@, thresholds.deep_view()),
{
    let ghost th = thresholds.deep_view();
    let n = threshold_values.len();
    if n == 0 {
        return "전체".to_owned();
    }
    if le_iu(latency, threshold_values[0]) {
        return concat2("01_≤ ", thresholds[0].as_str());
    }
    if !le_iu(latency, threshold_values[n - 1]) {
        return concat2("99_> ", thresholds[thresholds.len() - 1].as_str());
    }
    let mut i: usize = 0;
    while i + 1 < n
        invariant
            n == threshold_values.len(),
            n <= thresholds.len(),
            th == thresholds.deep_view(),
            0 <= i < n,
            latency as int > threshold_values@[0],
            latency as int <= threshold_values@[n - 1],
            first_between(latency as int, threshold_values@, 0) == first_between(latency as int, threshold_values@, i as int),
        decreases n - i,
    {
        if !le_iu(latency, threshold_values[i]) && le_iu(latency, threshold_values[i + 1]) {
            assert(first_between(latency as int, threshold_values@, i as int) == i as int);
            assert(th[i as int] == thresholds@[i as int]@);
            assert(th[i + 1] == thresholds@[i + 1]@);
            return mid_key_string(i, thresholds[i].as_str(), thresholds[i + 1].as_str());
        }
        i = i + 1;
    }
    String::new()
}

/// The names of all ranges, each with a count of 0.
pub fn initialize_ranges(thresholds: &Vec<String>) -> (r: Vec<(String, usize)>)
    ensures
        r.len() == range_keys_spec(thresholds.deep_view()).len(),
        forall|m: int| 0 <= m < r.len() ==> (#[trigger] r@[m]).0@ == range_keys_spec(thresholds.deep_view())[m] && r@[m].1 == 0,
{
    let ghost th = thresholds.deep_view();
    let ghost keys = range_keys_spec(th);
    let mut r: Vec<(String, usize)> = Vec::new();
    let n = thresholds.len();
    if n == 0 {
        r.push(("전체".to_owned(), 0));
        return r;
    }
    r.push((concat2("01_≤ ", thresholds[0].as_str()), 0));
    let mut i: usize = 0;
    while i + 1 < n
        invariant
            n == thresholds.len(),
            n > 0,
            th == thresholds.deep_view(),
            keys == range_keys_spec(th),
            keys.len() == n + 1,
            0 <= i < n,
            r.len() == i + 1,
            forall|m: int| 0 <= m < r.len() ==> (#[trigger] r@[m]).0@ == keys[m] && r@[m].1 == 0,
        decreases n - i,
    {
        let k = mid_key_string(i, thresholds[i].as_str(), thresholds[i + 1].as_str());
        r.push((k, 0));
        i = i + 1;
    }
    r.push((concat2("99_> ", thresholds[n - 1].as_str()), 0));
    r
}

/// The position of the first entry of `s` equal to `x`, or -1.
pub open spec fn text_index(s: Seq<Seq<char>>, x: Seq<char>) -> int
    decreases s.len(),
{
    if s.len() == 0 {
        -1
    } else if s[0] == x {
        0
    } else {
        let r = text_index(s.drop_first(), x);
        if r < 0 {
            -1
        } else {
            r + 1
        }
    }
}

pub proof fn lemma_text_index_at(s: Seq<Seq<char>>, x: Seq<char>, i: int)
    requires
        0 <= i <= s.len(),
        forall|j: int| 0 <= j < i ==> s[j] != x,
        i < s.len() ==> s[i] == x,
    ensures
        text_index(s, x) == (if i < s.len() { i } else { -1 }),
    decreases s.len(),
{
    if s.len() > 0 && i > 0 {
        lemma_text_index_at(s.drop_first(), x, i - 1);
    }
}

pub proof fn lemma_text_index(s: Seq<Seq<char>>, x: Seq<char>)
    ensures
        -1 <= text_index(s, x) < s.len(),
        text_index(s, x) >= 0 ==> s[text_index(s, x)] == x,
        text_index(s, x) < 0 ==> forall|j: int| 0 <= j < s.len() ==> s[j] != x,
    decreases s.len(),
{
    if s.len() > 0 && s[0] != x {
        lemma_text_index(s.drop_first(), x);
        if text_index(s, x) < 0 {
            assert forall|j: int| 0 <= j < s.len() implies s[j] != x by {
                if j > 0 {
                    assert(s[j] == s.drop_first()[j - 1]);
                }
            }
        }
    }
}

/// The position of the first text of `s` equal to `x`.
pub fn find_text(s: &Vec<String>, x: &str) -> (r: Option<usize>)
    ensures
        match r {
            Some(i) => i < s.len() && text_index(s.deep_view(), x@) == i as int,
            None => text_index(s.deep_view(), x@) == -1,
        },
{
    let ghost v = s.deep_view();
    let mut i: usize = 0;
    while i < s.len()
        invariant
            v == s.deep_view(),
            0 <= i <= s.len(),
            forall|j: int| 0 <= j < i ==> v[j] != x@,
        decreases s.len() - i,
    {
        if str_eq(s[i].as_str(), x) {
            proof {
                lemma_text_index_at(v, x@, i as int);
            }
            return Some(i);
        }
        i = i + 1;
    }
    proof {
        lemma_text_index_at(v, x@, i as int);
    }
    None
}

proof fn lemma_first_between_found(lat: int, tv: Seq<u128>, from: int)
    requires
        0 <= from,
        from + 1 < tv.len(),
        tv[from] < lat,
        lat <= tv.last(),
    ensures
        from <= first_between(lat, tv, from) < tv.len() - 1,
    decreases tv.len() - from,
{
    if !(lat <= tv[from + 1]) {
        lemma_first_between_found(lat, tv, from + 1);
    }
}

proof fn lemma_first_between_bound(lat: int, tv: Seq<u128>, from: int)
    ensures
        first_between(lat, tv, from) >= 0 ==> from <= first_between(lat, tv, from) < tv.len() - 1,
    decreases tv.len() - from,
{
    if from >= 0 && from + 1 < tv.len() && !(tv[from] < lat && lat <= tv[from + 1]) {
        lemma_first_between_bound(lat, tv, from + 1);
    }
}

/// The name of the range of a latency is one of the names that
/// `initialize_ranges` lists, whenever there is a value for each threshold
/// (in any order: some pair of neighbouring thresholds holds a latency that
/// lies above the first and at most the last).
pub proof fn lemma_range_key_listed(lat: int, tv: Seq<u128>, th: Seq<Seq<char>>)
    requires
        tv.len() == th.len(),
    ensures
        range_keys_spec(th).contains(range_key_spec(lat, tv, th)),
{
    let keys = range_keys_spec(th);
    let key = range_key_spec(lat, tv, th);
    if tv.len() == 0 {
        assert(keys[0] == key);
    } else if lat <= tv[0] {
        assert(keys[0] == key);
    } else if lat > tv.last() {
        assert(keys[th.len() as int] == key);
    } else {
        lemma_first_between_found(lat, tv, 0);
        let i = first_between(lat, tv, 0);
        assert(keys[i + 1] == key);
    }
}

proof fn lemma_first_between_at(lat: int, tv: Seq<u128>, from: int, i: int)
    requires
        0 <= from <= i,
        i + 1 < tv.len(),
        forall|a: int, b: int| 0 <= a < b < tv.len() ==> tv[a] < tv[b],
        tv[i] < lat <= tv[i + 1],
    ensures
        first_between(lat, tv, from) == i,
    decreases i - from,
{
    if from < i {
        assert(tv[from + 1] <= tv[i]);
        lemma_first_between_at(lat, tv, from + 1, i);
    }
}

/// With thresholds in increasing order, the range of a latency is named as
/// its bounds say: the whole range when there are no thresholds, the first
/// range up to the first threshold, the last range above the last one, and
/// otherwise `pad2(i + 2) + "_" + th[i] + " < v ≤ " + th[i + 1]` for the one
/// `i` with `tv[i] < latency <= tv[i + 1]`; in each case the name is one
/// of the names `initialize_ranges` lists (`range_keys_spec`).
pub proof fn lemma_range_key_names(lat: int, tv: Seq<u128>, th: Seq<Seq<char>>, i: int)
    requires
        tv.len() == th.len(),
        forall|a: int, b: int| 0 <= a < b < tv.len() ==> tv[a] < tv[b],
    ensures
        tv.len() == 0 ==> range_key_spec(lat, tv, th) == "전체"@,
        tv.len() > 0 && lat <= tv[0] ==> range_key_spec(lat, tv, th) == "01_≤ "@ + th[0],
        tv.len() > 0 && lat > tv.last() ==> range_key_spec(lat, tv, th) == "99_> "@ + th.last(),
        0 <= i && i + 1 < tv.len() && tv[i] < lat <= tv[i + 1] ==>
            range_key_spec(lat, tv, th) == pad2_text((i + 2) as nat) + "_"@ + th[i] + " < v ≤ "@ + th[i + 1],
        range_keys_spec(th).contains(range_key_spec(lat, tv, th)),
{
    lemma_range_key_listed(lat, tv, th);
    if 0 <= i && i + 1 < tv.len() && tv[i] < lat <= tv[i + 1] {
        assert(tv[0] <= tv[i]);
        assert(tv[i + 1] <= tv.last());
        lemma_first_between_at(lat, tv, 0, i);
    }
}

/// The first appearances of the texts of `s`, in order.
pub open spec fn distinct_texts(s: Seq<Seq<char>>) -> Seq<Seq<char>>
    decreases s.len(),
{
    if s.len() == 0 {
        Seq::empty()
    } else {
        let p = distinct_texts(s.drop_last());
        if p.contains(s.last()) {
            p
        } else {
            p.push(s.last())
        }
    }
}

/// No text appears twice.
pub open spec fn texts_unique(s: Seq<Seq<char>>) -> bool {
    forall|i: int, j: int| 0 <= i < s.len() && 0 <= j < s.len() && i != j ==> s[i] != s[j]
}

/// The texts of `v` without repeats, in order of first appearance.
pub fn distinct_strings(v: &Vec<String>) -> (r: Vec<String>)
    ensures
        r.deep_view() == distinct_texts(v.deep_view()),
        texts_unique(r.deep_view()),
{
    let ghost vv = v.deep_view();
    let mut r: Vec<String> = Vec::new();
    let mut i: usize = 0;
    while i < v.len()
        invariant
            vv == v.deep_view(),
            0 <= i <= v.len(),
            r.deep_view() == distinct_texts(vv.take(i as int)),
            texts_unique(r.deep_view()),
        decreases v.len() - i,
    {
        assert(vv.take(i + 1).drop_last() =~= vv.take(i as int));
        assert(vv.take(i + 1).last() == vv[i as int]);
        match find_text(&r, v[i].as_str()) {
            Some(k) => {
                proof {
                    lemma_text_index(r.deep_view(), vv[i as int]);
                }
            },
            None => {
                proof {
                    lemma_text_index(r.deep_view(), vv[i as int]);
                }
                let ghost before = r.deep_view();
                r.push(v[i].clone());
                assert(r.deep_view() =~= before.push(vv[i as int]));
            },
        }
        i = i + 1;
    }
    assert(vv.take(i as int) =~= vv);
    r
}

/// The values of the entries of `s` in group `k`, in order.
pub open spec fn values_in<V>(s: Seq<(Seq<char>, V)>, k: Seq<char>) -> Seq<V>
    decreases s.len(),
{
    if s.len() == 0 {
        Seq::empty()
    } else {
        let p = values_in(s.drop_last(), k);
        if s.last().0 == k {
            p.push(s.last().1)
        } else {
            p
        }
    }
}

/// The latency values of each group, in order.
pub fn group_values(keys: &Vec<String>, items: &Vec<(String, i128)>) -> (r: Vec<(String, Vec<i128>)>)
    ensures
        r.len() == keys.len(),
        forall|j: int| 0 <= j < r.len() ==> (#[trigger] r@[j]).0@ == keys@[j]@
            && r@[j].1@ == values_in(items.deep_view(), keys@[j]@),
{
    let ghost s = items.deep_view();
    let mut r: Vec<(String, Vec<i128>)> = Vec::new();
    let mut j: usize = 0;
    while j < keys.len()
        invariant
            s == items.deep_view(),
            0 <= j <= keys.len(),
            r.len() == j,
            forall|q: int| 0 <= q < j ==> (#[trigger] r@[q]).0@ == keys@[q]@ && r@[q].1@ == values_in(s, keys@[q]@),
        decreases keys.len() - j,
    {
        let ghost k = keys@[j as int]@;
        let mut vals: Vec<i128> = Vec::new();
        let mut i: usize = 0;
        while i < items.len()
            invariant
                s == items.deep_view(),
                k == keys@[j as int]@,
                0 <= j < keys.len(),
                0 <= i <= items.len(),
                vals@ == values_in(s.take(i as int), k),
            decreases items.len() - i,
        {
            assert(s.take(i + 1).drop_last() =~= s.take(i as int));
            assert(s[i as int].0 == items@[i as int].0@);
            if str_eq(items[i].0.as_str(), keys[j].as_str()) {
                vals.push(items[i].1);
            }
            i = i + 1;
        }
        assert(s.take(i as int) =~= s);
        r.push((keys[j].clone(), vals));
        j = j + 1;
    }
    r
}

/// The count of the entries of `s` in group `k` whose range name first
/// appears in `keys` at position `m` (-1: it does not appear).
pub open spec fn range_count(
    s: Seq<(Seq<char>, i128)>,
    k: Seq<char>,
    keys: Seq<Seq<char>>,
    m: int,
    tv: Seq<u128>,
    th: Seq<Seq<char>>,
) -> nat
    decreases s.len(),
{
    if s.len() == 0 {
        0
    } else {
        range_count(s.drop_last(), k, keys, m, tv, th) + (if s.last().0 == k
            && text_index(keys, range_key_spec(s.last().1 as int, tv, th)) == m { 1nat } else { 0nat })
    }
}

/// `row` counts the latencies of group `k` in each range.
pub open spec fn range_row_fits(
    row: Seq<(String, usize)>,
    s: Seq<(Seq<char>, i128)>,
    k: Seq<char>,
    tv: Seq<u128>,
    th: Seq<Seq<char>>,
) -> bool {
    let keys = range_keys_spec(th);
    &&& row.len() == keys.len()
    &&& forall|m: int| 0 <= m < keys.len() ==> (#[trigger] row[m]).0@ == keys[m]
        && row[m].1 == range_count(s, k, keys, m, tv, th)
}

/// For each group of `keys`, the count of its latencies in each range.
pub fn latency_counts(
    keys: &Vec<String>,
    items: &Vec<(String, i128)>,
    threshold_values: &Vec<u128>,
    thresholds: &Vec<String>,
) -> (r: Vec<(String, Vec<(String, usize)>)>)
    requires
        threshold_values.len() <= thresholds.len(),
    ensures
        r.len() == keys.len(),
        forall|j: int| 0 <= j < r.len() ==> (#[trigger] r@[j]).0@ == keys@[j]@
            && range_row_fits(r@[j].1@, items.deep_view(), keys@[j]@, threshold_values@, thresholds.deep_view()),
{
    let ghost s = items.deep_view();
    let ghost tv = threshold_values@;
    let ghost th = thresholds.deep_view();
    let ranges = initialize_ranges(thresholds);
    let ghost rk = range_keys_spec(th);
    let mut names: Vec<String> = Vec::new();
    let mut q: usize = 0;
    while q < ranges.len()
        invariant
            rk == range_keys_spec(th),
            ranges.len() == rk.len(),
            forall|m: int| 0 <= m < ranges.len() ==> (#[trigger] ranges@[m]).0@ == rk[m],
            0 <= q <= ranges.len(),
            names.deep_view() == rk.take(q as int),
        decreases ranges.len() - q,
    {
        let ghost before = names.deep_view();
        names.push(ranges[q].0.clone());
        assert(names.deep_view() =~= before.push(rk[q as int]));
        assert(rk.take(q + 1) =~= rk.take(q as int).push(rk[q as int]));
        q = q + 1;
    }
    assert(rk.take(q as int) =~= rk);
    let mut buckets: Vec<Option<usize>> = Vec::new();
    let mut i: usize = 0;
    while i < items.len()
        invariant
            s == items.deep_view(),
            tv == threshold_values@,
            th == thresholds.deep_view(),
            threshold_values.len() <= thresholds.len(),
            names.deep_view() == rk,
            0 <= i <= items.len(),
            buckets.len() == i,
            forall|p: int| 0 <= p < i ==> match #[trigger] buckets@[p] {
                Some(m) => m < rk.len() && text_index(rk, range_key_spec(s[p].1 as int, tv, th)) == m as int,
                None => text_index(rk, range_key_spec(s[p].1 as int, tv, th)) == -1,
            },
        decreases items.len() - i,
    {
        let key = create_range_key(items[i].1, threshold_values, thresholds);
        buckets.push(find_text(&names, key.as_str()));
        i = i + 1;
    }
    let mut r: Vec<(String, Vec<(String, usize)>)> = Vec::new();
    let mut j: usize = 0;
    while j < keys.len()
        invariant
            s == items.deep_view(),
            tv == threshold_values@,
            th == thresholds.deep_view(),
            names.deep_view() == rk,
            rk == range_keys_spec(th),
            buckets.len() == items.len(),
            forall|p: int| 0 <= p < items.len() ==> match #[trigger] buckets@[p] {
                Some(m) => m < rk.len() && text_index(rk, range_key_spec(s[p].1 as int, tv, th)) == m as int,
                None => text_index(rk, range_key_spec(s[p].1 as int, tv, th)) == -1,
            },
            0 <= j <= keys.len(),
            r.len() == j,
            forall|q: int| 0 <= q < j ==> (#[trigger] r@[q]).0@ == keys@[q]@
                && range_row_fits(r@[q].1@, s, keys@[q]@, tv, th),
        decreases keys.len() - j,
    {
        let ghost k = keys@[j as int]@;
        let mut counts: Vec<usize> = Vec::new();
        let mut m: usize = 0;
        while m < names.len()
            invariant
                0 <= m <= names.len(),
                counts.len() == m,
                forall|p: int| 0 <= p < m ==> counts@[p] == 0,
            decreases names.len() - m,
        {
            counts.push(0);
            m = m + 1;
        }
        let mut i: usize = 0;
        while i < items.len()
            invariant
                s == items.deep_view(),
                tv == threshold_values@,
                th == thresholds.deep_view(),
                names.deep_view() == rk,
                k == keys@[j as int]@,
                0 <= j < keys.len(),
                buckets.len() == items.len(),
                forall|p: int| 0 <= p < items.len() ==> match #[trigger] buckets@[p] {
                    Some(m) => m < rk.len() && text_index(rk, range_key_spec(s[p].1 as int, tv, th)) == m as int,
                    None => text_index(rk, range_key_spec(s[p].1 as int, tv, th)) == -1,
                },
                0 <= i <= items.len(),
                counts.len() == rk.len(),
                forall|p: int| 0 <= p < rk.len() ==> #[trigger] counts@[p] == range_count(s.take(i as int), k, rk, p, tv, th),
                forall|p: int| 0 <= p < rk.len() ==> #[trigger] counts@[p] <= i,
            decreases items.len() - i,
        {
            assert(s.take(i + 1).drop_last() =~= s.take(i as int));
            assert(s.take(i + 1).last() == s[i as int]);
            assert(s[i as int].0 == items@[i as int].0@);
            let hit = str_eq(items[i].0.as_str(), keys[j].as_str());
            let b = buckets[i];
            if hit {
                match b {
                    Some(m) => {
                        let c = counts[m];
                        counts.set(m, c + 1);
                    },
                    None => {},
                }
            }
            i = i + 1;
        }
        assert(s.take(i as int) =~= s);
        let mut row: Vec<(String, usize)> = Vec::new();
        let mut m: usize = 0;
        while m < names.len()
            invariant
                names.deep_view() == rk,
                counts.len() == rk.len(),
                0 <= m <= names.len(),
                row.len() == m,
                forall|p: int| 0 <= p < m ==> (#[trigger] row@[p]).0@ == rk[p] && row@[p].1 == counts@[p],
            decreases names.len() - m,
        {
            row.push((names[m].clone(), counts[m]));
            m = m + 1;
        }
        r.push((keys[j].clone(), row));
        j = j + 1;
    }
    r
}

/// The first appearances of the values of `s`, in order.
pub open spec fn distinct_sizes(s: Seq<u32>) -> Seq<u32>
    decreases s.len(),
{
    if s.len() == 0 {
        Seq::empty()
    } else {
        let p = distinct_sizes(s.drop_last());
        if p.contains(s.last()) {
            p
        } else {
            p.push(s.last())
        }
    }
}

/// The number of times `z` occurs in `s`.
pub open spec fn occurrences(s: Seq<u32>, z: u32) -> nat
    decreases s.len(),
{
    if s.len() == 0 {
        0
    } else {
        occurrences(s.drop_last(), z) + (if s.last() == z { 1nat } else { 0nat })
    }
}

/// The size distribution of each group and the number of requests in it.
pub struct SizeStats {
    /// For each group, each size with its count, sizes in order of first appearance.
    pub opcode_stats: Vec<(String, Vec<(u32, usize)>)>,
    pub total_counts: Vec<(String, usize)>,
}

/// `r` is the size distribution of the groups `keys` over the entries `s`.
pub open spec fn size_stats_fit(r: SizeStats, keys: Seq<Seq<char>>, s: Seq<(Seq<char>, u32)>) -> bool {
    &&& r.opcode_stats.len() == keys.len()
    &&& r.total_counts.len() == keys.len()
    &&& forall|j: int| 0 <= j < keys.len() ==> {
        let vs = values_in(s, keys[j]);
        let row = (#[trigger] r.opcode_stats@[j]).1@;
        &&& r.opcode_stats@[j].0@ == keys[j]
        &&& r.total_counts@[j].0@ == keys[j]
        &&& r.total_counts@[j].1 == vs.len()
        &&& row.len() == distinct_sizes(vs).len()
        &&& forall|p: int| 0 <= p < row.len() ==> (#[trigger] row[p]).0 == distinct_sizes(vs)[p]
            && row[p].1 == occurrences(vs, row[p].0)
    }
}

proof fn lemma_occurrences_bound(s: Seq<u32>, z: u32)
    ensures
        occurrences(s, z) <= s.len(),
    decreases s.len(),
{
    if s.len() > 0 {
        lemma_occurrences_bound(s.drop_last(), z);
    }
}

pub proof fn lemma_contains_last<A>(s: Seq<A>, z: A)
    requires
        s.len() > 0,
    ensures
        s.contains(z) <==> (s.drop_last().contains(z) || s.last() == z),
{
    if s.contains(z) && s.last() != z {
        let i = choose|i: int| 0 <= i < s.len() && s[i] == z;
        assert(i != s.len() - 1);
        assert(s.drop_last()[i] == z);
    }
    if s.drop_last().contains(z) {
        let i = choose|i: int| 0 <= i < s.drop_last().len() && s.drop_last()[i] == z;
        assert(s[i] == z);
    }
    if s.last() == z {
        assert(s[s.len() - 1] == z);
    }
}

proof fn lemma_distinct_sizes_unique(s: Seq<u32>)
    ensures
        forall|a: int, b: int| 0 <= a < b < distinct_sizes(s).len() ==> distinct_sizes(s)[a] != distinct_sizes(s)[b],
        forall|z: u32| distinct_sizes(s).contains(z) <==> s.contains(z),
    decreases s.len(),
{
    if s.len() > 0 {
        lemma_distinct_sizes_unique(s.drop_last());
        let p = distinct_sizes(s.drop_last());
        assert forall|z: u32| distinct_sizes(s).contains(z) <==> s.contains(z) by {
            lemma_contains_last(s, z);
            if !p.contains(s.last()) {
                lemma_contains_last(p.push(s.last()), z);
                assert(p.push(s.last()).drop_last() =~= p);
            }
        }
        if !p.contains(s.last()) {
            assert forall|a: int, b: int| 0 <= a < b < distinct_sizes(s).len() implies distinct_sizes(s)[a] != distinct_sizes(s)[b] by {
                if b == p.len() {
                    assert(distinct_sizes(s)[a] == p[a]);
                }
            }
        }
    }
}

/// Counts each value of `vs`, values in order of first appearance.
fn size_row(vs: &Vec<u32>) -> (row: Vec<(u32, usize)>)
    ensures
        row.len() == distinct_sizes(vs@).len(),
        forall|p: int| 0 <= p < row.len() ==> (#[trigger] row@[p]).0 == distinct_sizes(vs@)[p]
            && row@[p].1 == occurrences(vs@, row@[p].0),
{
    let mut row: Vec<(u32, usize)> = Vec::new();
    let mut i: usize = 0;
    while i < vs.len()
        invariant
            0 <= i <= vs.len(),
            row.len() == distinct_sizes(vs@.take(i as int)).len(),
            forall|p: int| 0 <= p < row.len() ==> (#[trigger] row@[p]).0 == distinct_sizes(vs@.take(i as int))[p]
                && row@[p].1 == occurrences(vs@.take(i as int), row@[p].0),
        decreases vs.len() - i,
    {
        let ghost t = vs@.take(i as int);
        let ghost t1 = vs@.take(i + 1);
        assert(t1.drop_last() =~= t);
        assert(t1.last() == vs@[i as int]);
        proof {
            lemma_distinct_sizes_unique(t);
            lemma_occurrences_bound(t, vs@[i as int]);
        }
        let z = vs[i];
        let mut k: usize = 0;
        let mut found: bool = false;
        while k < row.len() && !found
            invariant
                0 <= k <= row.len(),
                found ==> k < row.len() && row@[k as int].0 == z,
                !found ==> forall|q: int| 0 <= q < k ==> (#[trigger] row@[q]).0 != z,
                row.len() == distinct_sizes(t).len(),
                forall|p: int| 0 <= p < row.len() ==> (#[trigger] row@[p]).0 == distinct_sizes(t)[p]
                    && row@[p].1 == occurrences(t, row@[p].0),
            decreases row.len() - k + (if found { 0int } else { 1int }),
        {
            if row[k].0 == z {
                found = true;
            } else {
                k = k + 1;
            }
        }
        if found {
            assert(row@[k as int].0 == z);
            assert(distinct_sizes(t).contains(z));
            let c = row[k].1;
            assert(c <= i);
            let ghost before = row@;
            row.set(k, (z, c + 1));
            assert forall|p: int| 0 <= p < row.len() implies (#[trigger] row@[p]).0 == distinct_sizes(t1)[p]
                && row@[p].1 == occurrences(t1, row@[p].0) by {
                if p != k {
                    assert(row@[p] == before[p]);
                    assert(before[p].0 != z);
                }
            }
        } else {
            assert(!distinct_sizes(t).contains(z)) by {
                if distinct_sizes(t).contains(z) {
                    let q = choose|q: int| 0 <= q < distinct_sizes(t).len() && distinct_sizes(t)[q] == z;
                    assert(row@[q].0 == z);
                }
            }
            let ghost before = row@;
            row.push((z, 1));
            assert(distinct_sizes(t1) == distinct_sizes(t).push(z));
            assert(!t.contains(z));
            assert(occurrences(t, z) == 0) by {
                lemma_occurrences_absent(t, z);
            }
            assert forall|p: int| 0 <= p < row.len() implies (#[trigger] row@[p]).0 == distinct_sizes(t1)[p]
                && row@[p].1 == occurrences(t1, row@[p].0) by {
                if p < before.len() {
                    assert(row@[p] == before[p]);
                    assert(before[p].0 != z);
                }
            }
        }
        i = i + 1;
    }
    assert(vs@.take(i as int) =~= vs@);
    row
}

proof fn lemma_occurrences_absent(s: Seq<u32>, z: u32)
    requires
        !s.contains(z),
    ensures
        occurrences(s, z) == 0,
    decreases s.len(),
{
    if s.len() > 0 {
        assert(s[s.len() - 1] == s.last());
        assert(!s.drop_last().contains(z)) by {
            if s.drop_last().contains(z) {
                let i = choose|i: int| 0 <= i < s.drop_last().len() && s.drop_last()[i] == z;
                assert(s[i] == z);
            }
        }
        lemma_occurrences_absent(s.drop_last(), z);
    }
}

/// The size distribution of each group of `keys` over `items`.
pub fn size_stats(keys: &Vec<String>, items: &Vec<(String, u32)>) -> (r: SizeStats)
    ensures
        size_stats_fit(r, keys.deep_view(), items.deep_view()),
{
    let ghost s = items.deep_view();
    let ghost kv = keys.deep_view();
    let mut opcode_stats: Vec<(String, Vec<(u32, usize)>)> = Vec::new();
    let mut total_counts: Vec<(String, usize)> = Vec::new();
    let mut j: usize = 0;
    while j < keys.len()
        invariant
            s == items.deep_view(),
            kv == keys.deep_view(),
            0 <= j <= keys.len(),
            opcode_stats.len() == j,
            total_counts.len() == j,
            forall|q: int| 0 <= q < j ==> {
                let vs = values_in(s, kv[q]);
                let row = (#[trigger] opcode_stats@[q]).1@;
                &&& opcode_stats@[q].0@ == kv[q]
                &&& total_counts@[q].0@ == kv[q]
                &&& total_counts@[q].1 == vs.len()
                &&& row.len() == distinct_sizes(vs).len()
                &&& forall|p: int| 0 <= p < row.len() ==> (#[trigger] row[p]).0 == distinct_sizes(vs)[p]
                    && row[p].1 == occurrences(vs, row[p].0)
            },
        decreases keys.len() - j,
    {
        let ghost k = kv[j as int];
        let mut vals: Vec<u32> = Vec::new();
        let mut i: usize = 0;
        while i < items.len()
            invariant
                s == items.deep_view(),
                kv == keys.deep_view(),
                k == kv[j as int],
                0 <= j < keys.len(),
                0 <= i <= items.len(),
                vals@ == values_in(s.take(i as int), k),
                vals.len() <= i,
            decreases items.len() - i,
        {
            assert(s.take(i + 1).drop_last() =~= s.take(i as int));
            assert(s[i as int].0 == items@[i as int].0@);
            if str_eq(items[i].0.as_str(), keys[j].as_str()) {
                vals.push(items[i].1);
            }
            i = i + 1;
        }
        assert(s.take(i as int) =~= s);
        let row = size_row(&vals);
        let n = vals.len();
        opcode_stats.push((keys[j].clone(), row));
        total_counts.push((keys[j].clone(), n));
        j = j + 1;
    }
    SizeStats { opcode_stats, total_counts }
}

/// The requests of a group and their bytes, in all and those continuing
/// the previous request.
pub struct ContinuityCount {
    pub continuous: usize,
    pub non_continuous: usize,
    pub total_bytes: u64,
    pub continuous_bytes: u64,
}

/// The requests and bytes of all groups together.
pub struct TotalContinuity {
    pub total_requests: usize,
    pub continuous_requests: usize,
    pub total_bytes: u64,
    pub continuous_bytes: u64,
}

/// Continuity of each group, groups in order of first appearance, and of
/// all requests.
pub struct ContinuityStats {
    pub op_stats: Vec<(String, ContinuityCount)>,
    pub total: TotalContinuity,
}

/// The entry is in group `k` (every entry is when `k` is `None`).
pub open spec fn in_group(e: (Seq<char>, u64, bool), k: Option<Seq<char>>) -> bool {
    match k {
        Some(g) => e.0 == g,
        None => true,
    }
}

/// The number of requests of group `k`, of continuity `c` when given.
pub open spec fn request_count(s: Seq<(Seq<char>, u64, bool)>, k: Option<Seq<char>>, c: Option<bool>) -> nat
    decreases s.len(),
{
    if s.len() == 0 {
        0
    } else {
        let e = s.last();
        request_count(s.drop_last(), k, c) + (if in_group(e, k) && (c is None || c == Some(e.2)) { 1nat } else { 0nat })
    }
}

/// The bytes of the requests of group `k` (only the continuous ones when
/// `only_continuous`).
pub open spec fn byte_sum(s: Seq<(Seq<char>, u64, bool)>, k: Option<Seq<char>>, only_continuous: bool) -> nat
    decreases s.len(),
{
    if s.len() == 0 {
        0
    } else {
        let e = s.last();
        byte_sum(s.drop_last(), k, only_continuous) + (if in_group(e, k) && (!only_continuous || e.2) { e.1 as nat } else { 0nat })
    }
}

/// The bytes of all entries, in a width no sum of them overflows.
pub fn total_bytes(items: &Vec<(String, u64, bool)>) -> (r: u128)
    ensures
        r == byte_sum(items.deep_view(), None, false),
{
    let ghost s = items.deep_view();
    let mut total: u128 = 0;
    let mut i: usize = 0;
    while i < items.len()
        invariant
            0 <= i <= items.len(),
            s == items.deep_view(),
            total == byte_sum(s.take(i as int), None, false),
            total <= i * 0xffff_ffff_ffff_ffffu128,
        decreases items.len() - i,
    {
        assert(s.take(i as int + 1).drop_last() =~= s.take(i as int));
        total = total + items[i].1 as u128;
        i = i + 1;
    }
    assert(s.take(i as int) =~= s);
    total
}

proof fn lemma_sums_bounded(s: Seq<(Seq<char>, u64, bool)>, k: Option<Seq<char>>)
    ensures
        byte_sum(s, k, true) <= byte_sum(s, k, false),
        byte_sum(s, k, false) <= byte_sum(s, None, false),
        request_count(s, k, None) <= s.len(),
        request_count(s, k, Some(true)) + request_count(s, k, Some(false)) == request_count(s, k, None),
    decreases s.len(),
{
    if s.len() > 0 {
        lemma_sums_bounded(s.drop_last(), k);
    }
}

/// The counts of `c` match group `k` of `s`.
pub open spec fn count_fits(c: ContinuityCount, s: Seq<(Seq<char>, u64, bool)>, k: Option<Seq<char>>) -> bool {
    &&& c.continuous == request_count(s, k, Some(true))
    &&& c.non_continuous == request_count(s, k, Some(false))
    &&& c.total_bytes == byte_sum(s, k, false)
    &&& c.continuous_bytes == byte_sum(s, k, true)
}

/// `r` gives the continuity of each group of `s` and of all of it.
pub open spec fn continuity_fits(r: ContinuityStats, s: Seq<(Seq<char>, u64, bool)>) -> bool {
    let keys = distinct_texts(s.map_values(|e: (Seq<char>, u64, bool)| e.0));
    &&& r.op_stats.len() == keys.len()
    &&& forall|j: int| 0 <= j < keys.len() ==> (#[trigger] r.op_stats@[j]).0@ == keys[j]
        && count_fits(r.op_stats@[j].1, s, Some(keys[j]))
    &&& r.total.total_requests == s.len()
    &&& r.total.continuous_requests == request_count(s, None, Some(true))
    &&& r.total.total_bytes == byte_sum(s, None, false)
    &&& r.total.continuous_bytes == byte_sum(s, None, true)
}

/// Continuity statistics are determined by the requests they count: two
/// results that fit the same requests (say, that of `allstats` and that of
/// `continuity_stats` on the same events) hold the same groups, in the same
/// order, with the same counts, and the same totals.
pub proof fn lemma_continuity_unique(a: ContinuityStats, b: ContinuityStats, s: Seq<(Seq<char>, u64, bool)>)
    requires
        continuity_fits(a, s),
        continuity_fits(b, s),
    ensures
        a.total == b.total,
        a.op_stats.len() == b.op_stats.len(),
        forall|j: int| 0 <= j < a.op_stats.len() ==>
            (#[trigger] a.op_stats@[j]).0@ == b.op_stats@[j].0@ && a.op_stats@[j].1 == b.op_stats@[j].1,
{
    let keys = distinct_texts(s.map_values(|e: (Seq<char>, u64, bool)| e.0));
    assert forall|j: int| 0 <= j < a.op_stats.len() implies
        (#[trigger] a.op_stats@[j]).0@ == b.op_stats@[j].0@ && a.op_stats@[j].1 == b.op_stats@[j].1 by {
        assert(a.op_stats@[j].0@ == keys[j]);
        assert(b.op_stats@[j].0@ == keys[j]);
        assert(count_fits(a.op_stats@[j].1, s, Some(keys[j])));
        assert(count_fits(b.op_stats@[j].1, s, Some(keys[j])));
    }
}

/// The continuity counts of group `k` (of all requests when `None`).
fn tally(items: &Vec<(String, u64, bool)>, k: Option<&str>) -> (c: ContinuityCount)
    requires
        byte_sum(items.deep_view(), None, false) <= u64::MAX,
    ensures
        count_fits(c, items.deep_view(), match k { Some(g) => Some(g@), None => None }),
{
    let ghost s = items.deep_view();
    let ghost kk: Option<Seq<char>> = match k { Some(g) => Some(g@), None => None };
    let mut c = ContinuityCount { continuous: 0, non_continuous: 0, total_bytes: 0, continuous_bytes: 0 };
    let mut i: usize = 0;
    while i < items.len()
        invariant
            s == items.deep_view(),
            kk == (match k { Some(g) => Some(g@), None => None::<Seq<char>> }),
            byte_sum(s, None, false) <= u64::MAX,
            0 <= i <= items.len(),
            count_fits(c, s.take(i as int), kk),
            c.continuous + c.non_continuous <= i,
        decreases items.len() - i,
    {
        let ghost t = s.take(i as int);
        let ghost t1 = s.take(i + 1);
        assert(t1.drop_last() =~= t);
        assert(t1.last() == s[i as int]);
        assert(s[i as int].0 == items@[i as int].0@);
        proof {
            lemma_sums_bounded(t1, kk);
            lemma_sums_bounded(s, None);
            lemma_byte_sum_prefix(s, i + 1);
        }
        let hit = match k {
            Some(g) => str_eq(items[i].0.as_str(), g),
            None => true,
        };
        if hit {
            let bytes = items[i].1;
            c.total_bytes = c.total_bytes + bytes;
            if items[i].2 {
                c.continuous = c.continuous + 1;
                c.continuous_bytes = c.continuous_bytes + bytes;
            } else {
                c.non_continuous = c.non_continuous + 1;
            }
        }
        i = i + 1;
    }
    assert(s.take(i as int) =~= s);
    c
}

proof fn lemma_byte_sum_prefix(s: Seq<(Seq<char>, u64, bool)>, n: int)
    requires
        0 <= n <= s.len(),
    ensures
        byte_sum(s.take(n), None, false) <= byte_sum(s, None, false),
    decreases s.len() - n,
{
    if n < s.len() {
        assert(s.take(n + 1).drop_last() =~= s.take(n));
        lemma_byte_sum_prefix(s, n + 1);
    } else {
        assert(s.take(n) =~= s);
    }
}

/// The continuity of each group of `items`, groups in order of first
/// appearance, and of all of them together.
pub fn continuity_counts(items: &Vec<(String, u64, bool)>) -> (r: ContinuityStats)
    requires
        byte_sum(items.deep_view(), None, false) <= u64::MAX,
    ensures
        continuity_fits(r, items.deep_view()),
{
    let ghost s = items.deep_view();
    let mut names: Vec<String> = Vec::new();
    let mut i: usize = 0;
    while i < items.len()
        invariant
            s == items.deep_view(),
            0 <= i <= items.len(),
            names.deep_view() == s.map_values(|e: (Seq<char>, u64, bool)| e.0).take(i as int),
        decreases items.len() - i,
    {
        let ghost before = names.deep_view();
        let name = items[i].0.clone();
        assert(name@ == s[i as int].0);
        names.push(name);
        assert(names.deep_view() =~= before.push(s[i as int].0));
        i = i + 1;
        assert(names.deep_view() =~= s.map_values(|e: (Seq<char>, u64, bool)| e.0).take(i as int));
    }
    assert(s.map_values(|e: (Seq<char>, u64, bool)| e.0).take(i as int) =~= s.map_values(|e: (Seq<char>, u64, bool)| e.0));
    let keys = distinct_strings(&names);
    let mut op_stats: Vec<(String, ContinuityCount)> = Vec::new();
    let mut j: usize = 0;
    while j < keys.len()
        invariant
            s == items.deep_view(),
            byte_sum(s, None, false) <= u64::MAX,
            keys.deep_view() == distinct_texts(s.map_values(|e: (Seq<char>, u64, bool)| e.0)),
            0 <= j <= keys.len(),
            op_stats.len() == j,
            forall|q: int| 0 <= q < j ==> (#[trigger] op_stats@[q]).0@ == keys.deep_view()[q]
                && count_fits(op_stats@[q].1, s, Some(keys.deep_view()[q])),
        decreases keys.len() - j,
    {
        let c = tally(items, Some(keys[j].as_str()));
        op_stats.push((keys[j].clone(), c));
        j = j + 1;
    }
    let all = tally(items, None);
    proof {
        lemma_sums_bounded(s, None);
        lemma_request_count_all(s);
    }
    ContinuityStats {
        op_stats,
        total: TotalContinuity {
            total_requests: items.len(),
            continuous_requests: all.continuous,
            total_bytes: all.total_bytes,
            continuous_bytes: all.continuous_bytes,
        },
    }
}

proof fn lemma_request_count_all(s: Seq<(Seq<char>, u64, bool)>)
    ensures
        request_count(s, None, None) == s.len(),
    decreases s.len(),
{
    if s.len() > 0 {
        lemma_request_count_all(s.drop_last());
    }
}

/// Every threshold parses.
pub open spec fn thresholds_ok(th: Seq<Seq<char>>) -> bool {
    forall|k: int| 0 <= k < th.len() ==> threshold_ns_spec(#[trigger] th[k]) is Ok
}

/// The thresholds in nanoseconds.
pub open spec fn threshold_values_spec(th: Seq<Seq<char>>) -> Seq<u128> {
    th.map_values(|t: Seq<char>| threshold_ns_spec(t)->Ok_0 as u128)
}

/// The error of the first threshold that does not parse.
pub open spec fn first_threshold_error(th: Seq<Seq<char>>) -> Seq<char>
    decreases th.len(),
{
    if th.len() == 0 {
        Seq::empty()
    } else if threshold_ns_spec(th[0]) is Err {
        threshold_ns_spec(th[0])->Err_0
    } else {
        first_threshold_error(th.drop_first())
    }
}

/// Parses each threshold into nanoseconds; the first error is returned.
pub fn parse_thresholds(thresholds: &Vec<String>) -> (r: Result<Vec<u128>, String>)
    ensures
        match r {
            Ok(v) => thresholds_ok(thresholds.deep_view()) && v@ == threshold_values_spec(thresholds.deep_view()),
            Err(e) => !thresholds_ok(thresholds.deep_view()) && e@ == first_threshold_error(thresholds.deep_view()),
        },
{
    let ghost th = thresholds.deep_view();
    let mut v: Vec<u128> = Vec::new();
    let mut i: usize = 0;
    assert(th.skip(0) =~= th);
    while i < thresholds.len()
        invariant
            th == thresholds.deep_view(),
            0 <= i <= thresholds.len(),
            v.len() == i,
            forall|k: int| 0 <= k < i ==> threshold_ns_spec(#[trigger] th[k]) is Ok,
            v@ == threshold_values_spec(th).take(i as int),
            first_threshold_error(th) == first_threshold_error(th.skip(i as int)),
        decreases thresholds.len() - i,
    {
        assert(th.skip(i as int)[0] == th[i as int]);
        assert(th.skip(i as int).drop_first() =~= th.skip(i + 1));
        match parse_time_to_ns(thresholds[i].as_str()) {
            Ok(t) => {
                v.push(t);
                assert(v@ =~= threshold_values_spec(th).take(i + 1));
            },
            Err(e) => {
                assert(threshold_ns_spec(th[i as int]) == Err::<int, Seq<char>>(e@));
                return Err(e);
            },
        }
        i = i + 1;
    }
    assert(threshold_values_spec(th).take(i as int) =~= threshold_values_spec(th));
    Ok(v)
}

/// The count of each range of latencies and the latency values of each
/// group, groups in order of first appearance.
pub struct LatencyStats {
    pub latency_counts: Vec<(String, Vec<(String, usize)>)>,
    pub groups: Vec<(String, Vec<i128>)>,
}

/// `r` gives, for each group of `keys`, the latencies of `s` in each range
/// and their values.
pub open spec fn latency_stats_fit(
    r: LatencyStats,
    keys: Seq<Seq<char>>,
    s: Seq<(Seq<char>, i128)>,
    tv: Seq<u128>,
    th: Seq<Seq<char>>,
) -> bool {
    &&& r.latency_counts.len() == keys.len()
    &&& r.groups.len() == keys.len()
    &&& forall|j: int| 0 <= j < keys.len() ==> (#[trigger] r.latency_counts@[j]).0@ == keys[j]
        && range_row_fits(r.latency_counts@[j].1@, s, keys[j], tv, th)
    &&& forall|j: int| 0 <= j < keys.len() ==> (#[trigger] r.groups@[j]).0@ == keys[j]
        && r.groups@[j].1@ == values_in(s, keys[j])
}

/// The range counts and values of the groups `keys` over `items`.
pub fn latency_stats(
    keys: &Vec<String>,
    items: &Vec<(String, i128)>,
    threshold_values: &Vec<u128>,
    thresholds: &Vec<String>,
) -> (r: LatencyStats)
    requires
        threshold_values.len() <= thresholds.len(),
    ensures
        latency_stats_fit(r, keys.deep_view(), items.deep_view(), threshold_values@, thresholds.deep_view()),
{
    let latency_counts = latency_counts(keys, items, threshold_values, thresholds);
    let groups = group_values(keys, items);
    LatencyStats { latency_counts, groups }
}

/// The group keys of `items` in order of first appearance.
pub fn item_keys(items: &Vec<(String, i128)>) -> (r: Vec<String>)
    ensures
        r.deep_view() == distinct_texts(items.deep_view().map_values(|e: (Seq<char>, i128)| e.0)),
{
    let ghost s = items.deep_view();
    let mut names: Vec<String> = Vec::new();
    let mut i: usize = 0;
    while i < items.len()
        invariant
            s == items.deep_view(),
            0 <= i <= items.len(),
            names.deep_view() == s.map_values(|e: (Seq<char>, i128)| e.0).take(i as int),
        decreases items.len() - i,
    {
        let ghost before = names.deep_view();
        let name = items[i].0.clone();
        assert(name@ == s[i as int].0);
        names.push(name);
        assert(names.deep_view() =~= before.push(s[i as int].0));
        i = i + 1;
        assert(names.deep_view() =~= s.map_values(|e: (Seq<char>, i128)| e.0).take(i as int));
    }
    assert(s.map_values(|e: (Seq<char>, i128)| e.0).take(i as int) =~= s.map_values(|e: (Seq<char>, i128)| e.0));
    distinct_strings(&names)
}

/// The group keys of `items` in order of first appearance.
pub fn size_item_keys(items: &Vec<(String, u32)>) -> (r: Vec<String>)
    ensures
        r.deep_view() == distinct_texts(items.deep_view().map_values(|e: (Seq<char>, u32)| e.0)),
{
    let ghost s = items.deep_view();
    let mut names: Vec<String> = Vec::new();
    let mut i: usize = 0;
    while i < items.len()
        invariant
            s == items.deep_view(),
            0 <= i <= items.len(),
            names.deep_view() == s.map_values(|e: (Seq<char>, u32)| e.0).take(i as int),
        decreases items.len() - i,
    {
        let ghost before = names.deep_view();
        let name = items[i].0.clone();
        assert(name@ == s[i as int].0);
        names.push(name);
        assert(names.deep_view() =~= before.push(s[i as int].0));
        i = i + 1;
        assert(names.deep_view() =~= s.map_values(|e: (Seq<char>, u32)| e.0).take(i as int));
    }
    assert(s.map_values(|e: (Seq<char>, u32)| e.0).take(i as int) =~= s.map_values(|e: (Seq<char>, u32)| e.0));
    distinct_strings(&names)
}

/// The statistics of a trace: latency statistics of each kind of latency,
/// the size distribution and the continuity.
pub struct TraceStats {
    pub dtoc_stat: LatencyStats,
    pub ctod_stat: LatencyStats,
    pub ctoc_stat: LatencyStats,
    pub size_counts: SizeStats,
    pub continuity: ContinuityStats,
}

/// The first character of an I/O type as a text (NUL for an empty type).
pub open spec fn normalized_io_type(io: Seq<char>) -> Seq<char> {
    if io.len() == 0 {
        seq!['\0']
    } else {
        seq![io[0]]
    }
}

/// The first character of an I/O type, as a `String`.
pub fn normalize_io_type(io: &str) -> (r: String)
    ensures
        r@ == normalized_io_type(io@),
{
    let mut r = String::new();
    if io.unicode_len() == 0 {
        string_push(&mut r, '\0');
    } else {
        string_push(&mut r, io.get_char(0));
    }
    r
}

/// The factor that turns a bound given in the unit the user sees for a
/// zoom column (milliseconds for latencies, plain numbers otherwise) into
/// the unit the library holds (nanoseconds for latencies).
pub fn zoom_unit(column: &str) -> (r: u32)
    ensures
        r == (if column@ == "dtoc"@ || column@ == "ctoc"@ || column@ == "ctod"@ { 1_000_000u32 } else { 1u32 }),
{
    if str_eq(column, "dtoc") || str_eq(column, "ctoc") || str_eq(column, "ctod") {
        1_000_000
    } else {
        1
    }
}

/// The names of the zoom columns differ from one another.
pub proof fn lemma_column_names_differ()
    ensures
        "lba"@ != "dtoc"@,
        "lba"@ != "ctoc"@,
        "lba"@ != "ctod"@,
        "lba"@ != "qd"@,
        "lba"@ != "cpu"@,
        "lba"@ != "sector"@,
        "dtoc"@ != "ctoc"@,
        "dtoc"@ != "ctod"@,
        "dtoc"@ != "qd"@,
        "dtoc"@ != "cpu"@,
        "dtoc"@ != "sector"@,
        "ctoc"@ != "ctod"@,
        "ctoc"@ != "qd"@,
        "ctoc"@ != "cpu"@,
        "ctoc"@ != "sector"@,
        "ctod"@ != "qd"@,
        "ctod"@ != "cpu"@,
        "ctod"@ != "sector"@,
        "qd"@ != "cpu"@,
        "qd"@ != "sector"@,
        "cpu"@ != "sector"@,
{
    reveal_strlit("lba");
    reveal_strlit("dtoc");
    reveal_strlit("ctoc");
    reveal_strlit("ctod");
    reveal_strlit("qd");
    reveal_strlit("cpu");
    reveal_strlit("sector");
    assert("lba"@.len() != "dtoc"@.len());
    assert("lba"@.len() != "ctoc"@.len());
    assert("lba"@.len() != "ctod"@.len());
    assert("lba"@.len() != "qd"@.len());
    assert("lba"@[0] != "cpu"@[0]);
    assert("lba"@.len() != "sector"@.len());
    assert("dtoc"@[0] != "ctoc"@[0]);
    assert("dtoc"@[0] != "ctod"@[0]);
    assert("dtoc"@.len() != "qd"@.len());
    assert("dtoc"@.len() != "cpu"@.len());
    assert("dtoc"@.len() != "sector"@.len());
    assert("ctoc"@[3] != "ctod"@[3]);
    assert("ctoc"@.len() != "qd"@.len());
    assert("ctoc"@.len() != "cpu"@.len());
    assert("ctoc"@.len() != "sector"@.len());
    assert("ctod"@.len() != "qd"@.len());
    assert("ctod"@.len() != "cpu"@.len());
    assert("ctod"@.len() != "sector"@.len());
    assert("qd"@.len() != "cpu"@.len());
    assert("qd"@.len() != "sector"@.len());
    assert("cpu"@.len() != "sector"@.len());
}

/// A pair of bounds is in force when both are given and not both zero.
pub open spec fn range_active(from: Option<i128>, to: Option<i128>) -> bool {
    from is Some && to is Some && !(from->0 == 0 && to->0 == 0)
}

/// `v` lies within the bounds when they are in force.
pub open spec fn within(v: int, from: Option<i128>, to: Option<i128>) -> bool {
    range_active(from, to) ==> from->0 <= v <= to->0
}

/// The sum of the counts of the ranges `0..upto` for group `k`.
pub open spec fn range_count_sum(
    s: Seq<(Seq<char>, i128)>,
    k: Seq<char>,
    keys: Seq<Seq<char>>,
    tv: Seq<u128>,
    th: Seq<Seq<char>>,
    upto: int,
) -> int
    decreases upto,
{
    if upto <= 0 {
        0
    } else {
        range_count_sum(s, k, keys, tv, th, upto - 1) + range_count(s, k, keys, upto - 1, tv, th)
    }
}

proof fn lemma_range_count_sum_step(
    s: Seq<(Seq<char>, i128)>,
    k: Seq<char>,
    keys: Seq<Seq<char>>,
    tv: Seq<u128>,
    th: Seq<Seq<char>>,
    upto: int,
)
    requires
        s.len() > 0,
        0 <= upto,
    ensures
        range_count_sum(s, k, keys, tv, th, upto) == range_count_sum(s.drop_last(), k, keys, tv, th, upto)
            + (if s.last().0 == k && 0 <= text_index(keys, range_key_spec(s.last().1 as int, tv, th)) < upto { 1int } else { 0int }),
    decreases upto,
{
    if upto > 0 {
        lemma_range_count_sum_step(s, k, keys, tv, th, upto - 1);
    }
}

proof fn lemma_range_count_sum_empty(
    s: Seq<(Seq<char>, i128)>,
    k: Seq<char>,
    keys: Seq<Seq<char>>,
    tv: Seq<u128>,
    th: Seq<Seq<char>>,
    upto: int,
)
    requires
        s.len() == 0,
    ensures
        range_count_sum(s, k, keys, tv, th, upto) == 0,
    decreases upto,
{
    if upto > 0 {
        lemma_range_count_sum_empty(s, k, keys, tv, th, upto - 1);
    }
}

/// Every latency of a group is counted in exactly one range: the counts of
/// the ranges of a group add up to the number of its latencies.
pub proof fn lemma_range_counts_total(s: Seq<(Seq<char>, i128)>, k: Seq<char>, tv: Seq<u128>, th: Seq<Seq<char>>)
    requires
        tv.len() == th.len(),
    ensures
        range_count_sum(s, k, range_keys_spec(th), tv, th, range_keys_spec(th).len() as int) == values_in(s, k).len(),
    decreases s.len(),
{
    let keys = range_keys_spec(th);
    if s.len() == 0 {
        lemma_range_count_sum_empty(s, k, keys, tv, th, keys.len() as int);
    } else {
        lemma_range_counts_total(s.drop_last(), k, tv, th);
        lemma_range_count_sum_step(s, k, keys, tv, th, keys.len() as int);
        lemma_range_key_listed(s.last().1 as int, tv, th);
        lemma_text_index(keys, range_key_spec(s.last().1 as int, tv, th));
        if text_index(keys, range_key_spec(s.last().1 as int, tv, th)) < 0 {
            let x = range_key_spec(s.last().1 as int, tv, th);
            let m = choose|m: int| 0 <= m < keys.len() && keys[m] == x;
            assert(keys[m] != x);
        }
    }
}

} // verus!
