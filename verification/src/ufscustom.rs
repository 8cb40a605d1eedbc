//! Custom UFS traces (one line per request with start and end time):
//! latency post-processing and statistics.

use vstd::prelude::*;
use crate::sort::{order_by_time, time_order, lemma_time_order};
use crate::types::UFSCUSTOM;
use crate::text::{str_eq, concat2};
use crate::stats::{
    LatencyStats, SizeStats, ContinuityStats, TraceStats, thresholds_ok, first_threshold_error,
    threshold_values_spec, latency_stats_fit, distinct_texts, size_stats_fit, continuity_fits, byte_sum,
    parse_thresholds, item_keys, size_item_keys, lemma_column_names_differ, latency_stats, size_stats,
    continuity_counts, total_bytes,
};

verus! {

/// Some request starts before the one ahead of it.
pub open spec fn custom_needs_sort(s: Seq<UFSCUSTOM>) -> bool {
    exists|i: int| 1 <= i < s.len() && s[i - 1].start_time > #[trigger] s[i].start_time
}

/// The requests ordered by start time, equal times kept in their order.
pub open spec fn custom_by_start(s: Seq<UFSCUSTOM>) -> Seq<UFSCUSTOM> {
    let order = time_order(s.map_values(|u: UFSCUSTOM| u.start_time));
    Seq::new(s.len(), |k: int| s[order[k]])
}

/// The requests in the order in which they are processed.
pub open spec fn custom_ordered(s: Seq<UFSCUSTOM>) -> Seq<UFSCUSTOM> {
    if custom_needs_sort(s) {
        custom_by_start(s)
    } else {
        s
    }
}

/// The times of the start (at `2 * i`) and completion (at `2 * i + 1`)
/// events of the requests.
pub open spec fn event_times(s: Seq<UFSCUSTOM>) -> Seq<u64> {
    Seq::new(2 * s.len(), |p: int| if p % 2 == 0 { s[p / 2].start_time } else { s[p / 2].end_time })
}

/// The queue depth scan over the events in time order: the depth and, for
/// each request, the depth once it started and once it completed.
pub open spec fn qd_scan(events: Seq<int>, n: nat) -> (int, Seq<int>, Seq<int>)
    decreases events.len(),
{
    if events.len() == 0 {
        (0, Seq::new(n, |i: int| 0), Seq::new(n, |i: int| 0))
    } else {
        let prev = qd_scan(events.drop_last(), n);
        let p = events.last();
        if p % 2 == 0 {
            (prev.0 + 1, prev.1.update(p / 2, prev.0 + 1), prev.2)
        } else {
            let qd = if prev.0 > 0 { prev.0 - 1 } else { 0 };
            (qd, prev.1, prev.2.update(p / 2, qd))
        }
    }
}

/// The queue depths of the requests of `s`: `(start_qd, end_qd)`.
pub open spec fn custom_depths(s: Seq<UFSCUSTOM>) -> (Seq<int>, Seq<int>) {
    let q = qd_scan(time_order(event_times(s)), s.len());
    (q.1, q.2)
}

/// The requests of `s` with their queue depths filled in.
pub open spec fn custom_with_depths(s: Seq<UFSCUSTOM>) -> Seq<UFSCUSTOM> {
    let d = custom_depths(s);
    Seq::new(s.len(), |i: int| UFSCUSTOM { start_qd: d.0[i] as u32, end_qd: d.1[i] as u32, ..s[i] })
}

/// A difference of times that is negative counts as 0.
pub open spec fn clamp_diff(a: u64, b: u64) -> int {
    if a >= b {
        a - b
    } else {
        0
    }
}

/// What the latency scan carries from one request to the next.
pub struct CustomScan {
    /// `(lba, size, opcode)` of the previous request.
    pub prev: Option<(u64, u32, Seq<char>)>,
    pub last_complete: Option<u64>,
    /// Completion time of the last request that left the queue empty.
    pub last_idle_complete: Option<u64>,
}

/// One request of the latency scan.
pub open spec fn custom_step(st: CustomScan, u: UFSCUSTOM) -> (CustomScan, UFSCUSTOM) {
    let cont = match st.prev {
        Some(p) => u.lba == p.0 + p.1 && u.opcode@ == p.2,
        None => false,
    };
    let ctoc = match st.last_complete {
        Some(t) => clamp_diff(u.end_time, t),
        None => 0,
    };
    let ctod = if u.start_qd == 1 {
        match st.last_idle_complete {
            Some(t) => clamp_diff(u.start_time, t),
            None => 0,
        }
    } else {
        match st.last_complete {
            Some(t) => clamp_diff(u.start_time, t),
            None => 0,
        }
    };
    (
        CustomScan {
            prev: Some((u.lba, u.size, u.opcode@)),
            last_complete: Some(u.end_time),
            last_idle_complete: if u.end_qd == 0 { Some(u.end_time) } else { st.last_idle_complete },
        },
        UFSCUSTOM { continuous: cont, ctoc: ctoc as i128, ctod: ctod as i128, ..u },
    )
}

/// The latency scan over `s`.
pub open spec fn custom_scan(s: Seq<UFSCUSTOM>) -> (CustomScan, Seq<UFSCUSTOM>)
    decreases s.len(),
{
    if s.len() == 0 {
        (CustomScan { prev: None, last_complete: None, last_idle_complete: None }, Seq::empty())
    } else {
        let prev = custom_scan(s.drop_last());
        let next = custom_step(prev.0, s.last());
        (next.0, prev.1.push(next.1))
    }
}

/// The result of the custom UFS latency post-processing of `s`.
pub open spec fn custom_latency_spec(s: Seq<UFSCUSTOM>) -> Seq<UFSCUSTOM> {
    custom_scan(custom_with_depths(custom_ordered(s))).1
}

proof fn lemma_qd_scan_shape(events: Seq<int>, n: nat)
    requires
        forall|k: int| 0 <= k < events.len() ==> 0 <= #[trigger] events[k] < 2 * n,
    ensures
        qd_scan(events, n).1.len() == n,
        qd_scan(events, n).2.len() == n,
        qd_scan(events, n).0 >= 0,
        qd_scan(events, n).0 <= events.len(),
    decreases events.len(),
{
    if events.len() > 0 {
        lemma_qd_scan_shape(events.drop_last(), n);
    }
}

/// Fills in the queue depths of requests already in processing order.
fn custom_depths_exec(list: &mut Vec<UFSCUSTOM>)
    ensures
        final(list)@ == custom_with_depths(old(list)@),
{
    let n: usize = list.len();
    let mut times: Vec<u64> = Vec::new();
    let mut i: usize = 0;
    while i < n
        invariant
            n == list.len(),
            0 <= i <= n,
            times@ == event_times(list@).take(2 * i),
        decreases n - i,
    {
        times.push(list[i].start_time);
        times.push(list[i].end_time);
        i = i + 1;
        assert(times@ =~= event_times(list@).take(2 * i));
    }
    assert(times@ =~= event_times(list@));
    let order = order_by_time(&times);
    let ghost events = time_order(times@);
    let mut starts: Vec<u64> = Vec::new();
    let mut ends: Vec<u64> = Vec::new();
    let mut k: usize = 0;
    while k < n
        invariant
            n == list.len(),
            0 <= k <= n,
            starts@.len() == k,
            ends@.len() == k,
            forall|q: int| 0 <= q < k ==> starts@[q] == 0 && ends@[q] == 0,
        decreases n - k,
    {
        starts.push(0);
        ends.push(0);
        k = k + 1;
    }
    let mut qd: u64 = 0;
    let mut e: usize = 0;
    while e < order.len()
        invariant
            n == list.len(),
            order.len() == 2 * n,
            events.len() == 2 * n,
            forall|q: int| 0 <= q < order.len() ==> order@[q] < 2 * n,
            forall|q: int| 0 <= q < order.len() ==> order@[q] as int == #[trigger] events[q],
            0 <= e <= order.len(),
            starts@.len() == n,
            ends@.len() == n,
            ({
                let sc = qd_scan(events.take(e as int), n as nat);
                &&& sc.1.len() == n
                &&& sc.2.len() == n
                &&& sc.0 == qd as int
                &&& forall|q: int| 0 <= q < n ==> sc.1[q] == starts@[q] as int
                &&& forall|q: int| 0 <= q < n ==> sc.2[q] == ends@[q] as int
            }),
            qd <= e,
        decreases order.len() - e,
    {
        proof {
            assert(events.take(e + 1).drop_last() =~= events.take(e as int));
            lemma_qd_scan_shape(events.take(e + 1), n as nat);
        }
        let p: usize = order[e];
        let idx: usize = p / 2;
        if p % 2 == 0 {
            qd = qd + 1;
            starts.set(idx, qd);
        } else {
            qd = if qd > 0 { qd - 1 } else { 0 };
            ends.set(idx, qd);
        }
        e = e + 1;
    }
    proof {
        assert(events.take(order.len() as int) =~= events);
        lemma_qd_scan_shape(events, n as nat);
    }
    let mut j: usize = 0;
    while j < n
        invariant
            n == list.len(),
            starts@.len() == n,
            ends@.len() == n,
            custom_depths(old(list)@).0.len() == n,
            custom_depths(old(list)@).1.len() == n,
            old(list)@.len() == n,
            0 <= j <= n,
            forall|q: int| 0 <= q < n ==> custom_depths(old(list)@).0[q] == starts@[q] as int,
            forall|q: int| 0 <= q < n ==> custom_depths(old(list)@).1[q] == ends@[q] as int,
            forall|q: int| 0 <= q < j ==> list@[q] == custom_with_depths(old(list)@)[q],
            forall|q: int| j <= q < n ==> list@[q] == old(list)@[q],
        decreases n - j,
    {
        let mut rec = list[j].duplicate();
        rec.start_qd = starts[j] as u32;
        rec.end_qd = ends[j] as u32;
        list.set(j, rec);
        assert(list@[j as int] == custom_with_depths(old(list)@)[j as int]);
        j = j + 1;
    }
    assert(list@ =~= custom_with_depths(old(list)@));
}

fn diff_or_zero(a: u64, b: u64) -> (r: i128)
    ensures
        r == clamp_diff(a, b),
{
    if a >= b {
        (a - b) as i128
    } else {
        0
    }
}

fn custom_scan_exec(list: Vec<UFSCUSTOM>) -> (r: Vec<UFSCUSTOM>)
    ensures
        r@ == custom_scan(list@).1,
{
    let ghost s = list@;
    let mut out: Vec<UFSCUSTOM> = Vec::new();
    let mut prev: Option<(u64, u32, String)> = None;
    let mut last_complete: Option<u64> = None;
    let mut last_idle_complete: Option<u64> = None;
    for u in it: list
        invariant
            it.seq() == s,
            ({
                let sc = custom_scan(s.take(it.index()));
                &&& out@ == sc.1
                &&& sc.0.last_complete == last_complete
                &&& sc.0.last_idle_complete == last_idle_complete
                &&& sc.0.prev == (match prev {
                    Some(p) => Some((p.0, p.1, p.2@)),
                    None => None::<(u64, u32, Seq<char>)>,
                })
            }),
    {
        proof {
            assert(s.take(it.index() + 1).drop_last() =~= s.take(it.index()));
        }
        let mut rec = u;
        let cont: bool = match &prev {
            Some(p) => {
                let end: Option<u64> = p.0.checked_add(p.1 as u64);
                match end {
                    Some(e) => rec.lba == e && str_eq(rec.opcode.as_str(), p.2.as_str()),
                    None => false,
                }
            },
            None => false,
        };
        rec.continuous = cont;
        rec.ctoc = match last_complete {
            Some(t) => diff_or_zero(rec.end_time, t),
            None => 0,
        };
        rec.ctod = if rec.start_qd == 1 {
            match last_idle_complete {
                Some(t) => diff_or_zero(rec.start_time, t),
                None => 0,
            }
        } else {
            match last_complete {
                Some(t) => diff_or_zero(rec.start_time, t),
                None => 0,
            }
        };
        last_complete = Some(rec.end_time);
        if rec.end_qd == 0 {
            last_idle_complete = Some(rec.end_time);
        }
        prev = Some((rec.lba, rec.size, rec.opcode.clone()));
        out.push(rec);
    }
    proof {
        assert(s.take(s.len() as int) =~= s);
    }
    out
}

/// The requests ordered by start time, equal times kept in their order.
pub fn sort_ufscustom_by_start(list: &Vec<UFSCUSTOM>) -> (r: Vec<UFSCUSTOM>)
    ensures
        r@ == custom_by_start(list@),
{
    let n: usize = list.len();
    let mut times: Vec<u64> = Vec::new();
    let mut k: usize = 0;
    while k < n
        invariant
            n == list.len(),
            0 <= k <= n,
            times@ == list@.map_values(|e: UFSCUSTOM| e.start_time).take(k as int),
        decreases n - k,
    {
        times.push(list[k].start_time);
        k = k + 1;
        assert(times@ =~= list@.map_values(|e: UFSCUSTOM| e.start_time).take(k as int));
    }
    assert(times@ =~= list@.map_values(|e: UFSCUSTOM| e.start_time));
    let order = order_by_time(&times);
    let mut v: Vec<UFSCUSTOM> = Vec::new();
    let mut k: usize = 0;
    while k < n
        invariant
            n == list.len(),
            order.len() == n,
            times@ == list@.map_values(|e: UFSCUSTOM| e.start_time),
            time_order(times@).len() == n,
            forall|q: int| 0 <= q < n ==> order@[q] < n,
            forall|q: int| 0 <= q < n ==> order@[q] as int == #[trigger] time_order(times@)[q],
            0 <= k <= n,
            v@ == custom_by_start(list@).take(k as int),
        decreases n - k,
    {
        v.push(list[order[k]].duplicate());
        k = k + 1;
        assert(v@ =~= custom_by_start(list@).take(k as int));
    }
    assert(v@ =~= custom_by_start(list@));
    v
}

/// Custom UFS latency post-processing: orders the requests by start time
/// (when any of them is out of order), computes the queue
/// depth at the start and at the end of each request from all start and
/// end events in time order, then fills in the complete-to-complete and
/// complete-to-dispatch latencies and the continuity of each request.
pub fn ufscustom_bottom_half_latency_process(ufscustom_list: Vec<UFSCUSTOM>) -> (r: Vec<UFSCUSTOM>)
    ensures
        r@ == custom_latency_spec(ufscustom_list@),
{
    let n: usize = ufscustom_list.len();
    let mut needs_sort: bool = false;
    let mut i: usize = 1;
    while i < n && !needs_sort
        invariant
            n == ufscustom_list.len(),
            1 <= i,
            !needs_sort ==> forall|j: int| 1 <= j < i && j < n ==> ufscustom_list@[j - 1].start_time <= #[trigger] ufscustom_list@[j].start_time,
            needs_sort ==> (1 <= i < n && ufscustom_list@[i - 1].start_time > ufscustom_list@[i as int].start_time),
        decreases n - i + (if needs_sort { 0int } else { 1int }),
    {
        if ufscustom_list[i - 1].start_time > ufscustom_list[i].start_time {
            needs_sort = true;
        } else {
            i = i + 1;
        }
    }
    proof {
        if !needs_sort {
            assert(!custom_needs_sort(ufscustom_list@));
        } else {
            assert(custom_needs_sort(ufscustom_list@));
        }
    }
    let mut ordered: Vec<UFSCUSTOM> = if needs_sort {
        sort_ufscustom_by_start(&ufscustom_list)
    } else {
        ufscustom_list
    };
    custom_depths_exec(&mut ordered);
    custom_scan_exec(ordered)
}

/// The latencies of the column `col` of every request, with its opcode.
pub open spec fn custom_latency_items(s: Seq<UFSCUSTOM>, col: Seq<char>) -> Seq<(Seq<char>, i128)>
    decreases s.len(),
{
    if s.len() == 0 {
        Seq::empty()
    } else {
        let p = custom_latency_items(s.drop_last(), col);
        let u = s.last();
        if col == "dtoc"@ {
            p.push((u.opcode@, u.dtoc))
        } else if col == "ctoc"@ {
            p.push((u.opcode@, u.ctoc))
        } else if col == "ctod"@ {
            p.push((u.opcode@, u.ctod))
        } else {
            p
        }
    }
}

fn custom_latency_items_of(list: &Vec<UFSCUSTOM>, column: &str, code: u8) -> (r: Vec<(String, i128)>)
    requires
        code == 1 <==> column@ == "dtoc"@,
        code == 2 <==> column@ == "ctoc"@,
        code == 3 <==> column@ == "ctod"@,
        code <= 3,
    ensures
        r.deep_view() == custom_latency_items(list@, column@),
{
    let mut out: Vec<(String, i128)> = Vec::new();
    let mut i: usize = 0;
    while i < list.len()
        invariant
            code == 1 <==> column@ == "dtoc"@,
            code == 2 <==> column@ == "ctoc"@,
            code == 3 <==> column@ == "ctod"@,
            code <= 3,
            0 <= i <= list.len(),
            out.deep_view() == custom_latency_items(list@.take(i as int), column@),
        decreases list.len() - i,
    {
        assert(list@.take(i + 1).drop_last() =~= list@.take(i as int));
        let u = &list[i];
        if code != 0 {
            let v = if code == 1 { u.dtoc } else if code == 2 { u.ctoc } else { u.ctod };
            let ghost before = out.deep_view();
            out.push((u.opcode.clone(), v));
            assert(out.deep_view() =~= before.push((u.opcode@, v)));
        }
        i = i + 1;
    }
    assert(list@.take(i as int) =~= list@);
    out
}

/// The range counts and values of one latency column (`dtoc`, `ctoc` or
/// `ctod`) for each opcode, opcodes in order of first appearance; each
/// listed range counts the latencies whose range key it is. The thresholds
/// are parsed first; an unknown column is an error.
pub fn latencystats(list: &Vec<UFSCUSTOM>, column: &str, thresholds: &Vec<String>) -> (r: Result<LatencyStats, String>)
    ensures
        ({
            let th = thresholds.deep_view();
            let valid = column@ == "dtoc"@ || column@ == "ctoc"@ || column@ == "ctod"@;
            let items = custom_latency_items(list@, column@);
            match r {
                Err(e) => if !thresholds_ok(th) {
                    e@ == first_threshold_error(th)
                } else {
                    !valid && e@ == "Invalid column: "@ + column@
                },
                Ok(st) => thresholds_ok(th) && valid && latency_stats_fit(st,
                    distinct_texts(items.map_values(|e: (Seq<char>, i128)| e.0)), items,
                    threshold_values_spec(th), th),
            }
        }),
{
    let tv = parse_thresholds(thresholds)?;
    proof {
        lemma_column_names_differ();
    }
    let code: u8 = if str_eq(column, "dtoc") {
        1
    } else if str_eq(column, "ctoc") {
        2
    } else if str_eq(column, "ctod") {
        3
    } else {
        0
    };
    if code == 0 {
        return Err(concat2("Invalid column: ", column));
    }
    let items = custom_latency_items_of(list, column, code);
    let keys = item_keys(&items);
    Ok(latency_stats(&keys, &items, &tv, thresholds))
}

/// The size of every request with its opcode.
pub open spec fn custom_size_items(s: Seq<UFSCUSTOM>) -> Seq<(Seq<char>, u32)> {
    s.map_values(|u: UFSCUSTOM| (u.opcode@, u.size))
}

/// The size distribution of the requests for each opcode.
pub fn sizestats(list: &Vec<UFSCUSTOM>) -> (r: SizeStats)
    ensures
        ({
            let items = custom_size_items(list@);
            size_stats_fit(r, distinct_texts(items.map_values(|e: (Seq<char>, u32)| e.0)), items)
        }),
{
    let mut items: Vec<(String, u32)> = Vec::new();
    let mut i: usize = 0;
    while i < list.len()
        invariant
            0 <= i <= list.len(),
            items.deep_view() == custom_size_items(list@).take(i as int),
        decreases list.len() - i,
    {
        let ghost before = items.deep_view();
        items.push((list[i].opcode.clone(), list[i].size));
        assert(items.deep_view() =~= before.push((list@[i as int].opcode@, list@[i as int].size)));
        i = i + 1;
        assert(items.deep_view() =~= custom_size_items(list@).take(i as int));
    }
    assert(custom_size_items(list@).take(i as int) =~= custom_size_items(list@));
    let keys = size_item_keys(&items);
    size_stats(&keys, &items)
}

/// Every request with its bytes (512 per sector) and continuity.
pub open spec fn custom_continuity_items(s: Seq<UFSCUSTOM>) -> Seq<(Seq<char>, u64, bool)> {
    s.map_values(|u: UFSCUSTOM| (u.opcode@, (u.size * 512) as u64, u.continuous))
}

/// The bytes of the requests the continuity statistics count, in all.
pub fn continuity_bytes(list: &Vec<UFSCUSTOM>) -> (r: u128)
    ensures
        r == byte_sum(custom_continuity_items(list@), None, false),
{
    let items = continuity_items_of(list);
    total_bytes(&items)
}

/// The continuity entries of the requests.
fn continuity_items_of(list: &Vec<UFSCUSTOM>) -> (r: Vec<(String, u64, bool)>)
    ensures
        r.deep_view() == custom_continuity_items(list@),
{
    let mut items: Vec<(String, u64, bool)> = Vec::new();
    let mut i: usize = 0;
    while i < list.len()
        invariant
            0 <= i <= list.len(),
            items.deep_view() == custom_continuity_items(list@).take(i as int),
        decreases list.len() - i,
    {
        let ghost before = items.deep_view();
        let bytes: u64 = list[i].size as u64 * 512;
        items.push((list[i].opcode.clone(), bytes, list[i].continuous));
        assert(items.deep_view() =~= before.push((list@[i as int].opcode@, bytes, list@[i as int].continuous)));
        i = i + 1;
        assert(items.deep_view() =~= custom_continuity_items(list@).take(i as int));
    }
    assert(custom_continuity_items(list@).take(i as int) =~= custom_continuity_items(list@));
    items
}

/// The continuity of the requests, for each opcode and in all.
pub fn continuity_stats(list: &Vec<UFSCUSTOM>) -> (r: ContinuityStats)
    requires
        byte_sum(custom_continuity_items(list@), None, false) <= u64::MAX,
    ensures
        continuity_fits(r, custom_continuity_items(list@)),
{
    let items = continuity_items_of(list);
    continuity_counts(&items)
}

/// All statistics of the requests: the latency statistics of `dtoc`,
/// `ctod` and `ctoc`, the size distribution and the continuity.
pub fn allstats(list: &Vec<UFSCUSTOM>, thresholds: &Vec<String>) -> (r: Result<TraceStats, String>)
    requires
        byte_sum(custom_continuity_items(list@), None, false) <= u64::MAX,
    ensures
        ({
            let th = thresholds.deep_view();
            let tv = threshold_values_spec(th);
            match r {
                Err(e) => !thresholds_ok(th) && e@ == first_threshold_error(th),
                Ok(ts) => {
                    let d = custom_latency_items(list@, "dtoc"@);
                    let cd = custom_latency_items(list@, "ctod"@);
                    let cc = custom_latency_items(list@, "ctoc"@);
                    let sz = custom_size_items(list@);
                    &&& thresholds_ok(th)
                    &&& latency_stats_fit(ts.dtoc_stat, distinct_texts(d.map_values(|e: (Seq<char>, i128)| e.0)), d, tv, th)
                    &&& latency_stats_fit(ts.ctod_stat, distinct_texts(cd.map_values(|e: (Seq<char>, i128)| e.0)), cd, tv, th)
                    &&& latency_stats_fit(ts.ctoc_stat, distinct_texts(cc.map_values(|e: (Seq<char>, i128)| e.0)), cc, tv, th)
                    &&& size_stats_fit(ts.size_counts, distinct_texts(sz.map_values(|e: (Seq<char>, u32)| e.0)), sz)
                    &&& continuity_fits(ts.continuity, custom_continuity_items(list@))
                },
            }
        }),
{
    proof {
        lemma_column_names_differ();
    }
    let dtoc_stat = latencystats(list, "dtoc", thresholds)?;
    let ctod_stat = latencystats(list, "ctod", thresholds)?;
    let ctoc_stat = latencystats(list, "ctoc", thresholds)?;
    let size_counts = sizestats(list);
    let continuity = continuity_stats(list);
    Ok(TraceStats { dtoc_stat, ctod_stat, ctoc_stat, size_counts, continuity })
}

/// `a` is the request `b` with only its queue depths, latencies and
/// continuity possibly changed.
pub open spec fn custom_same_request(a: UFSCUSTOM, b: UFSCUSTOM) -> bool {
    &&& a.opcode == b.opcode
    &&& a.lba == b.lba
    &&& a.size == b.size
    &&& a.start_time == b.start_time
    &&& a.end_time == b.end_time
    &&& a.dtoc == b.dtoc
}

/// Request `i` of `s` starts where the previous request ended, with the
/// same opcode.
pub open spec fn custom_follows(s: Seq<UFSCUSTOM>, i: int) -> bool {
    i > 0 && s[i].lba == s[i - 1].lba + s[i - 1].size && s[i].opcode@ == s[i - 1].opcode@
}

proof fn lemma_custom_scan_shape(s: Seq<UFSCUSTOM>)
    ensures
        custom_scan(s).1.len() == s.len(),
        s.len() == 0 ==> custom_scan(s).0.prev is None,
        s.len() > 0 ==> custom_scan(s).0.prev == Some((s.last().lba, s.last().size, s.last().opcode@)),
        forall|i: int| 0 <= i < s.len() ==> {
            let r = #[trigger] custom_scan(s).1[i];
            &&& custom_same_request(r, s[i])
            &&& r.start_qd == s[i].start_qd
            &&& r.end_qd == s[i].end_qd
            &&& r.ctoc >= 0
            &&& r.ctod >= 0
            &&& r.continuous == custom_follows(s, i)
        },
    decreases s.len(),
{
    if s.len() > 0 {
        let t = s.drop_last();
        lemma_custom_scan_shape(t);
        let prev = custom_scan(t);
        assert forall|i: int| 0 <= i < s.len() implies {
            let r = #[trigger] custom_scan(s).1[i];
            &&& custom_same_request(r, s[i])
            &&& r.start_qd == s[i].start_qd
            &&& r.end_qd == s[i].end_qd
            &&& r.ctoc >= 0
            &&& r.ctod >= 0
            &&& r.continuous == custom_follows(s, i)
        } by {
            if i < s.len() - 1 {
                assert(custom_scan(s).1[i] == prev.1[i]);
                assert(t[i] == s[i]);
                if i > 0 {
                    assert(t[i - 1] == s[i - 1]);
                }
                assert(custom_follows(t, i) == custom_follows(s, i));
            } else {
                if i > 0 {
                    assert(t.last() == s[i - 1]);
                }
            }
        }
    }
}

/// The custom UFS post-processing keeps every request: one result per
/// request, in processing order, with opcode, address, size, times and
/// dispatch-to-complete latency unchanged; the complete-to-complete and
/// complete-to-dispatch latencies are never negative; a request is
/// continuous exactly when it starts where the previous request ended and
/// has the same opcode.
pub proof fn lemma_custom_latency_keeps_requests(s: Seq<UFSCUSTOM>)
    ensures
        custom_latency_spec(s).len() == s.len(),
        forall|i: int| 0 <= i < s.len() ==> {
            let r = #[trigger] custom_latency_spec(s)[i];
            &&& custom_same_request(r, custom_ordered(s)[i])
            &&& r.ctoc >= 0
            &&& r.ctod >= 0
            &&& r.continuous == custom_follows(custom_ordered(s), i)
        },
{
    let o = custom_ordered(s);
    assert(o.len() == s.len());
    let t = custom_with_depths(o);
    lemma_custom_scan_shape(t);
    assert forall|i: int| 0 <= i < s.len() implies {
        let r = #[trigger] custom_latency_spec(s)[i];
        &&& custom_same_request(r, o[i])
        &&& r.ctoc >= 0
        &&& r.ctod >= 0
        &&& r.continuous == custom_follows(o, i)
    } by {
        assert(custom_same_request(t[i], o[i]));
        if i > 0 {
            assert(custom_same_request(t[i - 1], o[i - 1]));
        }
        assert(custom_follows(t, i) == custom_follows(o, i));
    }
}


proof fn lemma_custom_scan_ctoc(t: Seq<UFSCUSTOM>)
    ensures
        custom_scan(t).1.len() == t.len(),
        custom_scan(t).0.last_complete == (if t.len() > 0 { Some(t.last().end_time) } else { None::<u64> }),
        forall|i: int| 0 <= i < t.len() ==> (#[trigger] custom_scan(t).1[i]).ctoc
            == (if i == 0 { 0 } else if t[i].end_time >= t[i - 1].end_time { t[i].end_time - t[i - 1].end_time } else { 0 }),
        forall|i: int| 0 <= i < t.len() ==> (#[trigger] custom_scan(t).1[i]).continuous
            == (i > 0 && t[i].lba == t[i - 1].lba + t[i - 1].size && t[i].opcode@ == t[i - 1].opcode@),
        forall|i: int| 0 <= i < t.len() && t[i].start_qd != 1 ==> (#[trigger] custom_scan(t).1[i]).ctod
            == (if i == 0 { 0 } else if t[i].start_time >= t[i - 1].end_time { t[i].start_time - t[i - 1].end_time } else { 0 }),
        forall|i: int| 0 <= i < t.len() ==> (#[trigger] custom_scan(t).1[i]).start_qd == t[i].start_qd,
        custom_scan(t).0.prev == (if t.len() > 0 { Some((t.last().lba, t.last().size, t.last().opcode@)) } else { None::<(u64, u32, Seq<char>)> }),
    decreases t.len(),
{
    if t.len() > 0 {
        let p = t.drop_last();
        lemma_custom_scan_ctoc(p);
        let n = t.len() - 1;
        assert forall|i: int| 0 <= i < t.len() implies {
            &&& (#[trigger] custom_scan(t).1[i]).ctoc
                == (if i == 0 { 0 } else if t[i].end_time >= t[i - 1].end_time { t[i].end_time - t[i - 1].end_time } else { 0 })
            &&& custom_scan(t).1[i].continuous
                == (i > 0 && t[i].lba == t[i - 1].lba + t[i - 1].size && t[i].opcode@ == t[i - 1].opcode@)
            &&& t[i].start_qd != 1 ==> custom_scan(t).1[i].ctod
                == (if i == 0 { 0 } else if t[i].start_time >= t[i - 1].end_time { t[i].start_time - t[i - 1].end_time } else { 0 })
            &&& custom_scan(t).1[i].start_qd == t[i].start_qd
        } by {
            if i < n {
                assert(custom_scan(t).1[i] == custom_scan(p).1[i]);
                assert(p[i] == t[i]);
                if i > 0 {
                    assert(p[i - 1] == t[i - 1]);
                }
            } else if n > 0 {
                assert(p.last() == t[n - 1]);
            }
        }
    }
}

/// Complete-to-complete latency of custom requests: in processing order,
/// the first request gets 0 and every later one the time from the end of
/// the request before it to its own end (0 when it ends earlier). A
/// request continues the one before it when it starts at its end address
/// with the same opcode; a request that did not start on an empty queue
/// gets as `ctod` the time from the end of the request before it to its
/// own start (0 when that is negative, and for the first request).
pub proof fn lemma_custom_ctoc_since_previous_end(list: Seq<UFSCUSTOM>)
    ensures
        forall|i: int| 0 <= i < custom_ordered(list).len() ==> (#[trigger] custom_latency_spec(list)[i]).continuous
            == (i > 0 && custom_ordered(list)[i].lba == custom_ordered(list)[i - 1].lba + custom_ordered(list)[i - 1].size
                && custom_ordered(list)[i].opcode@ == custom_ordered(list)[i - 1].opcode@),
        forall|i: int| 0 <= i < custom_ordered(list).len() && custom_latency_spec(list)[i].start_qd != 1
            ==> (#[trigger] custom_latency_spec(list)[i]).ctod == (if i == 0 { 0 }
                else if custom_ordered(list)[i].start_time >= custom_ordered(list)[i - 1].end_time {
                    custom_ordered(list)[i].start_time - custom_ordered(list)[i - 1].end_time
                } else {
                    0
                }),
        custom_latency_spec(list).len() == custom_ordered(list).len(),
        custom_ordered(list).len() > 0 ==> custom_latency_spec(list)[0].ctoc == 0,
        forall|i: int| 0 < i < custom_ordered(list).len() ==> (#[trigger] custom_latency_spec(list)[i]).ctoc
            == (if custom_ordered(list)[i].end_time >= custom_ordered(list)[i - 1].end_time {
                custom_ordered(list)[i].end_time - custom_ordered(list)[i - 1].end_time
            } else {
                0
            }),
{
    let o = custom_ordered(list);
    let t = custom_with_depths(o);
    lemma_custom_scan_ctoc(t);
    assert(t.len() == o.len());
    assert(forall|i: int| 0 <= i < o.len() ==> #[trigger] t[i].end_time == o[i].end_time);
    assert forall|i: int| 0 < i < o.len() implies (#[trigger] custom_latency_spec(list)[i]).ctoc
        == (if o[i].end_time >= o[i - 1].end_time { o[i].end_time - o[i - 1].end_time } else { 0 }) by {
        assert(t[i].end_time == o[i].end_time);
        assert(t[i - 1].end_time == o[i - 1].end_time);
    }
    assert forall|i: int| 0 <= i < o.len() implies {
        &&& (#[trigger] custom_latency_spec(list)[i]).continuous
            == (i > 0 && o[i].lba == o[i - 1].lba + o[i - 1].size && o[i].opcode@ == o[i - 1].opcode@)
        &&& custom_latency_spec(list)[i].start_qd != 1 ==> custom_latency_spec(list)[i].ctod == (if i == 0 { 0 }
            else if o[i].start_time >= o[i - 1].end_time { o[i].start_time - o[i - 1].end_time } else { 0 })
    } by {
        assert(custom_latency_spec(list)[i].start_qd == t[i].start_qd);
        if i > 0 {
            assert(t[i - 1].end_time == o[i - 1].end_time);
        }
    }
}


proof fn lemma_custom_scan_idle(t: Seq<UFSCUSTOM>)
    ensures
        custom_scan(t).1.len() == t.len(),
        forall|i: int| 0 <= i < t.len() ==> (#[trigger] custom_scan(t).1[i]).start_qd == t[i].start_qd
            && custom_scan(t).1[i].end_qd == t[i].end_qd,
        custom_scan(t).0.last_idle_complete is None ==> forall|m: int| 0 <= m < t.len() ==> (#[trigger] t[m]).end_qd != 0,
        custom_scan(t).0.last_idle_complete is Some ==> exists|j: int| 0 <= j < t.len() && (#[trigger] t[j]).end_qd == 0
            && custom_scan(t).0.last_idle_complete->0 == t[j].end_time
            && forall|m: int| j < m < t.len() ==> (#[trigger] t[m]).end_qd != 0,
        forall|i: int, j: int| 0 <= j < i < t.len() && t[i].start_qd == 1 && (#[trigger] t[j]).end_qd == 0
            && (forall|m: int| j < m < i ==> (#[trigger] t[m]).end_qd != 0)
            ==> (#[trigger] custom_scan(t).1[i]).ctod == clamp_diff(t[i].start_time, t[j].end_time),
        forall|i: int| 0 <= i < t.len() && t[i].start_qd == 1 && (forall|m: int| 0 <= m < i ==> (#[trigger] t[m]).end_qd != 0)
            ==> (#[trigger] custom_scan(t).1[i]).ctod == 0,
    decreases t.len(),
{
    if t.len() > 0 {
        let p = t.drop_last();
        lemma_custom_scan_idle(p);
        let n = t.len() - 1;
        let prev = custom_scan(p);
        let r = custom_scan(t).1;
        let st = custom_scan(t).0;
        let e = t[n];
        assert(forall|m: int| 0 <= m < n ==> #[trigger] t[m] == p[m]);
        assert(forall|m: int| 0 <= m < n ==> #[trigger] r[m] == prev.1[m]);
        assert(r[n] == custom_step(prev.0, e).1);
        assert(st == custom_step(prev.0, e).0);
        if e.end_qd != 0 {
            assert(st.last_idle_complete == prev.0.last_idle_complete);
            if st.last_idle_complete is Some {
                let j = choose|j: int| 0 <= j < p.len() && (#[trigger] p[j]).end_qd == 0
                    && prev.0.last_idle_complete->0 == p[j].end_time
                    && forall|m: int| j < m < p.len() ==> (#[trigger] p[m]).end_qd != 0;
                assert(t[j].end_qd == 0);
                assert forall|m: int| j < m < t.len() implies (#[trigger] t[m]).end_qd != 0 by {
                    if m < n {
                        assert(p[m].end_qd != 0);
                    }
                }
            } else {
                assert forall|m: int| 0 <= m < t.len() implies (#[trigger] t[m]).end_qd != 0 by {
                    if m < n {
                        assert(p[m].end_qd != 0);
                    }
                }
            }
        } else {
            assert(t[n].end_qd == 0);
        }
        assert forall|i: int, j: int| 0 <= j < i < t.len() && t[i].start_qd == 1 && (#[trigger] t[j]).end_qd == 0
            && (forall|m: int| j < m < i ==> (#[trigger] t[m]).end_qd != 0)
            implies (#[trigger] r[i]).ctod == clamp_diff(t[i].start_time, t[j].end_time) by {
            if i < n {
                assert(p[j].end_qd == 0);
                assert forall|m: int| j < m < i implies (#[trigger] p[m]).end_qd != 0 by {
                    assert(t[m].end_qd != 0);
                }
            } else {
                assert(p[j].end_qd == 0);
                let w = choose|w: int| 0 <= w < p.len() && (#[trigger] p[w]).end_qd == 0
                    && prev.0.last_idle_complete->0 == p[w].end_time
                    && forall|m: int| w < m < p.len() ==> (#[trigger] p[m]).end_qd != 0;
                if w < j {
                    assert(p[j].end_qd != 0);
                }
                if w > j {
                    assert(t[w].end_qd != 0);
                }
                assert(w == j);
            }
        }
        assert forall|i: int| 0 <= i < t.len() && t[i].start_qd == 1 && (forall|m: int| 0 <= m < i ==> (#[trigger] t[m]).end_qd != 0)
            implies (#[trigger] r[i]).ctod == 0 by {
            if i < n {
                assert forall|m: int| 0 <= m < i implies (#[trigger] p[m]).end_qd != 0 by {
                    assert(t[m].end_qd != 0);
                }
            } else {
                if prev.0.last_idle_complete is Some {
                    let w = choose|w: int| 0 <= w < p.len() && (#[trigger] p[w]).end_qd == 0
                        && prev.0.last_idle_complete->0 == p[w].end_time
                        && forall|m: int| w < m < p.len() ==> (#[trigger] p[m]).end_qd != 0;
                    assert(t[w].end_qd != 0);
                }
            }
        }
    }
}

/// Complete-to-dispatch latency of a custom request that started on an
/// empty queue (queue depth 1 once it started), in processing order: the
/// time from the end of the latest earlier request that left the queue
/// empty (queue depth 0 once it completed) to its own start, 0 when that
/// is negative or when no earlier request left the queue empty.
pub proof fn lemma_custom_ctod_after_idle(list: Seq<UFSCUSTOM>, i: int, j: int)
    ensures
        ({
            let o = custom_ordered(list);
            let r = custom_latency_spec(list);
            &&& r.len() == o.len()
            &&& (0 <= j < i < o.len() && r[i].start_qd == 1 && r[j].end_qd == 0
                && (forall|m: int| j < m < i ==> (#[trigger] r[m]).end_qd != 0))
                ==> r[i].ctod == (if o[i].start_time >= o[j].end_time { o[i].start_time - o[j].end_time } else { 0 })
            &&& (0 <= i < o.len() && r[i].start_qd == 1 && (forall|m: int| 0 <= m < i ==> (#[trigger] r[m]).end_qd != 0))
                ==> r[i].ctod == 0
        }),
{
    let o = custom_ordered(list);
    let t = custom_with_depths(o);
    let r = custom_latency_spec(list);
    lemma_custom_scan_idle(t);
    assert(t.len() == o.len());
    if 0 <= j < i < o.len() && r[i].start_qd == 1 && r[j].end_qd == 0
        && (forall|m: int| j < m < i ==> (#[trigger] r[m]).end_qd != 0) {
        assert(t[j].end_qd == 0);
        assert forall|m: int| j < m < i implies (#[trigger] t[m]).end_qd != 0 by {
            assert(r[m].end_qd != 0);
        }
        assert(t[i].start_qd == 1);
        assert(t[i].start_time == o[i].start_time && t[j].end_time == o[j].end_time);
    }
    if 0 <= i < o.len() && r[i].start_qd == 1 && (forall|m: int| 0 <= m < i ==> (#[trigger] r[m]).end_qd != 0) {
        assert forall|m: int| 0 <= m < i implies (#[trigger] t[m]).end_qd != 0 by {
            assert(r[m].end_qd != 0);
        }
        assert(t[i].start_qd == 1);
    }
}


/// The queue depth recorded at event `p` of the requests in `r`: the start
/// depth of request `p / 2` for a start event (even `p`), its end depth
/// for a completion event (odd `p`).
pub open spec fn custom_depth_at(r: Seq<UFSCUSTOM>, p: int) -> int {
    if p % 2 == 0 {
        r[p / 2].start_qd as int
    } else {
        r[p / 2].end_qd as int
    }
}

proof fn lemma_qd_scan_recorded(ev: Seq<int>, n: nat)
    requires
        forall|k: int| 0 <= k < ev.len() ==> 0 <= #[trigger] ev[k] < 2 * n,
        forall|a: int, b: int| 0 <= a < ev.len() && 0 <= b < ev.len() && a != b ==> ev[a] != ev[b],
    ensures
        forall|q: int| 0 <= q < ev.len() && ev[q] % 2 == 0
            ==> qd_scan(ev, n).1[(#[trigger] ev[q]) / 2] == qd_scan(ev.take(q + 1), n).0,
        forall|q: int| 0 <= q < ev.len() && ev[q] % 2 == 1
            ==> qd_scan(ev, n).2[(#[trigger] ev[q]) / 2] == qd_scan(ev.take(q + 1), n).0,
    decreases ev.len(),
{
    if ev.len() > 0 {
        let p = ev.drop_last();
        let l = p.len() as int;
        lemma_qd_scan_recorded(p, n);
        lemma_qd_scan_shape(p, n);
        let last = ev[l];
        assert(forall|m: int| 0 <= m < l ==> #[trigger] p[m] == ev[m]);
        assert(ev.take(l + 1) =~= ev);
        assert forall|q: int| 0 <= q < ev.len() && ev[q] % 2 == 0
            implies qd_scan(ev, n).1[(#[trigger] ev[q]) / 2] == qd_scan(ev.take(q + 1), n).0 by {
            if q < l {
                assert(p.take(q + 1) =~= ev.take(q + 1));
                assert(p[q] == ev[q]);
                if last % 2 == 0 && last / 2 == ev[q] / 2 {
                    assert(ev[q] == last);
                }
            }
        }
        assert forall|q: int| 0 <= q < ev.len() && ev[q] % 2 == 1
            implies qd_scan(ev, n).2[(#[trigger] ev[q]) / 2] == qd_scan(ev.take(q + 1), n).0 by {
            if q < l {
                assert(p.take(q + 1) =~= ev.take(q + 1));
                assert(p[q] == ev[q]);
                if last % 2 == 1 && last / 2 == ev[q] / 2 {
                    assert(ev[q] == last);
                }
            }
        }
    }
}

/// Queue depths of custom requests: take the start event (`2 * i`) and the
/// completion event (`2 * i + 1`) of every request in processing order,
/// and order them by time, equal times in that order. At each event the
/// depth recorded there (`custom_depth_at`) is the depth recorded at the
/// event before it (0 before the first) plus one for a start, and minus
/// one, but never below 0, for a completion.
pub proof fn lemma_custom_queue_depths(list: Seq<UFSCUSTOM>)
    requires
        list.len() <= 0x7fff_ffff,
    ensures
        ({
            let o = custom_ordered(list);
            let r = custom_latency_spec(list);
            let ev = time_order(event_times(o));
            &&& r.len() == o.len()
            &&& ev.len() == 2 * o.len()
            &&& forall|q: int| 0 <= q < ev.len() ==> 0 <= #[trigger] ev[q] < ev.len()
            &&& forall|q: int| 0 <= q < ev.len() ==> {
                let before = if q == 0 { 0int } else { custom_depth_at(r, ev[q - 1]) };
                custom_depth_at(r, #[trigger] ev[q]) == (if ev[q] % 2 == 0 {
                    before + 1
                } else if before > 0 {
                    before - 1
                } else {
                    0
                })
            }
        }),
{
    let o = custom_ordered(list);
    let n = o.len();
    let t = custom_with_depths(o);
    let r = custom_latency_spec(list);
    let times = event_times(o);
    let ev = time_order(times);
    assert(o.len() == list.len());
    assert(times.len() == 2 * n);
    lemma_time_order(times);
    lemma_qd_scan_recorded(ev, n);
    lemma_qd_scan_shape(ev, n);
    lemma_custom_scan_idle(t);
    let d = qd_scan(ev, n);
    assert(t.len() == n);
    // the depth recorded at event q is the depth after the first q + 1 events
    assert forall|q: int| 0 <= q < ev.len() implies custom_depth_at(r, #[trigger] ev[q]) == qd_scan(ev.take(q + 1), n).0 by {
        let i = ev[q] / 2;
        assert(0 <= i < n);
        lemma_qd_scan_shape(ev.take(q + 1), n);
        assert(r[i].start_qd == t[i].start_qd && r[i].end_qd == t[i].end_qd);
        if ev[q] % 2 == 0 {
            assert(d.1[i] == qd_scan(ev.take(q + 1), n).0);
            assert(t[i].start_qd == d.1[i] as u32);
        } else {
            assert(d.2[i] == qd_scan(ev.take(q + 1), n).0);
            assert(t[i].end_qd == d.2[i] as u32);
        }
    }
    assert forall|q: int| 0 <= q < ev.len() implies {
        let before = if q == 0 { 0int } else { custom_depth_at(r, ev[q - 1]) };
        custom_depth_at(r, #[trigger] ev[q]) == (if ev[q] % 2 == 0 {
            before + 1
        } else if before > 0 {
            before - 1
        } else {
            0
        })
    } by {
        let cur = ev.take(q + 1);
        assert(cur.drop_last() =~= ev.take(q));
        assert(cur.last() == ev[q]);
        assert(cur.len() > 0);
        let prior = qd_scan(ev.take(q), n).0;
        assert(qd_scan(cur, n).0 == (if ev[q] % 2 == 0 { prior + 1 } else if prior > 0 { prior - 1 } else { 0 }));
        assert(custom_depth_at(r, ev[q]) == qd_scan(cur, n).0);
        if q > 0 {
            let q1 = q - 1;
            assert(ev.take(q1 + 1) =~= ev.take(q));
            assert(custom_depth_at(r, ev[q1]) == qd_scan(ev.take(q1 + 1), n).0);
            assert(custom_depth_at(r, ev[q - 1]) == prior);
        } else {
            assert(ev.take(0) =~= Seq::<int>::empty());
            assert(prior == 0);
        }
    }
}


/// The latency entries of the custom UFS statistics are exactly the
/// requests, in order, with their opcode and the latency the column names.
pub proof fn lemma_custom_latency_items_are_the_column(s: Seq<UFSCUSTOM>)
    ensures
        custom_latency_items(s, "dtoc"@) == s.map_values(|u: UFSCUSTOM| (u.opcode@, u.dtoc)),
        custom_latency_items(s, "ctoc"@) == s.map_values(|u: UFSCUSTOM| (u.opcode@, u.ctoc)),
        custom_latency_items(s, "ctod"@) == s.map_values(|u: UFSCUSTOM| (u.opcode@, u.ctod)),
    decreases s.len(),
{
    lemma_column_names_differ();
    if s.len() == 0 {
        assert(custom_latency_items(s, "dtoc"@) =~= s.map_values(|u: UFSCUSTOM| (u.opcode@, u.dtoc)));
        assert(custom_latency_items(s, "ctoc"@) =~= s.map_values(|u: UFSCUSTOM| (u.opcode@, u.ctoc)));
        assert(custom_latency_items(s, "ctod"@) =~= s.map_values(|u: UFSCUSTOM| (u.opcode@, u.ctod)));
    } else {
        let t = s.drop_last();
        lemma_custom_latency_items_are_the_column(t);
        let e = s.last();
        assert(s.map_values(|u: UFSCUSTOM| (u.opcode@, u.dtoc)) =~= t.map_values(|u: UFSCUSTOM| (u.opcode@, u.dtoc)).push((e.opcode@, e.dtoc)));
        assert(s.map_values(|u: UFSCUSTOM| (u.opcode@, u.ctoc)) =~= t.map_values(|u: UFSCUSTOM| (u.opcode@, u.ctoc)).push((e.opcode@, e.ctoc)));
        assert(s.map_values(|u: UFSCUSTOM| (u.opcode@, u.ctod)) =~= t.map_values(|u: UFSCUSTOM| (u.opcode@, u.ctod)).push((e.opcode@, e.ctod)));
    }
}

} // verus!
