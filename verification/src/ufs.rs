//! UFS traces: latency post-processing and statistics.

use vstd::prelude::*;
use crate::pending::{find_key, put_key, drop_key, lemma_find_key, lemma_find_key_at, keys_unique, key_value, lemma_put_key_value, lemma_drop_key_value};
use crate::sort::{order_by_time, time_order, lemma_time_order};
use crate::text::{str_eq, concat2};
use crate::stats::{
    LatencyStats, SizeStats, ContinuityStats, TraceStats, distinct_strings, within, range_active, thresholds_ok, first_threshold_error,
    threshold_values_spec, latency_stats_fit, distinct_texts, size_stats_fit, continuity_fits, byte_sum,
    parse_thresholds, item_keys, lemma_column_names_differ, size_item_keys, latency_stats, size_stats, continuity_counts, total_bytes,
};
use crate::types::UFS;

verus! {

/// What the scan over UFS events carries from one event to the next.
pub struct UfsScan {
    /// Requests sent and not yet completed.
    pub qd: int,
    /// Send time of each outstanding `(tag, opcode)`.
    pub pending: Seq<((u32, Seq<char>), u64)>,
    /// Time of the last completion.
    pub last_complete: Option<u64>,
    /// Time of the last completion that left no request outstanding.
    pub last_idle_complete: Option<u64>,
    /// A send that found the queue empty has not been followed by a completion yet.
    pub first_c: bool,
    /// Time of the last send that found the queue empty.
    pub first_complete_time: u64,
    /// `(lba, size, opcode)` of the previous send.
    pub prev_send: Option<(u64, u32, Seq<char>)>,
}

pub open spec fn ufs_scan_start() -> UfsScan {
    UfsScan {
        qd: 0,
        pending: Seq::empty(),
        last_complete: None,
        last_idle_complete: None,
        first_c: false,
        first_complete_time: 0,
        prev_send: None,
    }
}

/// A send continues the previous send when it starts where that one ended
/// and has the same opcode.
pub open spec fn ufs_continues(prev: Option<(u64, u32, Seq<char>)>, u: UFS) -> bool {
    match prev {
        Some(p) => u.lba == p.0 + p.1 && u.opcode@ == p.2,
        None => false,
    }
}

/// One event of the scan: the new scan state and the event with its queue
/// depth, latencies and continuity filled in.
pub open spec fn ufs_step(st: UfsScan, u: UFS) -> (UfsScan, UFS) {
    if u.action@ == "send_req"@ {
        let qd = st.qd + 1;
        let ctod = if qd == 1 && st.last_idle_complete is Some {
            u.time - st.last_idle_complete->0
        } else {
            u.ctod as int
        };
        (
            UfsScan {
                qd,
                pending: put_key(st.pending, (u.tag, u.opcode@), u.time),
                first_c: if qd == 1 { true } else { st.first_c },
                first_complete_time: if qd == 1 { u.time } else { st.first_complete_time },
                prev_send: Some((u.lba, u.size, u.opcode@)),
                ..st
            },
            UFS { continuous: ufs_continues(st.prev_send, u), ctod: ctod as i128, qd: qd as u32, ..u },
        )
    } else if u.action@ == "complete_rsp"@ {
        let qd = if st.qd > 0 { st.qd - 1 } else { 0 };
        let i = find_key(st.pending, (u.tag, u.opcode@));
        let dtoc = if i >= 0 { u.time - st.pending[i].1 } else { u.dtoc as int };
        let ctoc = if st.first_c {
            u.time - st.first_complete_time
        } else if st.last_complete is Some {
            u.time - st.last_complete->0
        } else {
            u.ctoc as int
        };
        (
            UfsScan {
                qd,
                pending: drop_key(st.pending, (u.tag, u.opcode@)),
                first_c: false,
                last_idle_complete: if qd == 0 { Some(u.time) } else { st.last_idle_complete },
                last_complete: Some(u.time),
                ..st
            },
            UFS { continuous: false, dtoc: dtoc as i128, ctoc: ctoc as i128, qd: qd as u32, ..u },
        )
    } else {
        (st, UFS { continuous: false, qd: st.qd as u32, ..u })
    }
}

/// The scan over `s`: the final state and the processed events.
pub open spec fn ufs_scan(s: Seq<UFS>) -> (UfsScan, Seq<UFS>)
    decreases s.len(),
{
    if s.len() == 0 {
        (ufs_scan_start(), Seq::empty())
    } else {
        let prev = ufs_scan(s.drop_last());
        let next = ufs_step(prev.0, s.last());
        (next.0, prev.1.push(next.1))
    }
}

/// Some event comes before the one ahead of it in time.
pub open spec fn ufs_needs_sort(s: Seq<UFS>) -> bool {
    exists|i: int| 1 <= i < s.len() && s[i - 1].time > #[trigger] s[i].time
}

/// The events ordered by time, equal times kept in their order.
pub open spec fn ufs_by_time(s: Seq<UFS>) -> Seq<UFS> {
    let order = time_order(s.map_values(|u: UFS| u.time));
    Seq::new(s.len(), |k: int| s[order[k]])
}

/// The events in the order in which they are processed.
pub open spec fn ufs_ordered(s: Seq<UFS>) -> Seq<UFS> {
    if ufs_needs_sort(s) {
        ufs_by_time(s)
    } else {
        s
    }
}

/// The result of the UFS latency post-processing of `s`.
pub open spec fn ufs_latency_spec(s: Seq<UFS>) -> Seq<UFS> {
    ufs_scan(ufs_ordered(s)).1
}

pub open spec fn pend_view(p: Seq<(u32, String, u64)>) -> Seq<((u32, Seq<char>), u64)> {
    p.map_values(|e: (u32, String, u64)| ((e.0, e.1@), e.2))
}

fn find_pending(p: &Vec<(u32, String, u64)>, tag: u32, op: &String) -> (r: Option<usize>)
    ensures
        match r {
            Some(i) => i < p.len() && find_key(pend_view(p@), (tag, op@)) == i,
            None => find_key(pend_view(p@), (tag, op@)) == -1,
        },
{
    let mut i: usize = 0;
    while i < p.len()
        invariant
            0 <= i <= p.len(),
            forall|j: int| 0 <= j < i ==> pend_view(p@)[j].0 != (tag, op@),
        decreases p.len() - i,
    {
        if p[i].0 == tag && str_eq(p[i].1.as_str(), op.as_str()) {
            proof {
                lemma_find_key_at(pend_view(p@), (tag, op@), i as int);
            }
            return Some(i);
        }
        assert(pend_view(p@)[i as int].0 != (tag, op@));
        i = i + 1;
    }
    proof {
        lemma_find_key_at(pend_view(p@), (tag, op@), i as int);
    }
    None
}

/// Runs the scan over events already in processing order.
fn ufs_scan_exec(list: Vec<UFS>) -> (r: Vec<UFS>)
    requires
        list.len() <= u32::MAX,
    ensures
        r@ == ufs_scan(list@).1,
{
    let ghost s = list@;
    let mut out: Vec<UFS> = Vec::new();
    let mut qd: u32 = 0;
    let mut pending: Vec<(u32, String, u64)> = Vec::new();
    let mut last_complete: Option<u64> = None;
    let mut last_idle_complete: Option<u64> = None;
    let mut first_c: bool = false;
    let mut first_complete_time: u64 = 0;
    let mut prev_send: Option<(u64, u32, String)> = None;
    for u in it: list
        invariant
            it.seq() == s,
            s.len() <= u32::MAX,
            qd <= it.index(),
            ({
                let sc = ufs_scan(s.take(it.index()));
                &&& out@ == sc.1
                &&& sc.0.qd == qd as int
                &&& sc.0.pending == pend_view(pending@)
                &&& sc.0.last_complete == last_complete
                &&& sc.0.last_idle_complete == last_idle_complete
                &&& sc.0.first_c == first_c
                &&& sc.0.first_complete_time == first_complete_time
                &&& sc.0.prev_send == (match prev_send {
                    Some(p) => Some((p.0, p.1, p.2@)),
                    None => None::<(u64, u32, Seq<char>)>,
                })
            }),
    {
        let ghost before = ufs_scan(s.take(it.index()));
        proof {
            assert(s.take(it.index() + 1).drop_last() =~= s.take(it.index()));
            assert(s.take(it.index() + 1).last() == u);
        }
        let ghost expected = ufs_step(before.0, u);
        let mut rec = u;
        if str_eq(rec.action.as_str(), "send_req") {
            let cont: bool = match &prev_send {
                Some(p) => {
                    let end: Option<u64> = p.0.checked_add(p.1 as u64);
                    match end {
                        Some(e) => rec.lba == e && str_eq(rec.opcode.as_str(), p.2.as_str()),
                        None => false,
                    }
                },
                None => false,
            };
            qd = qd + 1;
            if qd == 1 {
                match last_idle_complete {
                    Some(t) => {
                        rec.ctod = rec.time as i128 - t as i128;
                    },
                    None => {},
                }
                first_c = true;
                first_complete_time = rec.time;
            }
            let found = find_pending(&pending, rec.tag, &rec.opcode);
            match found {
                Some(i) => {
                    pending.set(i, (rec.tag, rec.opcode.clone(), rec.time));
                },
                None => {
                    pending.push((rec.tag, rec.opcode.clone(), rec.time));
                },
            }
            prev_send = Some((rec.lba, rec.size, rec.opcode.clone()));
            rec.continuous = cont;
            rec.qd = qd;
            proof {
                assert(pend_view(pending@) =~= expected.0.pending);
            }
        } else if str_eq(rec.action.as_str(), "complete_rsp") {
            qd = if qd > 0 { qd - 1 } else { 0 };
            let found = find_pending(&pending, rec.tag, &rec.opcode);
            match found {
                Some(i) => {
                    rec.dtoc = rec.time as i128 - pending[i].2 as i128;
                    pending.remove(i);
                },
                None => {},
            }
            if first_c {
                rec.ctoc = rec.time as i128 - first_complete_time as i128;
                first_c = false;
            } else {
                match last_complete {
                    Some(t) => {
                        rec.ctoc = rec.time as i128 - t as i128;
                    },
                    None => {},
                }
            }
            if qd == 0 {
                last_idle_complete = Some(rec.time);
            }
            last_complete = Some(rec.time);
            rec.continuous = false;
            rec.qd = qd;
            proof {
                assert(pend_view(pending@) =~= expected.0.pending);
            }
        } else {
            rec.continuous = false;
            rec.qd = qd;
        }
        out.push(rec);
    }
    proof {
        assert(s.take(s.len() as int) =~= s);
    }
    out
}

/// The events ordered by time, equal times kept in their order.
pub fn sort_ufs_by_time(list: &Vec<UFS>) -> (r: Vec<UFS>)
    ensures
        r@ == ufs_by_time(list@),
{
    let n: usize = list.len();
    let mut times: Vec<u64> = Vec::new();
    let mut k: usize = 0;
    while k < n
        invariant
            n == list.len(),
            0 <= k <= n,
            times@ == list@.map_values(|e: UFS| e.time).take(k as int),
        decreases n - k,
    {
        times.push(list[k].time);
        k = k + 1;
        assert(times@ =~= list@.map_values(|e: UFS| e.time).take(k as int));
    }
    assert(times@ =~= list@.map_values(|e: UFS| e.time));
    let order = order_by_time(&times);
    let mut v: Vec<UFS> = Vec::new();
    let mut k: usize = 0;
    while k < n
        invariant
            n == list.len(),
            order.len() == n,
            times@ == list@.map_values(|e: UFS| e.time),
            time_order(times@).len() == n,
            forall|q: int| 0 <= q < n ==> order@[q] < n,
            forall|q: int| 0 <= q < n ==> order@[q] as int == #[trigger] time_order(times@)[q],
            0 <= k <= n,
            v@ == ufs_by_time(list@).take(k as int),
        decreases n - k,
    {
        v.push(list[order[k]].duplicate());
        k = k + 1;
        assert(v@ =~= ufs_by_time(list@).take(k as int));
    }
    assert(v@ =~= ufs_by_time(list@));
    v
}

/// UFS latency post-processing: orders the events by time (when any of them
/// is out of order), then fills in the queue depth, the
/// dispatch/complete latencies and the continuity of each event.
pub fn ufs_bottom_half_latency_process(ufs_list: Vec<UFS>) -> (r: Vec<UFS>)
    requires
        ufs_list.len() <= u32::MAX,
    ensures
        r@ == ufs_latency_spec(ufs_list@),
{
    let n: usize = ufs_list.len();
    let mut needs_sort: bool = false;
    let mut i: usize = 1;
    while i < n && !needs_sort
        invariant
            n == ufs_list.len(),
            1 <= i,
            !needs_sort ==> forall|j: int| 1 <= j < i && j < n ==> ufs_list@[j - 1].time <= #[trigger] ufs_list@[j].time,
            needs_sort ==> (1 <= i < n && ufs_list@[i - 1].time > ufs_list@[i as int].time),
        decreases n - i + (if needs_sort { 0int } else { 1int }),
    {
        if ufs_list[i - 1].time > ufs_list[i].time {
            needs_sort = true;
        } else {
            i = i + 1;
        }
    }
    proof {
        if !needs_sort {
            assert(!ufs_needs_sort(ufs_list@));
        } else {
            assert(ufs_needs_sort(ufs_list@));
        }
    }
    let ordered: Vec<UFS> = if needs_sort {
        sort_ufs_by_time(&ufs_list)
    } else {
        ufs_list
    };
    ufs_scan_exec(ordered)
}

/// The value of the zoom column `col` of `u`, in the unit the library
/// holds; `None` for a column that cannot be zoomed.
pub open spec fn ufs_zoom_value(u: UFS, col: Seq<char>) -> Option<int> {
    if col == "lba"@ {
        Some(u.lba as int)
    } else if col == "dtoc"@ {
        Some(u.dtoc as int)
    } else if col == "ctoc"@ {
        Some(u.ctoc as int)
    } else if col == "ctod"@ {
        Some(u.ctod as int)
    } else if col == "qd"@ {
        Some(u.qd as int)
    } else if col == "cpu"@ {
        Some(u.cpu as int)
    } else {
        None
    }
}

/// `u` lies within the time bounds and the bounds of the zoom column, each
/// pair when it is in force.
pub open spec fn ufs_kept(u: UFS, tf: Option<i128>, tt: Option<i128>, col: Seq<char>, cf: Option<i128>, ct: Option<i128>) -> bool {
    &&& within(u.time as int, tf, tt)
    &&& range_active(cf, ct) ==> (ufs_zoom_value(u, col) matches Some(v) && cf->0 <= v <= ct->0)
}

/// The events of `s` that `ufs_kept` keeps, in order.
pub open spec fn ufs_filtered(s: Seq<UFS>, tf: Option<i128>, tt: Option<i128>, col: Seq<char>, cf: Option<i128>, ct: Option<i128>) -> Seq<UFS>
    decreases s.len(),
{
    if s.len() == 0 {
        Seq::empty()
    } else {
        let p = ufs_filtered(s.drop_last(), tf, tt, col, cf, ct);
        if ufs_kept(s.last(), tf, tt, col, cf, ct) {
            p.push(s.last())
        } else {
            p
        }
    }
}

fn in_bounds(v: i128, from: Option<i128>, to: Option<i128>) -> (r: bool)
    ensures
        r == within(v as int, from, to),
{
    match (from, to) {
        (Some(a), Some(b)) => (a == 0 && b == 0) || (a <= v && v <= b),
        _ => true,
    }
}

fn ufs_zoom_of(u: &UFS, code: u8) -> (r: Option<i128>)
    ensures
        code == 1 ==> r == Some(u.lba as i128),
        code == 2 ==> r == Some(u.dtoc),
        code == 3 ==> r == Some(u.ctoc),
        code == 4 ==> r == Some(u.ctod),
        code == 5 ==> r == Some(u.qd as i128),
        code == 6 ==> r == Some(u.cpu as i128),
        code == 0 || code > 6 ==> r is None,
{
    if code == 1 {
        Some(u.lba as i128)
    } else if code == 2 {
        Some(u.dtoc)
    } else if code == 3 {
        Some(u.ctoc)
    } else if code == 4 {
        Some(u.ctod)
    } else if code == 5 {
        Some(u.qd as i128)
    } else if code == 6 {
        Some(u.cpu as i128)
    } else {
        None
    }
}

/// Keeps the events within the time bounds (nanoseconds) and within the
/// bounds of the zoom column (`lba`, `dtoc`, `ctoc`, `ctod`, `qd` or `cpu`,
/// latencies in nanoseconds). A pair of bounds is in force when both are
/// given and not both zero; with the column bounds in force, an event of an
/// unknown column is dropped.
pub fn filter_ufs_data(
    list: &Vec<UFS>,
    time_from: Option<i128>,
    time_to: Option<i128>,
    zoom_column: &str,
    col_from: Option<i128>,
    col_to: Option<i128>,
) -> (r: Vec<UFS>)
    ensures
        r@ == ufs_filtered(list@, time_from, time_to, zoom_column@, col_from, col_to),
{
    let code: u8 = if str_eq(zoom_column, "lba") {
        1
    } else if str_eq(zoom_column, "dtoc") {
        2
    } else if str_eq(zoom_column, "ctoc") {
        3
    } else if str_eq(zoom_column, "ctod") {
        4
    } else if str_eq(zoom_column, "qd") {
        5
    } else if str_eq(zoom_column, "cpu") {
        6
    } else {
        0
    };
    proof {
        lemma_column_names_differ();
    }
    let col_active = match (col_from, col_to) {
        (Some(a), Some(b)) => !(a == 0 && b == 0),
        _ => false,
    };
    let mut out: Vec<UFS> = Vec::new();
    let mut i: usize = 0;
    while i < list.len()
        invariant
            0 <= i <= list.len(),
            col_active == range_active(col_from, col_to),
            code == 1 <==> zoom_column@ == "lba"@,
            code == 2 <==> zoom_column@ == "dtoc"@,
            code == 3 <==> zoom_column@ == "ctoc"@,
            code == 4 <==> zoom_column@ == "ctod"@,
            code == 5 <==> zoom_column@ == "qd"@,
            code == 6 <==> zoom_column@ == "cpu"@,
            code <= 6,
            out@ == ufs_filtered(list@.take(i as int), time_from, time_to, zoom_column@, col_from, col_to),
        decreases list.len() - i,
    {
        assert(list@.take(i + 1).drop_last() =~= list@.take(i as int));
        let u = &list[i];
        let mut keep = in_bounds(u.time as i128, time_from, time_to);
        if keep && col_active {
            keep = match ufs_zoom_of(u, code) {
                Some(v) => in_bounds(v, col_from, col_to),
                None => false,
            };
        }
        if keep {
            out.push(u.duplicate());
        }
        i = i + 1;
    }
    assert(list@.take(i as int) =~= list@);
    out
}

/// The latencies of the column `col` with the opcode of their event:
/// `dtoc` and `ctoc` of completions, `ctod` of sends.
pub open spec fn ufs_latency_items(s: Seq<UFS>, col: Seq<char>) -> Seq<(Seq<char>, i128)>
    decreases s.len(),
{
    if s.len() == 0 {
        Seq::empty()
    } else {
        let p = ufs_latency_items(s.drop_last(), col);
        let u = s.last();
        if (col == "dtoc"@ || col == "ctoc"@) && u.action@ == "complete_rsp"@ {
            p.push((u.opcode@, if col == "dtoc"@ { u.dtoc } else { u.ctoc }))
        } else if col == "ctod"@ && u.action@ == "send_req"@ {
            p.push((u.opcode@, u.ctod))
        } else {
            p
        }
    }
}

/// The sizes of the events that the column `col` concerns, with their
/// opcode: completions for `dtoc` and `ctoc`, sends for `ctod`.
pub open spec fn ufs_size_items(s: Seq<UFS>, col: Seq<char>) -> Seq<(Seq<char>, u32)>
    decreases s.len(),
{
    if s.len() == 0 {
        Seq::empty()
    } else {
        let p = ufs_size_items(s.drop_last(), col);
        let u = s.last();
        if ((col == "dtoc"@ || col == "ctoc"@) && u.action@ == "complete_rsp"@) || (col == "ctod"@ && u.action@ == "send_req"@) {
            p.push((u.opcode@, u.size))
        } else {
            p
        }
    }
}

/// The opcodes whose continuity is reported: read, write and unmap.
pub open spec fn ufs_continuity_opcode(op: Seq<char>) -> bool {
    op == "0x28"@ || op == "0x2a"@ || op == "0x42"@
}

/// The sends of the reported opcodes with their bytes and continuity.
pub open spec fn ufs_continuity_items(s: Seq<UFS>) -> Seq<(Seq<char>, u64, bool)>
    decreases s.len(),
{
    if s.len() == 0 {
        Seq::empty()
    } else {
        let p = ufs_continuity_items(s.drop_last());
        let u = s.last();
        if u.action@ == "send_req"@ && ufs_continuity_opcode(u.opcode@) {
            p.push((u.opcode@, (u.size * 4096) as u64, u.continuous))
        } else {
            p
        }
    }
}

/// Which latency a column names: 1 `dtoc`, 2 `ctoc`, 3 `ctod`, 0 none.
fn latency_column_code(column: &str) -> (r: u8)
    ensures
        r == 1 <==> column@ == "dtoc"@,
        r == 2 <==> column@ == "ctoc"@,
        r == 3 <==> column@ == "ctod"@,
        r <= 3,
{
    proof {
        lemma_column_names_differ();
    }
    if str_eq(column, "dtoc") {
        1
    } else if str_eq(column, "ctoc") {
        2
    } else if str_eq(column, "ctod") {
        3
    } else {
        0
    }
}

fn is_complete(u: &UFS) -> (r: bool)
    ensures
        r == (u.action@ == "complete_rsp"@),
{
    str_eq(u.action.as_str(), "complete_rsp")
}

fn is_send(u: &UFS) -> (r: bool)
    ensures
        r == (u.action@ == "send_req"@),
{
    str_eq(u.action.as_str(), "send_req")
}

/// The latency entries of `list` for the column coded `code`.
fn latency_items_of(list: &Vec<UFS>, column: &str, code: u8) -> (r: Vec<(String, i128)>)
    requires
        code == 1 <==> column@ == "dtoc"@,
        code == 2 <==> column@ == "ctoc"@,
        code == 3 <==> column@ == "ctod"@,
        code <= 3,
    ensures
        r.deep_view() == ufs_latency_items(list@, column@),
{
    let mut out: Vec<(String, i128)> = Vec::new();
    let mut i: usize = 0;
    while i < list.len()
        invariant
            code == 1 <==> column@ == "dtoc"@,
            code == 2 <==> column@ == "ctoc"@,
            code == 3 <==> column@ == "ctod"@,
            code <= 3,
            0 <= i <= list.len(),
            out.deep_view() == ufs_latency_items(list@.take(i as int), column@),
        decreases list.len() - i,
    {
        assert(list@.take(i + 1).drop_last() =~= list@.take(i as int));
        let u = &list[i];
        let ghost before = out.deep_view();
        if (code == 1 || code == 2) && is_complete(u) {
            let v = if code == 1 { u.dtoc } else { u.ctoc };
            out.push((u.opcode.clone(), v));
            assert(out.deep_view() =~= before.push((u.opcode@, v)));
        } else if code == 3 && is_send(u) {
            out.push((u.opcode.clone(), u.ctod));
            assert(out.deep_view() =~= before.push((u.opcode@, u.ctod)));
        }
        i = i + 1;
    }
    assert(list@.take(i as int) =~= list@);
    out
}

/// The range counts and values of one latency column (`dtoc`, `ctoc` or
/// `ctod`) for each opcode, opcodes in order of first appearance. The
/// thresholds are parsed first; an unknown column is an error.
pub fn latencystats(list: &Vec<UFS>, column: &str, thresholds: &Vec<String>) -> (r: Result<LatencyStats, String>)
    ensures
        ({
            let th = thresholds.deep_view();
            let valid = column@ == "dtoc"@ || column@ == "ctoc"@ || column@ == "ctod"@;
            let items = ufs_latency_items(list@, column@);
            match r {
                Err(e) => if !thresholds_ok(th) {
                    e@ == first_threshold_error(th)
                } else {
                    !valid && e@ == "Invalid column: "@ + column@
                },
                Ok(st) => thresholds_ok(th) && valid && latency_stats_fit(st,
                    distinct_texts(items.map_values(|e: (Seq<char>, i128)| e.0)), items,
                    threshold_values_spec(th), th),
            }
        }),
{
    let tv = parse_thresholds(thresholds)?;
    let code = latency_column_code(column);
    if code == 0 {
        return Err(concat2("Invalid column: ", column));
    }
    let items = latency_items_of(list, column, code);
    let keys = item_keys(&items);
    Ok(latency_stats(&keys, &items, &tv, thresholds))
}

/// The size distribution of the events that the column concerns, for each
/// opcode; no event for an unknown column.
pub fn sizestats(list: &Vec<UFS>, column: &str) -> (r: SizeStats)
    ensures
        ({
            let items = ufs_size_items(list@, column@);
            size_stats_fit(r, distinct_texts(items.map_values(|e: (Seq<char>, u32)| e.0)), items)
        }),
{
    let code = latency_column_code(column);
    let mut items: Vec<(String, u32)> = Vec::new();
    let mut i: usize = 0;
    while i < list.len()
        invariant
            code == 1 <==> column@ == "dtoc"@,
            code == 2 <==> column@ == "ctoc"@,
            code == 3 <==> column@ == "ctod"@,
            code <= 3,
            0 <= i <= list.len(),
            items.deep_view() == ufs_size_items(list@.take(i as int), column@),
        decreases list.len() - i,
    {
        assert(list@.take(i + 1).drop_last() =~= list@.take(i as int));
        let u = &list[i];
        if ((code == 1 || code == 2) && is_complete(u)) || (code == 3 && is_send(u)) {
            let ghost before = items.deep_view();
            items.push((u.opcode.clone(), u.size));
            assert(items.deep_view() =~= before.push((u.opcode@, u.size)));
        }
        i = i + 1;
    }
    assert(list@.take(i as int) =~= list@);
    let keys = size_item_keys(&items);
    size_stats(&keys, &items)
}

/// The continuity entries of `list`.
fn continuity_items_of(list: &Vec<UFS>) -> (r: Vec<(String, u64, bool)>)
    ensures
        r.deep_view() == ufs_continuity_items(list@),
{
    proof {
        reveal_strlit("0x28");
        reveal_strlit("0x2a");
        reveal_strlit("0x42");
    }
    let mut out: Vec<(String, u64, bool)> = Vec::new();
    let mut i: usize = 0;
    while i < list.len()
        invariant
            0 <= i <= list.len(),
            out.deep_view() == ufs_continuity_items(list@.take(i as int)),
        decreases list.len() - i,
    {
        assert(list@.take(i + 1).drop_last() =~= list@.take(i as int));
        let u = &list[i];
        let op = u.opcode.as_str();
        if is_send(u) && (str_eq(op, "0x28") || str_eq(op, "0x2a") || str_eq(op, "0x42")) {
            let ghost before = out.deep_view();
            let bytes: u64 = u.size as u64 * 4096;
            out.push((u.opcode.clone(), bytes, u.continuous));
            assert(out.deep_view() =~= before.push((u.opcode@, bytes, u.continuous)));
        }
        i = i + 1;
    }
    assert(list@.take(i as int) =~= list@);
    out
}

/// The bytes of the requests the continuity statistics count, in all.
pub fn continuity_bytes(list: &Vec<UFS>) -> (r: u128)
    ensures
        r == byte_sum(ufs_continuity_items(list@), None, false),
{
    let items = continuity_items_of(list);
    total_bytes(&items)
}

/// The continuity of the sends of read, write and unmap requests, for each
/// opcode and in all; the bytes of a request are its size times 4 KiB.
pub fn continuity_stats(list: &Vec<UFS>) -> (r: ContinuityStats)
    requires
        byte_sum(ufs_continuity_items(list@), None, false) <= u64::MAX,
    ensures
        continuity_fits(r, ufs_continuity_items(list@)),
{
    let items = continuity_items_of(list);
    continuity_counts(&items)
}

/// The opcodes of the events, in order.
pub open spec fn ufs_opcodes(s: Seq<UFS>) -> Seq<Seq<char>> {
    s.map_values(|u: UFS| u.opcode@)
}

/// The size of every event in KiB (four times its 4 KiB units), with its
/// opcode.
pub open spec fn ufs_kib_items(s: Seq<UFS>) -> Seq<(Seq<char>, u32)> {
    s.map_values(|u: UFS| (u.opcode@, (u.size * 4) as u32))
}

/// The distinct opcodes of `list`, in order of first appearance.
fn opcode_keys(list: &Vec<UFS>) -> (r: Vec<String>)
    ensures
        r.deep_view() == distinct_texts(ufs_opcodes(list@)),
{
    let mut names: Vec<String> = Vec::new();
    let mut i: usize = 0;
    while i < list.len()
        invariant
            0 <= i <= list.len(),
            names.deep_view() == ufs_opcodes(list@).take(i as int),
        decreases list.len() - i,
    {
        let ghost before = names.deep_view();
        names.push(list[i].opcode.clone());
        assert(names.deep_view() =~= before.push(list@[i as int].opcode@));
        i = i + 1;
        assert(names.deep_view() =~= ufs_opcodes(list@).take(i as int));
    }
    assert(ufs_opcodes(list@).take(i as int) =~= ufs_opcodes(list@));
    distinct_strings(&names)
}

/// All statistics of the events in one pass: range counts and values of
/// `dtoc`, `ctod` and `ctoc`, the size distribution in KiB and the
/// continuity, each for every opcode that occurs.
pub fn allstats(list: &Vec<UFS>, thresholds: &Vec<String>) -> (r: Result<TraceStats, String>)
    requires
        forall|i: int| 0 <= i < list.len() ==> (#[trigger] list@[i]).size <= u32::MAX / 4,
        byte_sum(ufs_continuity_items(list@), None, false) <= u64::MAX,
    ensures
        ({
            let th = thresholds.deep_view();
            let tv = threshold_values_spec(th);
            let keys = distinct_texts(ufs_opcodes(list@));
            match r {
                Err(e) => !thresholds_ok(th) && e@ == first_threshold_error(th),
                Ok(ts) => {
                    &&& thresholds_ok(th)
                    &&& latency_stats_fit(ts.dtoc_stat, keys, ufs_latency_items(list@, "dtoc"@), tv, th)
                    &&& latency_stats_fit(ts.ctod_stat, keys, ufs_latency_items(list@, "ctod"@), tv, th)
                    &&& latency_stats_fit(ts.ctoc_stat, keys, ufs_latency_items(list@, "ctoc"@), tv, th)
                    &&& size_stats_fit(ts.size_counts, keys, ufs_kib_items(list@))
                    &&& continuity_fits(ts.continuity, ufs_continuity_items(list@))
                },
            }
        }),
{
    let tv = parse_thresholds(thresholds)?;
    proof {
        lemma_column_names_differ();
    }
    let keys = opcode_keys(list);
    let dtoc_items = latency_items_of(list, "dtoc", 1);
    let ctod_items = latency_items_of(list, "ctod", 3);
    let ctoc_items = latency_items_of(list, "ctoc", 2);
    let mut sizes: Vec<(String, u32)> = Vec::new();
    let mut i: usize = 0;
    while i < list.len()
        invariant
            forall|q: int| 0 <= q < list.len() ==> (#[trigger] list@[q]).size <= u32::MAX / 4,
            0 <= i <= list.len(),
            sizes.deep_view() == ufs_kib_items(list@).take(i as int),
        decreases list.len() - i,
    {
        let ghost before = sizes.deep_view();
        let kib: u32 = list[i].size * 4;
        sizes.push((list[i].opcode.clone(), kib));
        assert(sizes.deep_view() =~= before.push((list@[i as int].opcode@, kib)));
        i = i + 1;
        assert(sizes.deep_view() =~= ufs_kib_items(list@).take(i as int));
    }
    assert(ufs_kib_items(list@).take(i as int) =~= ufs_kib_items(list@));
    let cont = continuity_items_of(list);
    Ok(TraceStats {
        dtoc_stat: latency_stats(&keys, &dtoc_items, &tv, thresholds),
        ctod_stat: latency_stats(&keys, &ctod_items, &tv, thresholds),
        ctoc_stat: latency_stats(&keys, &ctoc_items, &tv, thresholds),
        size_counts: size_stats(&keys, &sizes),
        continuity: continuity_counts(&cont),
    })
}

/// `a` is the event `b` with only its queue depth, latencies and
/// continuity possibly changed.
pub open spec fn ufs_same_event(a: UFS, b: UFS) -> bool {
    &&& a.time == b.time
    &&& a.process == b.process
    &&& a.cpu == b.cpu
    &&& a.action == b.action
    &&& a.tag == b.tag
    &&& a.opcode == b.opcode
    &&& a.lba == b.lba
    &&& a.size == b.size
    &&& a.groupid == b.groupid
    &&& a.hwqid == b.hwqid
}

proof fn lemma_ufs_scan_shape(s: Seq<UFS>)
    ensures
        ufs_scan(s).1.len() == s.len(),
        forall|i: int| 0 <= i < s.len() ==> ufs_same_event(#[trigger] ufs_scan(s).1[i], s[i]),
        forall|i: int| 0 <= i < s.len() && (#[trigger] ufs_scan(s).1[i]).continuous ==> s[i].action@ == "send_req"@,
    decreases s.len(),
{
    if s.len() > 0 {
        lemma_ufs_scan_shape(s.drop_last());
        let prev = ufs_scan(s.drop_last());
        assert forall|i: int| 0 <= i < s.len() implies ufs_same_event(#[trigger] ufs_scan(s).1[i], s[i]) by {
            if i < s.len() - 1 {
                assert(ufs_scan(s).1[i] == prev.1[i]);
                assert(s.drop_last()[i] == s[i]);
            }
        }
        assert forall|i: int| 0 <= i < s.len() && (#[trigger] ufs_scan(s).1[i]).continuous implies s[i].action@ == "send_req"@ by {
            if i < s.len() - 1 {
                assert(ufs_scan(s).1[i] == prev.1[i]);
                assert(s.drop_last()[i] == s[i]);
            }
        }
    }
}

/// The positions of the events in time order.
pub open spec fn ufs_time_order(s: Seq<UFS>) -> Seq<int> {
    time_order(s.map_values(|u: UFS| u.time))
}

/// Ordering UFS events by time keeps each event once, puts their times in
/// ascending order and keeps events of equal time in their order.
pub proof fn lemma_ufs_by_time(s: Seq<UFS>)
    requires
        s.len() <= usize::MAX,
    ensures
        ufs_by_time(s).len() == s.len(),
        forall|a: int, b: int| 0 <= a < b < s.len() ==> ufs_by_time(s)[a].time <= ufs_by_time(s)[b].time,
        forall|a: int, b: int| 0 <= a < b < s.len() && ufs_by_time(s)[a].time == ufs_by_time(s)[b].time
            ==> ufs_time_order(s)[a] < ufs_time_order(s)[b],
        forall|k: int| 0 <= k < s.len() ==> #[trigger] ufs_by_time(s)[k] == s[ufs_time_order(s)[k]],
        forall|a: int, b: int| 0 <= a < s.len() && 0 <= b < s.len() && a != b ==>
            #[trigger] ufs_time_order(s)[a] != #[trigger] ufs_time_order(s)[b],
        forall|k: int| 0 <= k < s.len() ==> 0 <= #[trigger] ufs_time_order(s)[k] < s.len(),
{
    let times = s.map_values(|u: UFS| u.time);
    lemma_time_order(times);
    let order = time_order(times);
    assert forall|a: int, b: int| 0 <= a < b < s.len() implies ufs_by_time(s)[a].time <= ufs_by_time(s)[b].time by {
        assert(times[order[a]] <= times[order[b]]);
    }
}

/// The UFS post-processing keeps every event: the result has one event for
/// each input event, in processing order, with only the queue depth, the
/// latencies and the continuity filled in; only sends can continue a
/// previous request.
pub proof fn lemma_ufs_latency_keeps_events(s: Seq<UFS>)
    requires
        s.len() <= usize::MAX,
    ensures
        ufs_latency_spec(s).len() == s.len(),
        forall|i: int| 0 <= i < s.len() ==> ufs_same_event(#[trigger] ufs_latency_spec(s)[i], ufs_ordered(s)[i]),
        forall|i: int| 0 <= i < s.len() && (#[trigger] ufs_latency_spec(s)[i]).continuous ==> ufs_latency_spec(s)[i].action@ == "send_req"@,
{
    lemma_ufs_by_time(s);
    assert(ufs_ordered(s).len() == s.len());
    lemma_ufs_scan_shape(ufs_ordered(s));
}


/// The event is a completion.
pub open spec fn is_ufs_complete(u: UFS) -> bool {
    u.action@ == "complete_rsp"@
}

/// The event is a send.
pub open spec fn is_ufs_send(u: UFS) -> bool {
    u.action@ == "send_req"@
}

proof fn lemma_ufs_actions_differ()
    ensures
        "send_req"@ != "complete_rsp"@,
{
    reveal_strlit("send_req");
    reveal_strlit("complete_rsp");
    assert("send_req"@.len() != "complete_rsp"@.len());
}

/// What the scan knows after `s`: the time of the last completion, and,
/// while a send that found the queue empty has had no completion yet, that
/// send.
proof fn lemma_ufs_scan_facts(s: Seq<UFS>)
    ensures
        ufs_scan(s).1.len() == s.len(),
        ufs_scan(s).0.last_complete is Some <==> exists|j: int| 0 <= j < s.len() && #[trigger] is_ufs_complete(s[j]),
        ufs_scan(s).0.last_complete is Some ==> exists|j: int| 0 <= j < s.len() && #[trigger] is_ufs_complete(s[j])
            && ufs_scan(s).0.last_complete->0 == s[j].time
            && forall|m: int| j < m < s.len() ==> !is_ufs_complete(#[trigger] s[m]),
        ufs_scan(s).0.first_c ==> exists|k: int| 0 <= k < s.len() && #[trigger] is_ufs_send(s[k])
            && ufs_scan(s).1[k].qd == 1
            && forall|m: int| k < m < s.len() ==> !is_ufs_complete(#[trigger] s[m]),
    decreases s.len(),
{
    lemma_ufs_actions_differ();
    if s.len() > 0 {
        let t = s.drop_last();
        lemma_ufs_scan_facts(t);
        let prev = ufs_scan(t);
        let e = s.last();
        let n = s.len() - 1;
        let st = ufs_scan(s).0;
        let r = ufs_scan(s).1;
        assert(forall|m: int| 0 <= m < n ==> #[trigger] s[m] == t[m]);
        assert(forall|m: int| 0 <= m < n ==> #[trigger] r[m] == prev.1[m]);
        if is_ufs_complete(e) {
            assert(is_ufs_complete(s[n]));
        } else {
            assert(st.last_complete == prev.0.last_complete);
            if prev.0.last_complete is Some {
                let j = choose|j: int| 0 <= j < t.len() && #[trigger] is_ufs_complete(t[j])
                    && prev.0.last_complete->0 == t[j].time
                    && forall|m: int| j < m < t.len() ==> !is_ufs_complete(#[trigger] t[m]);
                assert(is_ufs_complete(s[j]));
                assert forall|m: int| j < m < s.len() implies !is_ufs_complete(#[trigger] s[m]) by {
                    if m < n {
                        assert(!is_ufs_complete(t[m]));
                    }
                }
            }
            if exists|j: int| 0 <= j < s.len() && #[trigger] is_ufs_complete(s[j]) {
                let j = choose|j: int| 0 <= j < s.len() && #[trigger] is_ufs_complete(s[j]);
                assert(j < n);
                assert(is_ufs_complete(t[j]));
            }
            if is_ufs_send(e) && prev.0.qd + 1 == 1 {
                assert(r[n].qd == 1);
                assert(is_ufs_send(s[n]));
            } else if st.first_c {
                assert(prev.0.first_c);
                let k = choose|k: int| 0 <= k < t.len() && #[trigger] is_ufs_send(t[k])
                    && prev.1[k].qd == 1
                    && forall|m: int| k < m < t.len() ==> !is_ufs_complete(#[trigger] t[m]);
                assert(is_ufs_send(s[k]));
                assert forall|m: int| k < m < s.len() implies !is_ufs_complete(#[trigger] s[m]) by {
                    if m < n {
                        assert(!is_ufs_complete(t[m]));
                    }
                }
            }
        }
    }
}

proof fn lemma_ufs_scan_prefix(s: Seq<UFS>, n: int)
    requires
        0 <= n <= s.len(),
    ensures
        ufs_scan(s.take(n)).1 == ufs_scan(s).1.take(n),
    decreases s.len(),
{
    lemma_ufs_scan_shape(s);
    if n == s.len() {
        assert(s.take(n) =~= s);
        assert(ufs_scan(s).1.take(n) =~= ufs_scan(s).1);
    } else {
        lemma_ufs_scan_prefix(s.drop_last(), n);
        assert(s.drop_last().take(n) =~= s.take(n));
        lemma_ufs_scan_shape(s.drop_last());
        assert(ufs_scan(s).1.take(n) =~= ufs_scan(s.drop_last()).1.take(n));
    }
}

/// Complete-to-complete latency: a completion that is not the first one
/// after a send found the queue empty (no such send, with queue depth 1
/// after it, lies between it and the completion before it) gets as `ctoc`
/// the time since the most recent earlier completion, in processing order.
pub proof fn lemma_ufs_ctoc_since_previous_completion(list: Seq<UFS>, i: int, j: int)
    requires
        0 <= j < i < ufs_ordered(list).len(),
        is_ufs_complete(ufs_ordered(list)[i]),
        is_ufs_complete(ufs_ordered(list)[j]),
        forall|m: int| j < m < i ==> !is_ufs_complete(#[trigger] ufs_ordered(list)[m]),
        forall|m: int| j < m < i && is_ufs_send(#[trigger] ufs_ordered(list)[m]) ==> ufs_latency_spec(list)[m].qd != 1,
    ensures
        ufs_latency_spec(list)[i].ctoc == ufs_ordered(list)[i].time - ufs_ordered(list)[j].time,
{
    let s = ufs_ordered(list);
    let r = ufs_latency_spec(list);
    lemma_ufs_actions_differ();
    lemma_ufs_scan_shape(s);
    let p = s.take(i);
    lemma_ufs_scan_facts(p);
    lemma_ufs_scan_prefix(s, i);
    lemma_ufs_scan_prefix(s, i + 1);
    assert(s.take(i + 1).drop_last() =~= p);
    assert(s.take(i + 1).last() == s[i]);
    let st = ufs_scan(p).0;
    assert(r[i] == ufs_scan(s.take(i + 1)).1[i]);
    assert(ufs_scan(s.take(i + 1)).1[i] == ufs_step(st, s[i]).1);
    assert(is_ufs_complete(p[j]));
    let w = choose|w: int| 0 <= w < p.len() && #[trigger] is_ufs_complete(p[w])
        && st.last_complete->0 == p[w].time
        && forall|m: int| w < m < p.len() ==> !is_ufs_complete(#[trigger] p[m]);
    if w < j {
        assert(!is_ufs_complete(p[j]));
    }
    if w > j {
        assert(!is_ufs_complete(s[w]));
    }
    assert(w == j);
    if st.first_c {
        let k = choose|k: int| 0 <= k < p.len() && #[trigger] is_ufs_send(p[k])
            && ufs_scan(p).1[k].qd == 1
            && forall|m: int| k < m < p.len() ==> !is_ufs_complete(#[trigger] p[m]);
        if k < j {
            assert(!is_ufs_complete(p[j]));
        }
        assert(k != j);
        assert(ufs_scan(p).1[k] == r[k]);
        assert(is_ufs_send(s[k]));
        assert(false);
    }
}


/// The latency entries of the statistics are exactly the completions, in
/// order, with their opcode and `dtoc` (for column `dtoc`) or `ctoc` (for
/// column `ctoc`), and the sends with their opcode and `ctod` (for column
/// `ctod`).
pub proof fn lemma_ufs_latency_items_are_the_column(s: Seq<UFS>)
    ensures
        ufs_latency_items(s, "dtoc"@)
            == s.filter(|u: UFS| is_ufs_complete(u)).map_values(|u: UFS| (u.opcode@, u.dtoc)),
        ufs_latency_items(s, "ctoc"@)
            == s.filter(|u: UFS| is_ufs_complete(u)).map_values(|u: UFS| (u.opcode@, u.ctoc)),
        ufs_latency_items(s, "ctod"@)
            == s.filter(|u: UFS| is_ufs_send(u)).map_values(|u: UFS| (u.opcode@, u.ctod)),
    decreases s.len(),
{
    lemma_column_names_differ();
    reveal(Seq::filter);
    if s.len() == 0 {
        assert(s.filter(|u: UFS| is_ufs_complete(u)) =~= Seq::<UFS>::empty());
        assert(s.filter(|u: UFS| is_ufs_send(u)) =~= Seq::<UFS>::empty());
        assert(ufs_latency_items(s, "dtoc"@) =~= s.filter(|u: UFS| is_ufs_complete(u)).map_values(|u: UFS| (u.opcode@, u.dtoc)));
        assert(ufs_latency_items(s, "ctoc"@) =~= s.filter(|u: UFS| is_ufs_complete(u)).map_values(|u: UFS| (u.opcode@, u.ctoc)));
        assert(ufs_latency_items(s, "ctod"@) =~= s.filter(|u: UFS| is_ufs_send(u)).map_values(|u: UFS| (u.opcode@, u.ctod)));
    } else {
        let t = s.drop_last();
        lemma_ufs_latency_items_are_the_column(t);
        let fc = t.filter(|u: UFS| is_ufs_complete(u));
        let fs = t.filter(|u: UFS| is_ufs_send(u));
        let e = s.last();
        if is_ufs_complete(e) {
            assert(s.filter(|u: UFS| is_ufs_complete(u)) == fc.push(e));
            assert(fc.push(e).map_values(|u: UFS| (u.opcode@, u.dtoc)) =~= fc.map_values(|u: UFS| (u.opcode@, u.dtoc)).push((e.opcode@, e.dtoc)));
            assert(fc.push(e).map_values(|u: UFS| (u.opcode@, u.ctoc)) =~= fc.map_values(|u: UFS| (u.opcode@, u.ctoc)).push((e.opcode@, e.ctoc)));
        } else {
            assert(s.filter(|u: UFS| is_ufs_complete(u)) == fc);
        }
        if is_ufs_send(e) {
            assert(s.filter(|u: UFS| is_ufs_send(u)) == fs.push(e));
            assert(fs.push(e).map_values(|u: UFS| (u.opcode@, u.ctod)) =~= fs.map_values(|u: UFS| (u.opcode@, u.ctod)).push((e.opcode@, e.ctod)));
        } else {
            assert(s.filter(|u: UFS| is_ufs_send(u)) == fs);
        }
    }
}

/// Zooming on a latency column keeps an event within the time bounds
/// exactly when that latency field of the event lies within the column
/// bounds (when they are in force): `ctoc` for column `ctoc`, `ctod` for
/// `ctod`, `dtoc` for `dtoc`; the events kept stay in order.
pub proof fn lemma_ufs_filter_by_latency(s: Seq<UFS>, tf: Option<i128>, tt: Option<i128>, cf: Option<i128>, ct: Option<i128>)
    ensures
        ufs_filtered(s, tf, tt, "ctoc"@, cf, ct) == s.filter(|u: UFS| within(u.time as int, tf, tt)
            && (range_active(cf, ct) ==> cf->0 <= u.ctoc && u.ctoc <= ct->0)),
        ufs_filtered(s, tf, tt, "ctod"@, cf, ct) == s.filter(|u: UFS| within(u.time as int, tf, tt)
            && (range_active(cf, ct) ==> cf->0 <= u.ctod && u.ctod <= ct->0)),
        ufs_filtered(s, tf, tt, "dtoc"@, cf, ct) == s.filter(|u: UFS| within(u.time as int, tf, tt)
            && (range_active(cf, ct) ==> cf->0 <= u.dtoc && u.dtoc <= ct->0)),
    decreases s.len(),
{
    lemma_column_names_differ();
    reveal(Seq::filter);
    if s.len() == 0 {
        assert(ufs_filtered(s, tf, tt, "ctoc"@, cf, ct) =~= s.filter(|u: UFS| within(u.time as int, tf, tt)
            && (range_active(cf, ct) ==> cf->0 <= u.ctoc && u.ctoc <= ct->0)));
        assert(ufs_filtered(s, tf, tt, "ctod"@, cf, ct) =~= s.filter(|u: UFS| within(u.time as int, tf, tt)
            && (range_active(cf, ct) ==> cf->0 <= u.ctod && u.ctod <= ct->0)));
        assert(ufs_filtered(s, tf, tt, "dtoc"@, cf, ct) =~= s.filter(|u: UFS| within(u.time as int, tf, tt)
            && (range_active(cf, ct) ==> cf->0 <= u.dtoc && u.dtoc <= ct->0)));
    } else {
        lemma_ufs_filter_by_latency(s.drop_last(), tf, tt, cf, ct);
    }
}


/// Filtering UFS events by the other zoom columns: with the column bounds
/// in force, an event within the time bounds is kept exactly when its
/// `lba`, `qd` or `cpu` (the one named) lies within the column bounds;
/// with a column that cannot be zoomed, no event is kept while the column
/// bounds are in force, and the time bounds alone decide otherwise.
pub proof fn lemma_ufs_filter_by_column(s: Seq<UFS>, tf: Option<i128>, tt: Option<i128>, col: Seq<char>, cf: Option<i128>, ct: Option<i128>)
    ensures
        col == "lba"@ ==> ufs_filtered(s, tf, tt, col, cf, ct) == s.filter(|u: UFS| within(u.time as int, tf, tt)
            && (range_active(cf, ct) ==> cf->0 <= u.lba && u.lba <= ct->0)),
        col == "qd"@ ==> ufs_filtered(s, tf, tt, col, cf, ct) == s.filter(|u: UFS| within(u.time as int, tf, tt)
            && (range_active(cf, ct) ==> cf->0 <= u.qd && u.qd <= ct->0)),
        col == "cpu"@ ==> ufs_filtered(s, tf, tt, col, cf, ct) == s.filter(|u: UFS| within(u.time as int, tf, tt)
            && (range_active(cf, ct) ==> cf->0 <= u.cpu && u.cpu <= ct->0)),
        col != "lba"@ && col != "dtoc"@ && col != "ctoc"@ && col != "ctod"@ && col != "qd"@ && col != "cpu"@
            ==> ufs_filtered(s, tf, tt, col, cf, ct) == s.filter(|u: UFS| within(u.time as int, tf, tt) && !range_active(cf, ct)),
    decreases s.len(),
{
    lemma_column_names_differ();
    reveal(Seq::filter);
    if s.len() == 0 {
        assert(ufs_filtered(s, tf, tt, col, cf, ct) =~= Seq::<UFS>::empty());
        assert(s.filter(|u: UFS| within(u.time as int, tf, tt)
            && (range_active(cf, ct) ==> cf->0 <= u.lba && u.lba <= ct->0)) =~= Seq::<UFS>::empty());
        assert(s.filter(|u: UFS| within(u.time as int, tf, tt)
            && (range_active(cf, ct) ==> cf->0 <= u.qd && u.qd <= ct->0)) =~= Seq::<UFS>::empty());
        assert(s.filter(|u: UFS| within(u.time as int, tf, tt)
            && (range_active(cf, ct) ==> cf->0 <= u.cpu && u.cpu <= ct->0)) =~= Seq::<UFS>::empty());
        assert(s.filter(|u: UFS| within(u.time as int, tf, tt) && !range_active(cf, ct)) =~= Seq::<UFS>::empty());
    } else {
        lemma_ufs_filter_by_column(s.drop_last(), tf, tt, col, cf, ct);
    }
}

/// What the scan knows after `s` about sends: each send's depth is the
/// depth after it, a send that found a request outstanding keeps its
/// `ctod`, the previous send, and the last completion that left the queue
/// empty.
proof fn lemma_ufs_scan_send_facts(t: Seq<UFS>)
    requires
        t.len() <= u32::MAX,
    ensures
        ufs_scan(t).1.len() == t.len(),
        0 <= ufs_scan(t).0.qd <= t.len(),
        forall|k: int| 0 <= k < t.len() ==> (#[trigger] ufs_scan(t).1[k]).qd <= k + 1,
        forall|k: int| 0 <= k < t.len() && is_ufs_send(t[k]) && (#[trigger] ufs_scan(t).1[k]).qd != 1
            ==> ufs_scan(t).1[k].ctod == t[k].ctod,
        ufs_scan(t).0.last_idle_complete is Some ==> exists|j: int| 0 <= j < t.len()
            && #[trigger] is_ufs_complete(t[j]) && ufs_scan(t).1[j].qd == 0
            && ufs_scan(t).0.last_idle_complete->0 == t[j].time
            && forall|m: int| j < m < t.len() && is_ufs_complete(#[trigger] t[m]) ==> ufs_scan(t).1[m].qd != 0,
        (exists|j: int| 0 <= j < t.len() && #[trigger] is_ufs_complete(t[j]) && ufs_scan(t).1[j].qd == 0)
            ==> ufs_scan(t).0.last_idle_complete is Some,
        forall|k: int| 0 <= k < t.len() && is_ufs_send(t[k]) && (#[trigger] ufs_scan(t).1[k]).qd == 1
            && (forall|m: int| k < m < t.len() ==> !is_ufs_complete(#[trigger] t[m]))
            ==> ufs_scan(t).0.first_c && ufs_scan(t).0.first_complete_time == t[k].time && ufs_scan(t).0.qd >= 1,
        ufs_scan(t).0.prev_send is None ==> forall|k: int| 0 <= k < t.len() ==> !is_ufs_send(#[trigger] t[k]),
        ufs_scan(t).0.prev_send is Some ==> exists|k: int| 0 <= k < t.len() && #[trigger] is_ufs_send(t[k])
            && ufs_scan(t).0.prev_send->0 == (t[k].lba, t[k].size, t[k].opcode@)
            && forall|m: int| k < m < t.len() ==> !is_ufs_send(#[trigger] t[m]),
    decreases t.len(),
{
    lemma_ufs_actions_differ();
    if t.len() > 0 {
        let p = t.drop_last();
        lemma_ufs_scan_send_facts(p);
        let n = t.len() - 1;
        let prev = ufs_scan(p);
        let st = ufs_scan(t).0;
        let r = ufs_scan(t).1;
        let e = t.last();
        assert(forall|m: int| 0 <= m < n ==> #[trigger] t[m] == p[m]);
        assert(forall|m: int| 0 <= m < n ==> #[trigger] r[m] == prev.1[m]);
        assert(r[n] == ufs_step(prev.0, e).1);
        if is_ufs_complete(e) {
            let q = if prev.0.qd > 0 { prev.0.qd - 1 } else { 0 };
            assert(r[n].qd == q as u32);
            assert(r[n].qd == q);
            assert(st.prev_send == prev.0.prev_send);
            if q != 0 {
                assert(st.last_idle_complete == prev.0.last_idle_complete);
                if exists|j: int| 0 <= j < t.len() && #[trigger] is_ufs_complete(t[j]) && r[j].qd == 0 {
                    let j = choose|j: int| 0 <= j < t.len() && #[trigger] is_ufs_complete(t[j]) && r[j].qd == 0;
                    assert(j < n);
                    assert(is_ufs_complete(p[j]) && prev.1[j].qd == 0);
                }
                if st.last_idle_complete is Some {
                    let j = choose|j: int| 0 <= j < p.len()
                        && #[trigger] is_ufs_complete(p[j]) && prev.1[j].qd == 0
                        && prev.0.last_idle_complete->0 == p[j].time
                        && forall|m: int| j < m < p.len() && is_ufs_complete(#[trigger] p[m]) ==> prev.1[m].qd != 0;
                    assert(is_ufs_complete(t[j]));
                    assert forall|m: int| j < m < t.len() && is_ufs_complete(#[trigger] t[m]) implies r[m].qd != 0 by {
                        if m < n {
                            assert(is_ufs_complete(p[m]));
                        }
                    }
                }
            } else {
                assert(is_ufs_complete(t[n]) && r[n].qd == 0);
            }
        } else {
            assert(st.last_idle_complete == prev.0.last_idle_complete);
            if is_ufs_send(e) {
                assert(r[n].qd == (prev.0.qd + 1) as u32);
                assert(r[n].qd == prev.0.qd + 1);
                assert(is_ufs_send(t[n]));
            } else {
                assert(r[n].qd == prev.0.qd as u32);
                assert(st.prev_send == prev.0.prev_send);
            }
            if exists|j: int| 0 <= j < t.len() && #[trigger] is_ufs_complete(t[j]) && r[j].qd == 0 {
                let j = choose|j: int| 0 <= j < t.len() && #[trigger] is_ufs_complete(t[j]) && r[j].qd == 0;
                assert(j < n);
                assert(is_ufs_complete(p[j]) && prev.1[j].qd == 0);
            }
            if st.last_idle_complete is Some {
                let j = choose|j: int| 0 <= j < p.len()
                    && #[trigger] is_ufs_complete(p[j]) && prev.1[j].qd == 0
                    && prev.0.last_idle_complete->0 == p[j].time
                    && forall|m: int| j < m < p.len() && is_ufs_complete(#[trigger] p[m]) ==> prev.1[m].qd != 0;
                assert(is_ufs_complete(t[j]));
                assert forall|m: int| j < m < t.len() && is_ufs_complete(#[trigger] t[m]) implies r[m].qd != 0 by {
                    if m < n {
                        assert(is_ufs_complete(p[m]));
                    }
                }
            }
        }
        if !is_ufs_send(e) {
            if st.prev_send is Some {
                let k = choose|k: int| 0 <= k < p.len() && #[trigger] is_ufs_send(p[k])
                    && prev.0.prev_send->0 == (p[k].lba, p[k].size, p[k].opcode@)
                    && forall|m: int| k < m < p.len() ==> !is_ufs_send(#[trigger] p[m]);
                assert(is_ufs_send(t[k]));
                assert forall|m: int| k < m < t.len() implies !is_ufs_send(#[trigger] t[m]) by {
                    if m < n {
                        assert(!is_ufs_send(p[m]));
                    }
                }
            } else {
                assert forall|k: int| 0 <= k < t.len() implies !is_ufs_send(#[trigger] t[k]) by {
                    if k < n {
                        assert(!is_ufs_send(p[k]));
                    }
                }
            }
        }
        assert forall|k: int| 0 <= k < t.len() && is_ufs_send(t[k]) && (#[trigger] r[k]).qd != 1
            implies r[k].ctod == t[k].ctod by {
            if k < n {
                assert(is_ufs_send(p[k]) && prev.1[k].qd != 1);
            }
        }
        assert forall|k: int| 0 <= k < t.len() && is_ufs_send(t[k]) && (#[trigger] r[k]).qd == 1
            && (forall|m: int| k < m < t.len() ==> !is_ufs_complete(#[trigger] t[m]))
            implies st.first_c && st.first_complete_time == t[k].time && st.qd >= 1 by {
            if k < n {
                assert(!is_ufs_complete(t[n]));
                assert(is_ufs_send(p[k]) && prev.1[k].qd == 1);
                assert forall|m: int| k < m < p.len() implies !is_ufs_complete(#[trigger] p[m]) by {
                    assert(!is_ufs_complete(t[m]));
                }
            } else {
                assert(r[n].qd == (prev.0.qd + 1) as u32);
            }
        }
    }
}

/// Complete-to-dispatch latency and continuity of UFS sends, in processing
/// order: a send that found a request already outstanding (queue depth
/// above 1 after it) keeps the `ctod` it came with; a send that found the
/// queue empty gets the time since the last completion that left the
/// queue empty. A send continues the request of the send before it exactly
/// when it starts at that request's end address with the same opcode; the
/// first send continues nothing.
pub proof fn lemma_ufs_send_ctod_and_continuity(list: Seq<UFS>, i: int, j: int)
    requires
        list.len() <= u32::MAX,
    ensures
        ({
            let t = ufs_ordered(list);
            let r = ufs_latency_spec(list);
            &&& r.len() == t.len()
            &&& forall|k: int| 0 <= k < t.len() && is_ufs_send(t[k]) && (#[trigger] r[k]).qd > 1 ==> r[k].ctod == t[k].ctod
            &&& (0 <= j < i < t.len() && is_ufs_send(t[i]) && r[i].qd == 1
                && is_ufs_complete(t[j]) && r[j].qd == 0
                && (forall|m: int| j < m < i && is_ufs_complete(#[trigger] t[m]) ==> r[m].qd != 0))
                ==> r[i].ctod == t[i].time - t[j].time
            &&& (0 <= j < i < t.len() && is_ufs_send(t[i]) && is_ufs_send(t[j])
                && (forall|m: int| j < m < i ==> !is_ufs_send(#[trigger] t[m])))
                ==> r[i].continuous == (t[i].lba == t[j].lba + t[j].size && t[i].opcode@ == t[j].opcode@)
            &&& (0 <= i < t.len() && is_ufs_send(t[i]) && (forall|m: int| 0 <= m < i ==> !is_ufs_send(#[trigger] t[m])))
                ==> !r[i].continuous
        }),
{
    let t = ufs_ordered(list);
    lemma_ufs_by_time(list);
    assert(t.len() == list.len());
    lemma_ufs_scan_send_facts(t);
    if 0 <= j < i < t.len() {
        lemma_ufs_ctod_idle_at(t, i, j);
        lemma_ufs_continuity_at(t, i, j);
    }
    if 0 <= i < t.len() {
        lemma_ufs_first_send_at(t, i);
    }
}


/// Complete-to-complete latency of the first completion after a send found
/// the queue empty: its `ctoc` is the time since that send.
pub proof fn lemma_ufs_ctoc_first_completion(list: Seq<UFS>, i: int, k: int)
    requires
        list.len() <= u32::MAX,
        0 <= k < i < ufs_ordered(list).len(),
        is_ufs_complete(ufs_ordered(list)[i]),
        is_ufs_send(ufs_ordered(list)[k]),
        ufs_latency_spec(list)[k].qd == 1,
        forall|m: int| k < m < i ==> !is_ufs_complete(#[trigger] ufs_ordered(list)[m]),
    ensures
        ufs_latency_spec(list)[i].ctoc == ufs_ordered(list)[i].time - ufs_ordered(list)[k].time,
{
    let t = ufs_ordered(list);
    let r = ufs_latency_spec(list);
    lemma_ufs_by_time(list);
    lemma_ufs_actions_differ();
    assert(t.len() == list.len());
    lemma_ufs_scan_shape(t);
    let p = t.take(i);
    lemma_ufs_scan_prefix(t, i);
    lemma_ufs_scan_prefix(t, i + 1);
    assert(t.take(i + 1).drop_last() =~= p);
    assert(t.take(i + 1).last() == t[i]);
    let st = ufs_scan(p).0;
    assert(r[i] == ufs_scan(t.take(i + 1)).1[i]);
    assert(r[i] == ufs_step(st, t[i]).1);
    assert(ufs_scan(p).1[k] == r[k]);
    assert(is_ufs_send(p[k]));
    assert forall|m: int| k < m < p.len() implies !is_ufs_complete(#[trigger] p[m]) by {
        assert(!is_ufs_complete(t[m]));
    }
    lemma_ufs_first_c_at(p, k);
    assert(st.first_c);
    assert(ufs_step(st, t[i]).1.ctoc == t[i].time - st.first_complete_time);
}


proof fn lemma_ufs_first_c_at(p: Seq<UFS>, k: int)
    requires
        p.len() <= u32::MAX,
        0 <= k < p.len(),
        is_ufs_send(p[k]),
        ufs_scan(p).1[k].qd == 1,
        forall|m: int| k < m < p.len() ==> !is_ufs_complete(#[trigger] p[m]),
    ensures
        ufs_scan(p).0.first_c,
        ufs_scan(p).0.first_complete_time == p[k].time,
{
    lemma_ufs_scan_send_facts(p);
}


/// The key under which a send is matched with its completion.
pub open spec fn ufs_key(u: UFS) -> (u32, Seq<char>) {
    (u.tag, u.opcode@)
}

/// What the scan holds for key `key` after `t`: the time of the latest send
/// with that key when no send or completion with that key followed it.
proof fn lemma_ufs_scan_pending(t: Seq<UFS>, key: (u32, Seq<char>))
    ensures
        keys_unique(ufs_scan(t).0.pending),
        key_value(ufs_scan(t).0.pending, key) is Some ==> exists|k: int| 0 <= k < t.len()
            && #[trigger] is_ufs_send(t[k]) && ufs_key(t[k]) == key
            && key_value(ufs_scan(t).0.pending, key)->0 == t[k].time
            && forall|m: int| k < m < t.len() && (is_ufs_send(#[trigger] t[m]) || is_ufs_complete(t[m])) ==> ufs_key(t[m]) != key,
        forall|k: int| 0 <= k < t.len() && #[trigger] is_ufs_send(t[k]) && ufs_key(t[k]) == key
            && (forall|m: int| k < m < t.len() && (is_ufs_send(#[trigger] t[m]) || is_ufs_complete(t[m])) ==> ufs_key(t[m]) != key)
            ==> key_value(ufs_scan(t).0.pending, key) == Some(t[k].time),
    decreases t.len(),
{
    lemma_ufs_actions_differ();
    if t.len() > 0 {
        let p = t.drop_last();
        lemma_ufs_scan_pending(p, key);
        let n = t.len() - 1;
        let prev = ufs_scan(p);
        let st = ufs_scan(t).0;
        let e = t.last();
        assert(forall|m: int| 0 <= m < n ==> #[trigger] t[m] == p[m]);
        assert(st == ufs_step(prev.0, e).0);
        if is_ufs_send(e) {
            lemma_put_key_value(prev.0.pending, ufs_key(e), e.time, key);
            assert(st.pending == put_key(prev.0.pending, ufs_key(e), e.time));
        } else if is_ufs_complete(e) {
            lemma_drop_key_value(prev.0.pending, ufs_key(e), key);
            assert(st.pending == drop_key(prev.0.pending, ufs_key(e)));
        } else {
            assert(st.pending == prev.0.pending);
        }
        let touched = (is_ufs_send(e) || is_ufs_complete(e)) && ufs_key(e) == key;
        if !touched {
            assert(key_value(st.pending, key) == key_value(prev.0.pending, key));
            if key_value(st.pending, key) is Some {
                let k = choose|k: int| 0 <= k < p.len()
                    && #[trigger] is_ufs_send(p[k]) && ufs_key(p[k]) == key
                    && key_value(prev.0.pending, key)->0 == p[k].time
                    && forall|m: int| k < m < p.len() && (is_ufs_send(#[trigger] p[m]) || is_ufs_complete(p[m])) ==> ufs_key(p[m]) != key;
                assert(is_ufs_send(t[k]));
                assert forall|m: int| k < m < t.len() && (is_ufs_send(#[trigger] t[m]) || is_ufs_complete(t[m])) implies ufs_key(t[m]) != key by {
                    if m < n {
                        assert(is_ufs_send(p[m]) || is_ufs_complete(p[m]));
                    }
                }
            }
            assert forall|k: int| 0 <= k < t.len() && #[trigger] is_ufs_send(t[k]) && ufs_key(t[k]) == key
                && (forall|m: int| k < m < t.len() && (is_ufs_send(#[trigger] t[m]) || is_ufs_complete(t[m])) ==> ufs_key(t[m]) != key)
                implies key_value(st.pending, key) == Some(t[k].time) by {
                assert(k < n);
                assert(is_ufs_send(p[k]));
                assert forall|m: int| k < m < p.len() && (is_ufs_send(#[trigger] p[m]) || is_ufs_complete(p[m])) implies ufs_key(p[m]) != key by {
                    assert(is_ufs_send(t[m]) || is_ufs_complete(t[m]));
                }
            }
        } else if is_ufs_send(e) {
            assert(key_value(st.pending, key) == Some(e.time));
            assert(is_ufs_send(t[n]));
            assert forall|k: int| 0 <= k < t.len() && #[trigger] is_ufs_send(t[k]) && ufs_key(t[k]) == key
                && (forall|m: int| k < m < t.len() && (is_ufs_send(#[trigger] t[m]) || is_ufs_complete(t[m])) ==> ufs_key(t[m]) != key)
                implies key_value(st.pending, key) == Some(t[k].time) by {
                if k < n {
                    assert(is_ufs_send(t[n]));
                }
            }
        } else {
            assert(key_value(st.pending, key) is None);
            assert forall|k: int| 0 <= k < t.len() && #[trigger] is_ufs_send(t[k]) && ufs_key(t[k]) == key
                && (forall|m: int| k < m < t.len() && (is_ufs_send(#[trigger] t[m]) || is_ufs_complete(t[m])) ==> ufs_key(t[m]) != key)
                implies key_value(st.pending, key) == Some(t[k].time) by {
                assert(is_ufs_complete(t[n]));
            }
        }
    }
}

/// Dispatch-to-complete latency: a completion gets as `dtoc` the time
/// since the send with the same tag and opcode that it answers (the latest
/// earlier send with that key, with no other send or completion of that key
/// in between), in processing order.
pub proof fn lemma_ufs_dtoc_since_matching_send(list: Seq<UFS>, i: int, k: int)
    requires
        0 <= k < i < ufs_ordered(list).len(),
        is_ufs_complete(ufs_ordered(list)[i]),
        is_ufs_send(ufs_ordered(list)[k]),
        ufs_key(ufs_ordered(list)[k]) == ufs_key(ufs_ordered(list)[i]),
        forall|m: int| k < m < i && (is_ufs_send(#[trigger] ufs_ordered(list)[m]) || is_ufs_complete(ufs_ordered(list)[m]))
            ==> ufs_key(ufs_ordered(list)[m]) != ufs_key(ufs_ordered(list)[i]),
    ensures
        ufs_latency_spec(list)[i].dtoc == ufs_ordered(list)[i].time - ufs_ordered(list)[k].time,
{
    let t = ufs_ordered(list);
    let r = ufs_latency_spec(list);
    let key = ufs_key(t[i]);
    lemma_ufs_actions_differ();
    lemma_ufs_scan_shape(t);
    let p = t.take(i);
    lemma_ufs_scan_prefix(t, i);
    lemma_ufs_scan_prefix(t, i + 1);
    assert(t.take(i + 1).drop_last() =~= p);
    assert(t.take(i + 1).last() == t[i]);
    let st = ufs_scan(p).0;
    assert(r[i] == ufs_scan(t.take(i + 1)).1[i]);
    assert(r[i] == ufs_step(st, t[i]).1);
    lemma_ufs_scan_pending(p, key);
    assert(is_ufs_send(p[k]));
    assert forall|m: int| k < m < p.len() && (is_ufs_send(#[trigger] p[m]) || is_ufs_complete(p[m])) implies ufs_key(p[m]) != key by {
        assert(is_ufs_send(t[m]) || is_ufs_complete(t[m]));
    }
    assert(key_value(st.pending, key) == Some(t[k].time));
    assert(ufs_step(st, t[i]).1.dtoc == t[i].time - st.pending[find_key(st.pending, key)].1);
}


/// Queue depth of UFS events, in processing order: a send adds one to the
/// depth left by the event before it (0 before the first event), a
/// completion takes one away but never goes below 0, and any other event
/// leaves it as it was.
pub proof fn lemma_ufs_queue_depth(list: Seq<UFS>)
    requires
        list.len() <= u32::MAX,
    ensures
        ufs_latency_spec(list).len() == ufs_ordered(list).len(),
        forall|i: int| 0 <= i < ufs_ordered(list).len() ==> {
            let before = if i == 0 { 0int } else { ufs_latency_spec(list)[i - 1].qd as int };
            (#[trigger] ufs_latency_spec(list)[i]).qd == (if is_ufs_send(ufs_ordered(list)[i]) {
                before + 1
            } else if is_ufs_complete(ufs_ordered(list)[i]) {
                if before > 0 { before - 1 } else { 0 }
            } else {
                before
            })
        },
{
    let t = ufs_ordered(list);
    lemma_ufs_by_time(list);
    assert(t.len() == list.len());
    lemma_ufs_scan_depth(t);
}

proof fn lemma_ufs_scan_depth(t: Seq<UFS>)
    requires
        t.len() <= u32::MAX,
    ensures
        ufs_scan(t).1.len() == t.len(),
        ufs_scan(t).0.qd == (if t.len() == 0 { 0int } else { ufs_scan(t).1[t.len() - 1].qd as int }),
        forall|i: int| 0 <= i < t.len() ==> {
            let before = if i == 0 { 0int } else { ufs_scan(t).1[i - 1].qd as int };
            (#[trigger] ufs_scan(t).1[i]).qd == (if is_ufs_send(t[i]) {
                before + 1
            } else if is_ufs_complete(t[i]) {
                if before > 0 { before - 1 } else { 0 }
            } else {
                before
            })
        },
    decreases t.len(),
{
    lemma_ufs_actions_differ();
    lemma_ufs_scan_shape(t);
    if t.len() > 0 {
        let p = t.drop_last();
        lemma_ufs_scan_depth(p);
        lemma_ufs_scan_send_facts(p);
        let n = t.len() - 1;
        let prev = ufs_scan(p);
        let r = ufs_scan(t).1;
        let e = t.last();
        assert(forall|m: int| 0 <= m < n ==> #[trigger] t[m] == p[m]);
        assert(forall|m: int| 0 <= m < n ==> #[trigger] r[m] == prev.1[m]);
        assert(r[n] == ufs_step(prev.0, e).1);
        assert(0 <= prev.0.qd <= n);
        if n > 0 {
            assert(prev.0.qd == r[n - 1].qd);
        }
        assert(ufs_scan(t).0.qd == r[n].qd);
    }
}

/// Among the first `n` events a send with `key` has been followed by no
/// send or completion with that key.
pub open spec fn ufs_send_outstanding(t: Seq<UFS>, n: int, key: (u32, Seq<char>)) -> bool {
    exists|k: int| 0 <= k < n && #[trigger] is_ufs_send(t[k]) && ufs_key(t[k]) == key
        && forall|m: int| k < m < n && (is_ufs_send(#[trigger] t[m]) || is_ufs_complete(t[m])) ==> ufs_key(t[m]) != key
}

/// What the UFS post-processing leaves as it came, in processing order: a
/// completion with no outstanding send of its tag and opcode keeps its
/// `dtoc`; a completion with no send or completion before it keeps its
/// `ctoc`; a send with no earlier completion that left the queue empty
/// keeps its `ctod`; a send keeps its `dtoc` and `ctoc`, a completion its
/// `ctod`; any other event keeps all three and continues nothing.
pub proof fn lemma_ufs_unmeasured_kept(list: Seq<UFS>, i: int)
    requires
        list.len() <= u32::MAX,
        0 <= i < ufs_ordered(list).len(),
    ensures
        ({
            let t = ufs_ordered(list);
            let r = ufs_latency_spec(list);
            &&& r.len() == t.len()
            &&& is_ufs_complete(t[i]) && !ufs_send_outstanding(t, i, ufs_key(t[i])) ==> r[i].dtoc == t[i].dtoc
            &&& is_ufs_complete(t[i]) && (forall|m: int| 0 <= m < i ==> !is_ufs_send(#[trigger] t[m]) && !is_ufs_complete(t[m]))
                ==> r[i].ctoc == t[i].ctoc
            &&& is_ufs_send(t[i]) && (forall|m: int| 0 <= m < i && is_ufs_complete(#[trigger] t[m]) ==> r[m].qd != 0)
                ==> r[i].ctod == t[i].ctod
            &&& is_ufs_send(t[i]) ==> r[i].dtoc == t[i].dtoc && r[i].ctoc == t[i].ctoc
            &&& is_ufs_complete(t[i]) ==> r[i].ctod == t[i].ctod && !r[i].continuous
            &&& !is_ufs_send(t[i]) && !is_ufs_complete(t[i])
                ==> r[i].dtoc == t[i].dtoc && r[i].ctoc == t[i].ctoc && r[i].ctod == t[i].ctod && !r[i].continuous
        }),
{
    let t = ufs_ordered(list);
    let r = ufs_latency_spec(list);
    lemma_ufs_by_time(list);
    assert(t.len() == list.len());
    lemma_ufs_actions_differ();
    lemma_ufs_scan_shape(t);
    lemma_ufs_step_at(t, i);
    let p = t.take(i);
    let st = ufs_scan(p).0;
    let key = ufs_key(t[i]);
    assert(r[i] == ufs_step(st, t[i]).1);
    assert(forall|m: int| 0 <= m < i ==> #[trigger] p[m] == t[m]);
    assert(forall|m: int| 0 <= m < i ==> #[trigger] ufs_scan(p).1[m] == r[m]);
    if is_ufs_complete(t[i]) && !ufs_send_outstanding(t, i, key) {
        lemma_ufs_scan_pending(p, key);
        if key_value(st.pending, key) is Some {
            let k = choose|k: int| 0 <= k < p.len()
                && #[trigger] is_ufs_send(p[k]) && ufs_key(p[k]) == key
                && key_value(st.pending, key)->0 == p[k].time
                && forall|m: int| k < m < p.len() && (is_ufs_send(#[trigger] p[m]) || is_ufs_complete(p[m])) ==> ufs_key(p[m]) != key;
            assert(is_ufs_send(t[k]));
            assert forall|m: int| k < m < i && (is_ufs_send(#[trigger] t[m]) || is_ufs_complete(t[m])) implies ufs_key(t[m]) != key by {
                assert(is_ufs_send(p[m]) || is_ufs_complete(p[m]));
            }
            assert(ufs_send_outstanding(t, i, key));
        }
    }
    if is_ufs_complete(t[i]) && (forall|m: int| 0 <= m < i ==> !is_ufs_send(#[trigger] t[m]) && !is_ufs_complete(t[m])) {
        lemma_ufs_scan_facts(p);
        if st.last_complete is Some {
            let j = choose|j: int| 0 <= j < p.len() && #[trigger] is_ufs_complete(p[j]);
            assert(!is_ufs_complete(t[j]));
        }
        if st.first_c {
            let k = choose|k: int| 0 <= k < p.len() && #[trigger] is_ufs_send(p[k])
                && ufs_scan(p).1[k].qd == 1
                && forall|m: int| k < m < p.len() ==> !is_ufs_complete(#[trigger] p[m]);
            assert(!is_ufs_send(t[k]));
        }
    }
    if is_ufs_send(t[i]) && (forall|m: int| 0 <= m < i && is_ufs_complete(#[trigger] t[m]) ==> r[m].qd != 0) {
        lemma_ufs_scan_send_facts(p);
        if st.last_idle_complete is Some {
            let j = choose|j: int| 0 <= j < p.len()
                && #[trigger] is_ufs_complete(p[j]) && ufs_scan(p).1[j].qd == 0
                && st.last_idle_complete->0 == p[j].time
                && forall|m: int| j < m < p.len() && is_ufs_complete(#[trigger] p[m]) ==> ufs_scan(p).1[m].qd != 0;
            assert(is_ufs_complete(t[j]));
            assert(r[j].qd != 0);
        }
    }
}

proof fn lemma_ufs_step_at(t: Seq<UFS>, i: int)
    requires
        0 <= i < t.len(),
    ensures
        ufs_scan(t).1[i] == ufs_step(ufs_scan(t.take(i)).0, t[i]).1,
        ufs_scan(t.take(i)).1 == ufs_scan(t).1.take(i),
{
    lemma_ufs_scan_shape(t);
    lemma_ufs_scan_prefix(t, i);
    lemma_ufs_scan_prefix(t, i + 1);
    let q = t.take(i + 1);
    assert(q.drop_last() =~= t.take(i));
    assert(q.last() == t[i]);
    lemma_ufs_scan_shape(t.take(i));
    assert(ufs_scan(q).1 == ufs_scan(t.take(i)).1.push(ufs_step(ufs_scan(t.take(i)).0, t[i]).1));
    assert(ufs_scan(q).1[i] == ufs_step(ufs_scan(t.take(i)).0, t[i]).1);
    assert(ufs_scan(t).1.take(i + 1)[i] == ufs_scan(t).1[i]);
}

proof fn lemma_ufs_ctod_idle_at(t: Seq<UFS>, i: int, j: int)
    requires
        t.len() <= u32::MAX,
        0 <= j < i < t.len(),
    ensures
        (is_ufs_send(t[i]) && ufs_scan(t).1[i].qd == 1
            && is_ufs_complete(t[j]) && ufs_scan(t).1[j].qd == 0
            && (forall|m: int| j < m < i && is_ufs_complete(#[trigger] t[m]) ==> ufs_scan(t).1[m].qd != 0))
            ==> ufs_scan(t).1[i].ctod == t[i].time - t[j].time,
{
    let r = ufs_scan(t).1;
    if is_ufs_send(t[i]) && r[i].qd == 1 && is_ufs_complete(t[j]) && r[j].qd == 0
        && (forall|m: int| j < m < i && is_ufs_complete(#[trigger] t[m]) ==> r[m].qd != 0) {
        lemma_ufs_actions_differ();
        lemma_ufs_scan_shape(t);
        lemma_ufs_step_at(t, i);
        let p = t.take(i);
        lemma_ufs_scan_send_facts(p);
        let st = ufs_scan(p).0;
        assert(r[i].qd == (st.qd + 1) as u32);
        assert(st.qd + 1 == 1);
        assert(ufs_scan(p).1 == r.take(i));
        assert(r.take(i)[j] == r[j]);
        assert(ufs_scan(p).1[j] == r[j]);
        assert(is_ufs_complete(p[j]) && ufs_scan(p).1[j].qd == 0);
        let w = choose|w: int| 0 <= w < p.len()
            && #[trigger] is_ufs_complete(p[w]) && ufs_scan(p).1[w].qd == 0
            && st.last_idle_complete->0 == p[w].time
            && forall|m: int| w < m < p.len() && is_ufs_complete(#[trigger] p[m]) ==> ufs_scan(p).1[m].qd != 0;
        if w < j {
            assert(ufs_scan(p).1[j].qd != 0);
        }
        if w > j {
            assert(r.take(i)[w] == r[w]);
            assert(ufs_scan(p).1[w] == r[w]);
            assert(is_ufs_complete(t[w]));
        }
        assert(w == j);
    }
}

proof fn lemma_ufs_continuity_at(t: Seq<UFS>, i: int, j: int)
    requires
        t.len() <= u32::MAX,
        0 <= j < i < t.len(),
    ensures
        (is_ufs_send(t[i]) && is_ufs_send(t[j]) && (forall|m: int| j < m < i ==> !is_ufs_send(#[trigger] t[m])))
            ==> ufs_scan(t).1[i].continuous == (t[i].lba == t[j].lba + t[j].size && t[i].opcode@ == t[j].opcode@),
{
    if is_ufs_send(t[i]) && is_ufs_send(t[j]) && (forall|m: int| j < m < i ==> !is_ufs_send(#[trigger] t[m])) {
        lemma_ufs_step_at(t, i);
        let p = t.take(i);
        lemma_ufs_scan_send_facts(p);
        let st = ufs_scan(p).0;
        assert(is_ufs_send(p[j]));
        let k = choose|k: int| 0 <= k < p.len() && #[trigger] is_ufs_send(p[k])
            && st.prev_send->0 == (p[k].lba, p[k].size, p[k].opcode@)
            && forall|m: int| k < m < p.len() ==> !is_ufs_send(#[trigger] p[m]);
        if k < j {
            assert(!is_ufs_send(p[j]));
        }
        if k > j {
            assert(!is_ufs_send(t[k]));
        }
        assert(k == j);
    }
}

proof fn lemma_ufs_first_send_at(t: Seq<UFS>, i: int)
    requires
        t.len() <= u32::MAX,
        0 <= i < t.len(),
    ensures
        (is_ufs_send(t[i]) && (forall|m: int| 0 <= m < i ==> !is_ufs_send(#[trigger] t[m])))
            ==> !ufs_scan(t).1[i].continuous,
{
    if is_ufs_send(t[i]) && (forall|m: int| 0 <= m < i ==> !is_ufs_send(#[trigger] t[m])) {
        lemma_ufs_step_at(t, i);
        let p = t.take(i);
        lemma_ufs_scan_send_facts(p);
        let st = ufs_scan(p).0;
        if st.prev_send is Some {
            let k = choose|k: int| 0 <= k < p.len() && #[trigger] is_ufs_send(p[k])
                && st.prev_send->0 == (p[k].lba, p[k].size, p[k].opcode@)
                && forall|m: int| k < m < p.len() ==> !is_ufs_send(#[trigger] p[m]);
            assert(!is_ufs_send(t[k]));
        }
    }
}

} // verus!
