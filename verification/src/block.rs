//! Block traces: latency post-processing and statistics.

use vstd::prelude::*;
use vstd::string::StringSliceAdditionalSpecFns;
use vstd::utf8::encode_utf8;
use crate::pending::{find_key, put_key, drop_key, lemma_find_key_at, keys_unique, key_value, lemma_put_key_value, lemma_drop_key_value};
use crate::sort::{order_by_time, time_order, lemma_time_order};
use crate::text::{str_eq, concat2};
use crate::stats::{
    LatencyStats, SizeStats, ContinuityStats, TraceStats, distinct_strings, within, range_active,
    thresholds_ok, first_threshold_error, threshold_values_spec, latency_stats_fit, distinct_texts,
    size_stats_fit, continuity_fits, byte_sum, parse_thresholds, item_keys, size_item_keys,
    lemma_column_names_differ, latency_stats, size_stats, continuity_counts, normalized_io_type,
    normalize_io_type, total_bytes,
};
use vstd::string::StrSliceExecFns;
use crate::types::Block;

verus! {

/// The operation of an I/O type, from its first byte: 0 read (`R`),
/// 1 write (`W`), 2 discard (`D`), 3 anything else.
pub open spec fn io_op_code(io_type: Seq<u8>) -> u8 {
    if io_type.len() == 0 {
        3
    } else if io_type[0] == 82 {
        0
    } else if io_type[0] == 87 {
        1
    } else if io_type[0] == 68 {
        2
    } else {
        3
    }
}

/// The name of an operation code.
pub open spec fn io_op_name(code: u8) -> Seq<char> {
    if code == 0 {
        "read"@
    } else if code == 1 {
        "write"@
    } else if code == 2 {
        "discard"@
    } else {
        "other"@
    }
}

/// The operation of a block request from the first byte of its I/O type:
/// `"read"`, `"write"`, `"discard"` or `"other"`.
pub fn get_io_operation(io_type: &str) -> (r: &'static str)
    ensures
        r@ == io_op_name(io_op_code(io_type.spec_bytes())),
{
    let code = io_op_code_of(io_type);
    if code == 0 {
        "read"
    } else if code == 1 {
        "write"
    } else if code == 2 {
        "discard"
    } else {
        "other"
    }
}

fn io_op_code_of(io_type: &str) -> (r: u8)
    ensures
        r == io_op_code(io_type.spec_bytes()),
{
    let b = io_type.as_bytes();
    if b.len() == 0 {
        3
    } else if b[0] == 82u8 {
        0
    } else if b[0] == 87u8 {
        1
    } else if b[0] == 68u8 {
        2
    } else {
        3
    }
}

/// The operation code of a block event.
pub open spec fn block_op(b: Block) -> u8 {
    io_op_code(encode_utf8(b.io_type@))
}

/// The I/O type of the event starts with `W`.
pub open spec fn is_write_type(b: Block) -> bool {
    encode_utf8(b.io_type@).len() > 0 && encode_utf8(b.io_type@)[0] == 87
}

/// The key under which a request is matched with its completion when
/// duplicates are dropped: `(sector, operation, size)`.
pub open spec fn dedup_key(b: Block) -> (u64, u8, u32) {
    (b.sector, block_op(b), b.size)
}

/// One event of the duplicate filter: the keys of the issues not yet
/// completed, and whether the event is kept. A repeated issue of an
/// outstanding key is dropped, as is a write completion of size 0.
pub open spec fn dedup_step(issued: Seq<((u64, u8, u32), ())>, b: Block) -> (Seq<((u64, u8, u32), ())>, bool) {
    if b.action@ == "block_rq_issue"@ {
        if find_key(issued, dedup_key(b)) >= 0 {
            (issued, false)
        } else {
            (put_key(issued, dedup_key(b), ()), true)
        }
    } else if b.action@ == "block_rq_complete"@ {
        if is_write_type(b) && b.size == 0 {
            (issued, false)
        } else {
            (drop_key(issued, dedup_key(b)), true)
        }
    } else {
        (issued, true)
    }
}

/// The duplicate filter over `s`: the final keys and the events kept.
pub open spec fn dedup_scan(s: Seq<Block>) -> (Seq<((u64, u8, u32), ())>, Seq<Block>)
    decreases s.len(),
{
    if s.len() == 0 {
        (Seq::empty(), Seq::empty())
    } else {
        let prev = dedup_scan(s.drop_last());
        let next = dedup_step(prev.0, s.last());
        (next.0, if next.1 { prev.1.push(s.last()) } else { prev.1 })
    }
}

/// What the latency scan over block events carries from one to the next.
pub struct BlockScan {
    pub qd: int,
    /// Issue time of each outstanding `(sector, operation)`.
    pub pending: Seq<((u64, u8), u64)>,
    pub last_complete: Option<u64>,
    pub last_idle_complete: Option<u64>,
    pub first_c: bool,
    pub first_complete_time: u64,
    /// End sector of the previous read, write or discard issue.
    pub prev_end_sector: Option<int>,
    /// Operation of the previous read, write or discard issue.
    pub prev_op: Option<u8>,
}

pub open spec fn block_scan_start() -> BlockScan {
    BlockScan {
        qd: 0,
        pending: Seq::empty(),
        last_complete: None,
        last_idle_complete: None,
        first_c: false,
        first_complete_time: 0,
        prev_end_sector: None,
        prev_op: None,
    }
}

/// One event of the latency scan.
pub open spec fn block_step(st: BlockScan, b: Block) -> (BlockScan, Block) {
    let op = block_op(b);
    let key = (b.sector, op);
    if b.action@ == "block_rq_issue"@ {
        let cont = op != 3 && st.prev_end_sector is Some && st.prev_op is Some
            && b.sector == st.prev_end_sector->0 && op == st.prev_op->0;
        let qd = st.qd + 1;
        let ctod = if qd == 1 && st.last_idle_complete is Some {
            b.time - st.last_idle_complete->0
        } else {
            b.ctod as int
        };
        (
            BlockScan {
                qd,
                pending: put_key(st.pending, key, b.time),
                first_c: if qd == 1 { true } else { st.first_c },
                first_complete_time: if qd == 1 { b.time } else { st.first_complete_time },
                prev_end_sector: if op != 3 { Some(b.sector + b.size) } else { st.prev_end_sector },
                prev_op: if op != 3 { Some(op) } else { st.prev_op },
                ..st
            },
            Block { continuous: cont, ctod: ctod as i128, qd: qd as u32, ..b },
        )
    } else if b.action@ == "block_rq_complete"@ {
        let i = find_key(st.pending, key);
        let dtoc = if i >= 0 { b.time - st.pending[i].1 } else { b.dtoc as int };
        let ctoc = if st.first_c {
            b.time - st.first_complete_time
        } else if st.last_complete is Some {
            b.time - st.last_complete->0
        } else {
            b.ctoc as int
        };
        let qd = if st.qd > 0 { st.qd - 1 } else { 0 };
        (
            BlockScan {
                qd,
                pending: drop_key(st.pending, key),
                first_c: false,
                last_idle_complete: if qd == 0 { Some(b.time) } else { st.last_idle_complete },
                last_complete: Some(b.time),
                ..st
            },
            Block { continuous: false, dtoc: dtoc as i128, ctoc: ctoc as i128, qd: qd as u32, ..b },
        )
    } else {
        (st, Block { continuous: false, qd: st.qd as u32, ..b })
    }
}

/// The latency scan over `s`.
pub open spec fn block_scan(s: Seq<Block>) -> (BlockScan, Seq<Block>)
    decreases s.len(),
{
    if s.len() == 0 {
        (block_scan_start(), Seq::empty())
    } else {
        let prev = block_scan(s.drop_last());
        let next = block_step(prev.0, s.last());
        (next.0, prev.1.push(next.1))
    }
}

/// The events ordered by time, equal times kept in their order.
pub open spec fn block_by_time(s: Seq<Block>) -> Seq<Block> {
    let order = time_order(s.map_values(|b: Block| b.time));
    Seq::new(s.len(), |k: int| s[order[k]])
}

/// The result of the block latency post-processing of `s`: ordered by
/// time, duplicates dropped, then scanned.
pub open spec fn block_latency_spec(s: Seq<Block>) -> Seq<Block> {
    block_scan(dedup_scan(block_by_time(s)).1).1
}

fn block_op_of(b: &Block) -> (r: u8)
    ensures
        r == block_op(*b),
{
    io_op_code_of(b.io_type.as_str())
}

fn find_issued(p: &Vec<(u64, u8, u32)>, key: (u64, u8, u32)) -> (r: Option<usize>)
    ensures
        match r {
            Some(i) => i < p.len() && find_key(issued_view(p@), key) == i,
            None => find_key(issued_view(p@), key) == -1,
        },
{
    let mut i: usize = 0;
    while i < p.len()
        invariant
            0 <= i <= p.len(),
            forall|j: int| 0 <= j < i ==> issued_view(p@)[j].0 != key,
        decreases p.len() - i,
    {
        if p[i].0 == key.0 && p[i].1 == key.1 && p[i].2 == key.2 {
            proof {
                lemma_find_key_at(issued_view(p@), key, i as int);
            }
            return Some(i);
        }
        i = i + 1;
    }
    proof {
        lemma_find_key_at(issued_view(p@), key, i as int);
    }
    None
}

pub open spec fn issued_view(p: Seq<(u64, u8, u32)>) -> Seq<((u64, u8, u32), ())> {
    p.map_values(|e: (u64, u8, u32)| (e, ()))
}

fn find_requested(p: &Vec<(u64, u8, u64)>, sector: u64, op: u8) -> (r: Option<usize>)
    ensures
        match r {
            Some(i) => i < p.len() && find_key(requested_view(p@), (sector, op)) == i,
            None => find_key(requested_view(p@), (sector, op)) == -1,
        },
{
    let mut i: usize = 0;
    while i < p.len()
        invariant
            0 <= i <= p.len(),
            forall|j: int| 0 <= j < i ==> requested_view(p@)[j].0 != (sector, op),
        decreases p.len() - i,
    {
        if p[i].0 == sector && p[i].1 == op {
            proof {
                lemma_find_key_at(requested_view(p@), (sector, op), i as int);
            }
            return Some(i);
        }
        i = i + 1;
    }
    proof {
        lemma_find_key_at(requested_view(p@), (sector, op), i as int);
    }
    None
}

pub open spec fn requested_view(p: Seq<(u64, u8, u64)>) -> Seq<((u64, u8), u64)> {
    p.map_values(|e: (u64, u8, u64)| ((e.0, e.1), e.2))
}

fn dedup_exec(list: Vec<Block>) -> (r: Vec<Block>)
    ensures
        r@ == dedup_scan(list@).1,
{
    let ghost s = list@;
    let mut out: Vec<Block> = Vec::new();
    let mut issued: Vec<(u64, u8, u32)> = Vec::new();
    for b in it: list
        invariant
            it.seq() == s,
            ({
                let sc = dedup_scan(s.take(it.index()));
                &&& out@ == sc.1
                &&& sc.0 == issued_view(issued@)
            }),
    {
        proof {
            assert(s.take(it.index() + 1).drop_last() =~= s.take(it.index()));
        }
        let ghost expected = dedup_step(dedup_scan(s.take(it.index())).0, b);
        let key: (u64, u8, u32) = (b.sector, block_op_of(&b), b.size);
        let keep: bool;
        if str_eq(b.action.as_str(), "block_rq_issue") {
            match find_issued(&issued, key) {
                Some(_) => {
                    keep = false;
                },
                None => {
                    issued.push(key);
                    keep = true;
                },
            }
        } else if str_eq(b.action.as_str(), "block_rq_complete") {
            let tb = b.io_type.as_str().as_bytes();
            if tb.len() > 0 && tb[0] == 87u8 && b.size == 0 {
                keep = false;
            } else {
                match find_issued(&issued, key) {
                    Some(i) => {
                        issued.remove(i);
                    },
                    None => {},
                }
                keep = true;
            }
        } else {
            keep = true;
        }
        proof {
            assert(issued_view(issued@) =~= expected.0);
            assert(keep == expected.1);
        }
        if keep {
            out.push(b);
        }
    }
    proof {
        assert(s.take(s.len() as int) =~= s);
    }
    out
}

fn block_scan_exec(list: Vec<Block>) -> (r: Vec<Block>)
    requires
        list.len() <= u32::MAX,
    ensures
        r@ == block_scan(list@).1,
{
    let ghost s = list@;
    let mut out: Vec<Block> = Vec::new();
    let mut qd: u32 = 0;
    let mut pending: Vec<(u64, u8, u64)> = Vec::new();
    let mut last_complete: Option<u64> = None;
    let mut last_idle_complete: Option<u64> = None;
    let mut first_c: bool = false;
    let mut first_complete_time: u64 = 0;
    let mut prev_end_sector: Option<u128> = None;
    let mut prev_op: Option<u8> = None;
    for b in it: list
        invariant
            it.seq() == s,
            s.len() <= u32::MAX,
            qd <= it.index(),
            ({
                let sc = block_scan(s.take(it.index()));
                &&& out@ == sc.1
                &&& sc.0.qd == qd as int
                &&& sc.0.pending == requested_view(pending@)
                &&& sc.0.last_complete == last_complete
                &&& sc.0.last_idle_complete == last_idle_complete
                &&& sc.0.first_c == first_c
                &&& sc.0.first_complete_time == first_complete_time
                &&& sc.0.prev_end_sector == (match prev_end_sector {
                    Some(e) => Some(e as int),
                    None => None::<int>,
                })
                &&& sc.0.prev_op == prev_op
            }),
    {
        let ghost before = block_scan(s.take(it.index()));
        proof {
            assert(s.take(it.index() + 1).drop_last() =~= s.take(it.index()));
        }
        let ghost expected = block_step(before.0, b);
        let mut rec = b;
        rec.continuous = false;
        let op = block_op_of(&rec);
        if str_eq(rec.action.as_str(), "block_rq_issue") {
            if op != 3 {
                match (prev_end_sector, prev_op) {
                    (Some(e), Some(p)) => {
                        if rec.sector as u128 == e && op == p {
                            rec.continuous = true;
                        }
                    },
                    _ => {},
                }
                prev_end_sector = Some(rec.sector as u128 + rec.size as u128);
                prev_op = Some(op);
            }
            match find_requested(&pending, rec.sector, op) {
                Some(i) => {
                    pending.set(i, (rec.sector, op, rec.time));
                },
                None => {
                    pending.push((rec.sector, op, rec.time));
                },
            }
            qd = qd + 1;
            if qd == 1 {
                match last_idle_complete {
                    Some(t) => {
                        rec.ctod = rec.time as i128 - t as i128;
                    },
                    None => {},
                }
                first_c = true;
                first_complete_time = rec.time;
            }
            proof {
                assert(requested_view(pending@) =~= expected.0.pending);
            }
        } else if str_eq(rec.action.as_str(), "block_rq_complete") {
            match find_requested(&pending, rec.sector, op) {
                Some(i) => {
                    rec.dtoc = rec.time as i128 - pending[i].2 as i128;
                    pending.remove(i);
                },
                None => {},
            }
            if first_c {
                rec.ctoc = rec.time as i128 - first_complete_time as i128;
                first_c = false;
            } else {
                match last_complete {
                    Some(t) => {
                        rec.ctoc = rec.time as i128 - t as i128;
                    },
                    None => {},
                }
            }
            qd = if qd > 0 { qd - 1 } else { 0 };
            if qd == 0 {
                last_idle_complete = Some(rec.time);
            }
            last_complete = Some(rec.time);
            proof {
                assert(requested_view(pending@) =~= expected.0.pending);
            }
        }
        rec.qd = qd;
        out.push(rec);
    }
    proof {
        assert(s.take(s.len() as int) =~= s);
    }
    out
}

/// The events ordered by time, equal times kept in their order.
pub fn sort_block_by_time(list: &Vec<Block>) -> (r: Vec<Block>)
    ensures
        r@ == block_by_time(list@),
{
    let n: usize = list.len();
    let mut times: Vec<u64> = Vec::new();
    let mut k: usize = 0;
    while k < n
        invariant
            n == list.len(),
            0 <= k <= n,
            times@ == list@.map_values(|e: Block| e.time).take(k as int),
        decreases n - k,
    {
        times.push(list[k].time);
        k = k + 1;
        assert(times@ =~= list@.map_values(|e: Block| e.time).take(k as int));
    }
    assert(times@ =~= list@.map_values(|e: Block| e.time));
    let order = order_by_time(&times);
    let mut v: Vec<Block> = Vec::new();
    let mut k: usize = 0;
    while k < n
        invariant
            n == list.len(),
            order.len() == n,
            times@ == list@.map_values(|e: Block| e.time),
            time_order(times@).len() == n,
            forall|q: int| 0 <= q < n ==> order@[q] < n,
            forall|q: int| 0 <= q < n ==> order@[q] as int == #[trigger] time_order(times@)[q],
            0 <= k <= n,
            v@ == block_by_time(list@).take(k as int),
        decreases n - k,
    {
        v.push(list[order[k]].duplicate());
        k = k + 1;
        assert(v@ =~= block_by_time(list@).take(k as int));
    }
    assert(v@ =~= block_by_time(list@));
    v
}

/// Block latency post-processing: orders the events by time, drops
/// repeated issues and size-0 write completions, then fills in the queue
/// depth, the dispatch/complete latencies and the continuity of each event.
pub fn block_bottom_half_latency_process(block_list: Vec<Block>) -> (r: Vec<Block>)
    requires
        block_list.len() <= u32::MAX,
    ensures
        r@ == block_latency_spec(block_list@),
{
    let sorted = sort_block_by_time(&block_list);
    let kept = dedup_exec(sorted);
    proof {
        lemma_dedup_len(block_by_time(block_list@));
    }
    block_scan_exec(kept)
}

/// The duplicate filter keeps at most the events it is given.
pub proof fn lemma_dedup_len(s: Seq<Block>)
    ensures
        dedup_scan(s).1.len() <= s.len(),
    decreases s.len(),
{
    if s.len() > 0 {
        lemma_dedup_len(s.drop_last());
    }
}


/// The value of the zoom column `col` of `b`, in the unit the library
/// holds; `None` for a column that cannot be zoomed.
pub open spec fn block_zoom_value(b: Block, col: Seq<char>) -> Option<int> {
    if col == "sector"@ {
        Some(b.sector as int)
    } else if col == "dtoc"@ {
        Some(b.dtoc as int)
    } else if col == "ctoc"@ {
        Some(b.ctoc as int)
    } else if col == "ctod"@ {
        Some(b.ctod as int)
    } else if col == "qd"@ {
        Some(b.qd as int)
    } else if col == "cpu"@ {
        Some(b.cpu as int)
    } else {
        None
    }
}

/// `b` lies within the time bounds and the bounds of the zoom column, each
/// pair when it is in force.
pub open spec fn block_kept(b: Block, tf: Option<i128>, tt: Option<i128>, col: Seq<char>, cf: Option<i128>, ct: Option<i128>) -> bool {
    &&& within(b.time as int, tf, tt)
    &&& range_active(cf, ct) ==> (block_zoom_value(b, col) matches Some(v) && cf->0 <= v <= ct->0)
}

/// The events of `s` that `block_kept` keeps, in order.
pub open spec fn block_filtered(s: Seq<Block>, tf: Option<i128>, tt: Option<i128>, col: Seq<char>, cf: Option<i128>, ct: Option<i128>) -> Seq<Block>
    decreases s.len(),
{
    if s.len() == 0 {
        Seq::empty()
    } else {
        let p = block_filtered(s.drop_last(), tf, tt, col, cf, ct);
        if block_kept(s.last(), tf, tt, col, cf, ct) {
            p.push(s.last())
        } else {
            p
        }
    }
}

fn in_bounds(v: i128, from: Option<i128>, to: Option<i128>) -> (r: bool)
    ensures
        r == within(v as int, from, to),
{
    match (from, to) {
        (Some(a), Some(b)) => (a == 0 && b == 0) || (a <= v && v <= b),
        _ => true,
    }
}

fn block_zoom_of(b: &Block, code: u8) -> (r: Option<i128>)
    ensures
        code == 1 ==> r == Some(b.sector as i128),
        code == 2 ==> r == Some(b.dtoc),
        code == 3 ==> r == Some(b.ctoc),
        code == 4 ==> r == Some(b.ctod),
        code == 5 ==> r == Some(b.qd as i128),
        code == 6 ==> r == Some(b.cpu as i128),
        code == 0 || code > 6 ==> r is None,
{
    if code == 1 {
        Some(b.sector as i128)
    } else if code == 2 {
        Some(b.dtoc)
    } else if code == 3 {
        Some(b.ctoc)
    } else if code == 4 {
        Some(b.ctod)
    } else if code == 5 {
        Some(b.qd as i128)
    } else if code == 6 {
        Some(b.cpu as i128)
    } else {
        None
    }
}

/// Keeps the events within the time bounds (nanoseconds) and within the
/// bounds of the zoom column (`sector`, `dtoc`, `ctoc`, `ctod`, `qd` or
/// `cpu`, latencies in nanoseconds). A pair of bounds is in force when both
/// are given and not both zero; with the column bounds in force, an event
/// of an unknown column is dropped.
pub fn filter_block_data(
    list: &Vec<Block>,
    time_from: Option<i128>,
    time_to: Option<i128>,
    zoom_column: &str,
    col_from: Option<i128>,
    col_to: Option<i128>,
) -> (r: Vec<Block>)
    ensures
        r@ == block_filtered(list@, time_from, time_to, zoom_column@, col_from, col_to),
{
    proof {
        lemma_column_names_differ();
    }
    let code: u8 = if str_eq(zoom_column, "sector") {
        1
    } else if str_eq(zoom_column, "dtoc") {
        2
    } else if str_eq(zoom_column, "ctoc") {
        3
    } else if str_eq(zoom_column, "ctod") {
        4
    } else if str_eq(zoom_column, "qd") {
        5
    } else if str_eq(zoom_column, "cpu") {
        6
    } else {
        0
    };
    let col_active = match (col_from, col_to) {
        (Some(a), Some(b)) => !(a == 0 && b == 0),
        _ => false,
    };
    let mut out: Vec<Block> = Vec::new();
    let mut i: usize = 0;
    while i < list.len()
        invariant
            0 <= i <= list.len(),
            col_active == range_active(col_from, col_to),
            code == 1 <==> zoom_column@ == "sector"@,
            code == 2 <==> zoom_column@ == "dtoc"@,
            code == 3 <==> zoom_column@ == "ctoc"@,
            code == 4 <==> zoom_column@ == "ctod"@,
            code == 5 <==> zoom_column@ == "qd"@,
            code == 6 <==> zoom_column@ == "cpu"@,
            code <= 6,
            out@ == block_filtered(list@.take(i as int), time_from, time_to, zoom_column@, col_from, col_to),
        decreases list.len() - i,
    {
        assert(list@.take(i + 1).drop_last() =~= list@.take(i as int));
        let b = &list[i];
        let mut keep = in_bounds(b.time as i128, time_from, time_to);
        if keep && col_active {
            keep = match block_zoom_of(b, code) {
                Some(v) => in_bounds(v, col_from, col_to),
                None => false,
            };
        }
        if keep {
            out.push(b.duplicate());
        }
        i = i + 1;
    }
    assert(list@.take(i as int) =~= list@);
    out
}

/// The group of an event: its I/O type, or only the first character of it
/// when grouping.
pub open spec fn block_key(b: Block, group: bool) -> Seq<char> {
    if group {
        normalized_io_type(b.io_type@)
    } else {
        b.io_type@
    }
}

fn block_key_of(b: &Block, group: bool) -> (r: String)
    ensures
        r@ == block_key(*b, group),
{
    if group {
        normalize_io_type(b.io_type.as_str())
    } else {
        b.io_type.clone()
    }
}

fn is_complete(b: &Block) -> (r: bool)
    ensures
        r == (b.action@ == "block_rq_complete"@),
{
    str_eq(b.action.as_str(), "block_rq_complete")
}

fn is_issue(b: &Block) -> (r: bool)
    ensures
        r == (b.action@ == "block_rq_issue"@),
{
    str_eq(b.action.as_str(), "block_rq_issue")
}

/// The values of the column `col` with the group of their event: `dtoc`
/// and `ctoc` of completions, `ctod` of issues, and the `sector` of issues
/// (a sector is compared with the thresholds as a number of milliseconds,
/// so it is held times a million).
pub open spec fn block_latency_items(s: Seq<Block>, col: Seq<char>, group: bool) -> Seq<(Seq<char>, i128)>
    decreases s.len(),
{
    if s.len() == 0 {
        Seq::empty()
    } else {
        let p = block_latency_items(s.drop_last(), col, group);
        let b = s.last();
        if (col == "dtoc"@ || col == "ctoc"@) && b.action@ == "block_rq_complete"@ {
            p.push((block_key(b, group), if col == "dtoc"@ { b.dtoc } else { b.ctoc }))
        } else if col == "ctod"@ && b.action@ == "block_rq_issue"@ {
            p.push((block_key(b, group), b.ctod))
        } else if col == "sector"@ && b.action@ == "block_rq_issue"@ {
            p.push((block_key(b, group), (b.sector * 1_000_000) as i128))
        } else {
            p
        }
    }
}

/// Which value a column names: 1 `dtoc`, 2 `ctoc`, 3 `ctod`, 4 `sector`, 0 none.
fn block_column_code(column: &str) -> (r: u8)
    ensures
        r == 1 <==> column@ == "dtoc"@,
        r == 2 <==> column@ == "ctoc"@,
        r == 3 <==> column@ == "ctod"@,
        r == 4 <==> column@ == "sector"@,
        r <= 4,
{
    proof {
        lemma_column_names_differ();
    }
    if str_eq(column, "dtoc") {
        1
    } else if str_eq(column, "ctoc") {
        2
    } else if str_eq(column, "ctod") {
        3
    } else if str_eq(column, "sector") {
        4
    } else {
        0
    }
}

fn block_latency_items_of(list: &Vec<Block>, column: &str, code: u8, group: bool) -> (r: Vec<(String, i128)>)
    requires
        code == 1 <==> column@ == "dtoc"@,
        code == 2 <==> column@ == "ctoc"@,
        code == 3 <==> column@ == "ctod"@,
        code == 4 <==> column@ == "sector"@,
        code <= 4,
    ensures
        r.deep_view() == block_latency_items(list@, column@, group),
{
    let mut out: Vec<(String, i128)> = Vec::new();
    let mut i: usize = 0;
    while i < list.len()
        invariant
            code == 1 <==> column@ == "dtoc"@,
            code == 2 <==> column@ == "ctoc"@,
            code == 3 <==> column@ == "ctod"@,
            code == 4 <==> column@ == "sector"@,
            code <= 4,
            0 <= i <= list.len(),
            out.deep_view() == block_latency_items(list@.take(i as int), column@, group),
        decreases list.len() - i,
    {
        assert(list@.take(i + 1).drop_last() =~= list@.take(i as int));
        let b = &list[i];
        let ghost before = out.deep_view();
        if (code == 1 || code == 2) && is_complete(b) {
            let v = if code == 1 { b.dtoc } else { b.ctoc };
            out.push((block_key_of(b, group), v));
            assert(out.deep_view() =~= before.push((block_key(*b, group), v)));
        } else if code == 3 && is_issue(b) {
            out.push((block_key_of(b, group), b.ctod));
            assert(out.deep_view() =~= before.push((block_key(*b, group), b.ctod)));
        } else if code == 4 && is_issue(b) {
            let v: i128 = b.sector as i128 * 1_000_000;
            out.push((block_key_of(b, group), v));
            assert(out.deep_view() =~= before.push((block_key(*b, group), v)));
        }
        i = i + 1;
    }
    assert(list@.take(i as int) =~= list@);
    out
}

/// The range counts and values of one column (`dtoc`, `ctoc`, `ctod` or
/// `sector`) for each group, groups in order of first appearance. The
/// thresholds are parsed first; an unknown column is an error.
pub fn latencystats(list: &Vec<Block>, column: &str, group: bool, thresholds: &Vec<String>) -> (r: Result<LatencyStats, String>)
    ensures
        ({
            let th = thresholds.deep_view();
            let valid = column@ == "dtoc"@ || column@ == "ctoc"@ || column@ == "ctod"@ || column@ == "sector"@;
            let items = block_latency_items(list@, column@, group);
            match r {
                Err(e) => if !thresholds_ok(th) {
                    e@ == first_threshold_error(th)
                } else {
                    !valid && e@ == "유효하지 않은 컬럼: "@ + column@
                },
                Ok(st) => thresholds_ok(th) && valid && latency_stats_fit(st,
                    distinct_texts(items.map_values(|e: (Seq<char>, i128)| e.0)), items,
                    threshold_values_spec(th), th),
            }
        }),
{
    let tv = parse_thresholds(thresholds)?;
    let code = block_column_code(column);
    if code == 0 {
        return Err(concat2("유효하지 않은 컬럼: ", column));
    }
    let items = block_latency_items_of(list, column, code, group);
    let keys = item_keys(&items);
    Ok(latency_stats(&keys, &items, &tv, thresholds))
}

/// The sizes of the events that the column concerns, with their group:
/// completions for `dtoc` and `ctoc`, issues for `ctod` and `sector`.
pub open spec fn block_size_items(s: Seq<Block>, col: Seq<char>, group: bool) -> Seq<(Seq<char>, u32)>
    decreases s.len(),
{
    if s.len() == 0 {
        Seq::empty()
    } else {
        let p = block_size_items(s.drop_last(), col, group);
        let b = s.last();
        if ((col == "dtoc"@ || col == "ctoc"@) && b.action@ == "block_rq_complete"@)
            || ((col == "ctod"@ || col == "sector"@) && b.action@ == "block_rq_issue"@) {
            p.push((block_key(b, group), b.size))
        } else {
            p
        }
    }
}

/// The size distribution (in sectors) of the events that the column
/// concerns, for each group; no event for an unknown column.
pub fn sizestats(list: &Vec<Block>, column: &str, group: bool) -> (r: SizeStats)
    ensures
        ({
            let items = block_size_items(list@, column@, group);
            size_stats_fit(r, distinct_texts(items.map_values(|e: (Seq<char>, u32)| e.0)), items)
        }),
{
    let code = block_column_code(column);
    let mut items: Vec<(String, u32)> = Vec::new();
    let mut i: usize = 0;
    while i < list.len()
        invariant
            code == 1 <==> column@ == "dtoc"@,
            code == 2 <==> column@ == "ctoc"@,
            code == 3 <==> column@ == "ctod"@,
            code == 4 <==> column@ == "sector"@,
            code <= 4,
            0 <= i <= list.len(),
            items.deep_view() == block_size_items(list@.take(i as int), column@, group),
        decreases list.len() - i,
    {
        assert(list@.take(i + 1).drop_last() =~= list@.take(i as int));
        let b = &list[i];
        if ((code == 1 || code == 2) && is_complete(b)) || ((code == 3 || code == 4) && is_issue(b)) {
            let ghost before = items.deep_view();
            items.push((block_key_of(b, group), b.size));
            assert(items.deep_view() =~= before.push((block_key(*b, group), b.size)));
        }
        i = i + 1;
    }
    assert(list@.take(i as int) =~= list@);
    let keys = size_item_keys(&items);
    size_stats(&keys, &items)
}

/// Reads, writes and discards: I/O types that begin with `R`, `W` or `D`.
pub open spec fn block_continuity_type(io: Seq<char>) -> bool {
    io.len() > 0 && (io[0] == 'R' || io[0] == 'W' || io[0] == 'D')
}

/// The issues of reads, writes and discards with their bytes (512 per
/// sector) and continuity, grouped by the first character of the type.
pub open spec fn block_continuity_items(s: Seq<Block>) -> Seq<(Seq<char>, u64, bool)>
    decreases s.len(),
{
    if s.len() == 0 {
        Seq::empty()
    } else {
        let p = block_continuity_items(s.drop_last());
        let b = s.last();
        if b.action@ == "block_rq_issue"@ && block_continuity_type(b.io_type@) {
            p.push((normalized_io_type(b.io_type@), (b.size * 512) as u64, b.continuous))
        } else {
            p
        }
    }
}

fn block_continuity_items_of(list: &Vec<Block>) -> (r: Vec<(String, u64, bool)>)
    ensures
        r.deep_view() == block_continuity_items(list@),
{
    let mut out: Vec<(String, u64, bool)> = Vec::new();
    let mut i: usize = 0;
    while i < list.len()
        invariant
            0 <= i <= list.len(),
            out.deep_view() == block_continuity_items(list@.take(i as int)),
        decreases list.len() - i,
    {
        assert(list@.take(i + 1).drop_last() =~= list@.take(i as int));
        let b = &list[i];
        let t = b.io_type.as_str();
        let first_ok = if t.unicode_len() > 0 {
            let c = t.get_char(0);
            c == 'R' || c == 'W' || c == 'D'
        } else {
            false
        };
        if is_issue(b) && first_ok {
            let ghost before = out.deep_view();
            let bytes: u64 = b.size as u64 * 512;
            out.push((normalize_io_type(t), bytes, b.continuous));
            assert(out.deep_view() =~= before.push((normalized_io_type(b.io_type@), bytes, b.continuous)));
        }
        i = i + 1;
    }
    assert(list@.take(i as int) =~= list@);
    out
}

/// The bytes of the requests the continuity statistics count, in all.
pub fn continuity_bytes(list: &Vec<Block>) -> (r: u128)
    ensures
        r == byte_sum(block_continuity_items(list@), None, false),
{
    let items = block_continuity_items_of(list);
    total_bytes(&items)
}

/// The continuity of the issues of reads, writes and discards, for each
/// first character of the I/O type and in all.
pub fn continuity_stats(list: &Vec<Block>) -> (r: ContinuityStats)
    requires
        byte_sum(block_continuity_items(list@), None, false) <= u64::MAX,
    ensures
        continuity_fits(r, block_continuity_items(list@)),
{
    let items = block_continuity_items_of(list);
    continuity_counts(&items)
}

/// The groups of the events, in order.
pub open spec fn block_keys(s: Seq<Block>, group: bool) -> Seq<Seq<char>> {
    s.map_values(|b: Block| block_key(b, group))
}

/// The sizes of the completions with their group.
pub open spec fn block_complete_sizes(s: Seq<Block>, group: bool) -> Seq<(Seq<char>, u32)> {
    block_size_items(s, "dtoc"@, group)
}

/// All statistics of the events in one pass: range counts and values of
/// `dtoc`, `ctod` and `ctoc`, the size distribution of completions and the
/// continuity, each for every group that occurs.
pub fn allstats(list: &Vec<Block>, group: bool, thresholds: &Vec<String>) -> (r: Result<TraceStats, String>)
    requires
        byte_sum(block_continuity_items(list@), None, false) <= u64::MAX,
    ensures
        ({
            let th = thresholds.deep_view();
            let tv = threshold_values_spec(th);
            let keys = distinct_texts(block_keys(list@, group));
            match r {
                Err(e) => !thresholds_ok(th) && e@ == first_threshold_error(th),
                Ok(ts) => {
                    &&& thresholds_ok(th)
                    &&& latency_stats_fit(ts.dtoc_stat, keys, block_latency_items(list@, "dtoc"@, group), tv, th)
                    &&& latency_stats_fit(ts.ctod_stat, keys, block_latency_items(list@, "ctod"@, group), tv, th)
                    &&& latency_stats_fit(ts.ctoc_stat, keys, block_latency_items(list@, "ctoc"@, group), tv, th)
                    &&& size_stats_fit(ts.size_counts, keys, block_complete_sizes(list@, group))
                    &&& continuity_fits(ts.continuity, block_continuity_items(list@))
                },
            }
        }),
{
    let tv = parse_thresholds(thresholds)?;
    proof {
        lemma_column_names_differ();
    }
    let mut names: Vec<String> = Vec::new();
    let mut i: usize = 0;
    while i < list.len()
        invariant
            0 <= i <= list.len(),
            names.deep_view() == block_keys(list@, group).take(i as int),
        decreases list.len() - i,
    {
        let ghost before = names.deep_view();
        names.push(block_key_of(&list[i], group));
        assert(names.deep_view() =~= before.push(block_key(list@[i as int], group)));
        i = i + 1;
        assert(names.deep_view() =~= block_keys(list@, group).take(i as int));
    }
    assert(block_keys(list@, group).take(i as int) =~= block_keys(list@, group));
    let keys = distinct_strings(&names);
    let dtoc_items = block_latency_items_of(list, "dtoc", 1, group);
    let ctod_items = block_latency_items_of(list, "ctod", 3, group);
    let ctoc_items = block_latency_items_of(list, "ctoc", 2, group);
    let size_all = sizestats_items(list, group);
    let cont = block_continuity_items_of(list);
    Ok(TraceStats {
        dtoc_stat: latency_stats(&keys, &dtoc_items, &tv, thresholds),
        ctod_stat: latency_stats(&keys, &ctod_items, &tv, thresholds),
        ctoc_stat: latency_stats(&keys, &ctoc_items, &tv, thresholds),
        size_counts: size_stats(&keys, &size_all),
        continuity: continuity_counts(&cont),
    })
}

/// The sizes of the completions with their group.
fn sizestats_items(list: &Vec<Block>, group: bool) -> (r: Vec<(String, u32)>)
    ensures
        r.deep_view() == block_complete_sizes(list@, group),
{
    proof {
        lemma_column_names_differ();
    }
    let mut items: Vec<(String, u32)> = Vec::new();
    let mut i: usize = 0;
    while i < list.len()
        invariant
            0 <= i <= list.len(),
            items.deep_view() == block_size_items(list@.take(i as int), "dtoc"@, group),
        decreases list.len() - i,
    {
        proof {
            lemma_column_names_differ();
        }
        assert(list@.take(i + 1).drop_last() =~= list@.take(i as int));
        let b = &list[i];
        if is_complete(b) {
            let ghost before = items.deep_view();
            items.push((block_key_of(b, group), b.size));
            assert(items.deep_view() =~= before.push((block_key(*b, group), b.size)));
        }
        i = i + 1;
    }
    assert(list@.take(i as int) =~= list@);
    items
}

/// `a` is the event `b` with only its queue depth, latencies and
/// continuity possibly changed.
pub open spec fn block_same_event(a: Block, b: Block) -> bool {
    &&& a.time == b.time
    &&& a.process == b.process
    &&& a.cpu == b.cpu
    &&& a.flags == b.flags
    &&& a.action == b.action
    &&& a.devmajor == b.devmajor
    &&& a.devminor == b.devminor
    &&& a.io_type == b.io_type
    &&& a.extra == b.extra
    &&& a.sector == b.sector
    &&& a.size == b.size
    &&& a.comm == b.comm
}

/// The positions of the events in time order.
pub open spec fn block_time_order(s: Seq<Block>) -> Seq<int> {
    time_order(s.map_values(|b: Block| b.time))
}

/// Ordering block events by time keeps each event once, puts their times
/// in ascending order and keeps events of equal time in their order.
pub proof fn lemma_block_by_time(s: Seq<Block>)
    requires
        s.len() <= usize::MAX,
    ensures
        block_by_time(s).len() == s.len(),
        forall|a: int, b: int| 0 <= a < b < s.len() ==> block_by_time(s)[a].time <= block_by_time(s)[b].time,
        forall|a: int, b: int| 0 <= a < b < s.len() && block_by_time(s)[a].time == block_by_time(s)[b].time
            ==> block_time_order(s)[a] < block_time_order(s)[b],
        forall|k: int| 0 <= k < s.len() ==> #[trigger] block_by_time(s)[k] == s[block_time_order(s)[k]],
        forall|a: int, b: int| 0 <= a < s.len() && 0 <= b < s.len() && a != b ==>
            #[trigger] block_time_order(s)[a] != #[trigger] block_time_order(s)[b],
        forall|k: int| 0 <= k < s.len() ==> 0 <= #[trigger] block_time_order(s)[k] < s.len(),
{
    let times = s.map_values(|b: Block| b.time);
    lemma_time_order(times);
    let order = time_order(times);
    assert forall|a: int, b: int| 0 <= a < b < s.len() implies block_by_time(s)[a].time <= block_by_time(s)[b].time by {
        assert(times[order[a]] <= times[order[b]]);
    }
}

proof fn lemma_dedup_keeps_order(s: Seq<Block>)
    requires
        forall|a: int, b: int| 0 <= a < b < s.len() ==> s[a].time <= s[b].time,
    ensures
        forall|i: int| 0 <= i < dedup_scan(s).1.len() ==> exists|j: int| 0 <= j < s.len() && #[trigger] dedup_scan(s).1[i] == s[j],
        forall|a: int, b: int| 0 <= a < b < dedup_scan(s).1.len() ==> dedup_scan(s).1[a].time <= dedup_scan(s).1[b].time,
    decreases s.len(),
{
    if s.len() > 0 {
        let t = s.drop_last();
        lemma_dedup_keeps_order(t);
        let d = dedup_scan(t).1;
        assert forall|i: int| 0 <= i < dedup_scan(s).1.len() implies exists|j: int| 0 <= j < s.len() && #[trigger] dedup_scan(s).1[i] == s[j] by {
            if i < d.len() {
                assert(dedup_scan(s).1[i] == d[i]);
                let j = choose|j: int| 0 <= j < t.len() && d[i] == t[j];
                assert(t[j] == s[j]);
            } else {
                assert(dedup_scan(s).1[i] == s[s.len() - 1]);
            }
        }
        assert forall|a: int, b: int| 0 <= a < b < dedup_scan(s).1.len() implies dedup_scan(s).1[a].time <= dedup_scan(s).1[b].time by {
            if b >= d.len() {
                assert(dedup_scan(s).1[a] == d[a]);
                let j = choose|j: int| 0 <= j < t.len() && d[a] == t[j];
                assert(t[j] == s[j]);
                assert(dedup_scan(s).1[b] == s[s.len() - 1]);
            } else {
                assert(dedup_scan(s).1[a] == d[a]);
                assert(dedup_scan(s).1[b] == d[b]);
            }
        }
    }
}

proof fn lemma_block_scan_shape(s: Seq<Block>)
    ensures
        block_scan(s).1.len() == s.len(),
        forall|i: int| 0 <= i < s.len() ==> block_same_event(#[trigger] block_scan(s).1[i], s[i]),
    decreases s.len(),
{
    if s.len() > 0 {
        lemma_block_scan_shape(s.drop_last());
        let prev = block_scan(s.drop_last());
        assert forall|i: int| 0 <= i < s.len() implies block_same_event(#[trigger] block_scan(s).1[i], s[i]) by {
            if i < s.len() - 1 {
                assert(block_scan(s).1[i] == prev.1[i]);
                assert(s.drop_last()[i] == s[i]);
            }
        }
    }
}

/// The block post-processing gives at most as many events as it is given,
/// in ascending time, each one an input event with only its queue depth,
/// latencies and continuity filled in.
pub proof fn lemma_block_latency_sorted(s: Seq<Block>)
    requires
        s.len() <= usize::MAX,
    ensures
        block_latency_spec(s).len() <= s.len(),
        forall|a: int, b: int| 0 <= a < b < block_latency_spec(s).len()
            ==> block_latency_spec(s)[a].time <= block_latency_spec(s)[b].time,
        forall|i: int| 0 <= i < block_latency_spec(s).len()
            ==> exists|j: int| 0 <= j < s.len() && block_same_event(#[trigger] block_latency_spec(s)[i], s[j]),
{
    lemma_block_by_time(s);
    let t = block_by_time(s);
    lemma_dedup_keeps_order(t);
    lemma_dedup_len(t);
    let d = dedup_scan(t).1;
    lemma_block_scan_shape(d);
    let r = block_latency_spec(s);
    assert forall|a: int, b: int| 0 <= a < b < r.len() implies r[a].time <= r[b].time by {
        assert(block_same_event(r[a], d[a]));
        assert(block_same_event(r[b], d[b]));
    }
    assert forall|i: int| 0 <= i < r.len() implies exists|j: int| 0 <= j < s.len() && block_same_event(#[trigger] r[i], s[j]) by {
        assert(block_same_event(r[i], d[i]));
        let k = choose|k: int| 0 <= k < t.len() && #[trigger] d[i] == t[k];
        assert(t[k] == s[block_time_order(s)[k]]);
        assert(block_same_event(r[i], s[block_time_order(s)[k]]));
    }
}


/// The event is an issue.
pub open spec fn is_block_issue(b: Block) -> bool {
    b.action@ == "block_rq_issue"@
}

/// The event is a completion.
pub open spec fn is_block_complete(b: Block) -> bool {
    b.action@ == "block_rq_complete"@
}

proof fn lemma_block_actions_differ()
    ensures
        "block_rq_issue"@ != "block_rq_complete"@,
{
    reveal_strlit("block_rq_issue");
    reveal_strlit("block_rq_complete");
    assert("block_rq_issue"@[9] != "block_rq_complete"@[9]);
}

/// What the scan knows after `t`: the queue depth is at most the number of
/// events, each event's depth is the depth after it, and the last
/// completion that left the queue empty.
proof fn lemma_block_scan_facts(t: Seq<Block>)
    requires
        t.len() <= u32::MAX,
    ensures
        block_scan(t).1.len() == t.len(),
        0 <= block_scan(t).0.qd <= t.len(),
        forall|k: int| 0 <= k < t.len() ==> (#[trigger] block_scan(t).1[k]).qd <= k + 1,
        forall|k: int| 0 <= k < t.len() && is_block_issue(t[k]) && (#[trigger] block_scan(t).1[k]).qd != 1
            ==> block_scan(t).1[k].ctod == t[k].ctod,
        (exists|j: int| 0 <= j < t.len() && #[trigger] is_block_complete(t[j]) && block_scan(t).1[j].qd == 0)
            ==> block_scan(t).0.last_idle_complete is Some,
        forall|k: int| 0 <= k < t.len() && is_block_issue(t[k]) && (#[trigger] block_scan(t).1[k]).qd == 1
            && (forall|m: int| k < m < t.len() ==> !is_block_complete(#[trigger] t[m]))
            ==> block_scan(t).0.first_c && block_scan(t).0.first_complete_time == t[k].time && block_scan(t).0.qd >= 1,
        block_scan(t).0.last_idle_complete is Some ==> exists|j: int| 0 <= j < t.len()
            && #[trigger] is_block_complete(t[j]) && block_scan(t).1[j].qd == 0
            && block_scan(t).0.last_idle_complete->0 == t[j].time
            && forall|m: int| j < m < t.len() && is_block_complete(#[trigger] t[m]) ==> block_scan(t).1[m].qd != 0,
    decreases t.len(),
{
    lemma_block_actions_differ();
    if t.len() > 0 {
        let p = t.drop_last();
        lemma_block_scan_facts(p);
        let n = t.len() - 1;
        let prev = block_scan(p);
        let st = block_scan(t).0;
        let r = block_scan(t).1;
        let e = t.last();
        assert(forall|m: int| 0 <= m < n ==> #[trigger] t[m] == p[m]);
        assert(forall|m: int| 0 <= m < n ==> #[trigger] r[m] == prev.1[m]);
        assert(r[n] == block_step(prev.0, e).1);
        if is_block_complete(e) {
            let q = if prev.0.qd > 0 { prev.0.qd - 1 } else { 0 };
            assert(r[n].qd == q as u32);
            assert(r[n].qd == q);
            if q == 0 {
                assert(is_block_complete(t[n]) && r[n].qd == 0);
            } else {
                assert(st.last_idle_complete == prev.0.last_idle_complete);
                if exists|j: int| 0 <= j < t.len() && #[trigger] is_block_complete(t[j]) && r[j].qd == 0 {
                    let j = choose|j: int| 0 <= j < t.len() && #[trigger] is_block_complete(t[j]) && r[j].qd == 0;
                    assert(j < n);
                    assert(is_block_complete(p[j]) && prev.1[j].qd == 0);
                }
                if st.last_idle_complete is Some {
                    let j = choose|j: int| 0 <= j < p.len()
                        && #[trigger] is_block_complete(p[j]) && prev.1[j].qd == 0
                        && prev.0.last_idle_complete->0 == p[j].time
                        && forall|m: int| j < m < p.len() && is_block_complete(#[trigger] p[m]) ==> prev.1[m].qd != 0;
                    assert(is_block_complete(t[j]));
                    assert forall|m: int| j < m < t.len() && is_block_complete(#[trigger] t[m]) implies r[m].qd != 0 by {
                        if m < n {
                            assert(is_block_complete(p[m]));
                        }
                    }
                }
            }
        } else {
            assert(st.last_idle_complete == prev.0.last_idle_complete);
            if is_block_issue(e) {
                assert(r[n].qd == (prev.0.qd + 1) as u32);
                assert(r[n].qd == prev.0.qd + 1);
            } else {
                assert(r[n].qd == prev.0.qd as u32);
            }
            if exists|j: int| 0 <= j < t.len() && #[trigger] is_block_complete(t[j]) && r[j].qd == 0 {
                let j = choose|j: int| 0 <= j < t.len() && #[trigger] is_block_complete(t[j]) && r[j].qd == 0;
                assert(j < n);
                assert(is_block_complete(p[j]) && prev.1[j].qd == 0);
            }
            if st.last_idle_complete is Some {
                let j = choose|j: int| 0 <= j < p.len()
                    && #[trigger] is_block_complete(p[j]) && prev.1[j].qd == 0
                    && prev.0.last_idle_complete->0 == p[j].time
                    && forall|m: int| j < m < p.len() && is_block_complete(#[trigger] p[m]) ==> prev.1[m].qd != 0;
                assert(is_block_complete(t[j]));
                assert forall|m: int| j < m < t.len() && is_block_complete(#[trigger] t[m]) implies r[m].qd != 0 by {
                    if m < n {
                        assert(is_block_complete(p[m]));
                    }
                }
            }
        }
        assert forall|k: int| 0 <= k < t.len() && is_block_issue(t[k]) && (#[trigger] r[k]).qd != 1
            implies r[k].ctod == t[k].ctod by {
            if k < n {
                assert(is_block_issue(p[k]) && prev.1[k].qd != 1);
            }
        }
        assert forall|k: int| 0 <= k < t.len() && is_block_issue(t[k]) && (#[trigger] r[k]).qd == 1
            && (forall|m: int| k < m < t.len() ==> !is_block_complete(#[trigger] t[m]))
            implies st.first_c && st.first_complete_time == t[k].time && st.qd >= 1 by {
            if k < n {
                assert(!is_block_complete(t[n]));
                assert(is_block_issue(p[k]) && prev.1[k].qd == 1);
                assert forall|m: int| k < m < p.len() implies !is_block_complete(#[trigger] p[m]) by {
                    assert(!is_block_complete(t[m]));
                }
            } else {
                assert(r[n].qd == (prev.0.qd + 1) as u32);
            }
        }
    }
}

proof fn lemma_block_scan_prefix(s: Seq<Block>, n: int)
    requires
        0 <= n <= s.len(),
    ensures
        block_scan(s.take(n)).1 == block_scan(s).1.take(n),
    decreases s.len(),
{
    lemma_block_scan_shape(s);
    if n == s.len() {
        assert(s.take(n) =~= s);
        assert(block_scan(s).1.take(n) =~= block_scan(s).1);
    } else {
        lemma_block_scan_prefix(s.drop_last(), n);
        assert(s.drop_last().take(n) =~= s.take(n));
        lemma_block_scan_shape(s.drop_last());
        assert(block_scan(s).1.take(n) =~= block_scan(s.drop_last()).1.take(n));
    }
}

/// Complete-to-dispatch latency of block requests, in processing order
/// (by time, repeated issues dropped): an issue that found a request
/// already outstanding (queue depth above 1 after it) keeps the `ctod` it
/// came with; an issue that found the queue empty gets the time since the
/// last completion that left the queue empty.
pub proof fn lemma_block_ctod_only_after_idle(list: Seq<Block>, i: int, j: int)
    requires
        list.len() <= u32::MAX,
    ensures
        ({
            let t = dedup_scan(block_by_time(list)).1;
            let r = block_latency_spec(list);
            &&& r.len() == t.len()
            &&& forall|k: int| 0 <= k < t.len() && is_block_issue(t[k]) && (#[trigger] r[k]).qd > 1 ==> r[k].ctod == t[k].ctod
            &&& (0 <= j < i < t.len() && is_block_issue(t[i]) && r[i].qd == 1
                && is_block_complete(t[j]) && r[j].qd == 0
                && (forall|m: int| j < m < i && is_block_complete(#[trigger] t[m]) ==> r[m].qd != 0))
                ==> r[i].ctod == t[i].time - t[j].time
        }),
{
    let t = dedup_scan(block_by_time(list)).1;
    let r = block_latency_spec(list);
    lemma_block_by_time(list);
    lemma_dedup_len(block_by_time(list));
    assert(t.len() <= u32::MAX);
    lemma_block_scan_facts(t);
    if 0 <= j < i < t.len() && is_block_issue(t[i]) && r[i].qd == 1
        && is_block_complete(t[j]) && r[j].qd == 0
        && (forall|m: int| j < m < i && is_block_complete(#[trigger] t[m]) ==> r[m].qd != 0) {
        lemma_block_actions_differ();
        let p = t.take(i);
        lemma_block_scan_facts(p);
        lemma_block_scan_prefix(t, i);
        lemma_block_scan_prefix(t, i + 1);
        assert(t.take(i + 1).drop_last() =~= p);
        assert(t.take(i + 1).last() == t[i]);
        let st = block_scan(p).0;
        assert(r[i] == block_scan(t.take(i + 1)).1[i]);
        assert(r[i] == block_step(st, t[i]).1);
        assert(r[i].qd == (st.qd + 1) as u32);
        assert(st.qd + 1 == 1);
        assert(is_block_complete(p[j]) && block_scan(p).1[j].qd == 0);
        let w = choose|w: int| 0 <= w < p.len()
            && #[trigger] is_block_complete(p[w]) && block_scan(p).1[w].qd == 0
            && st.last_idle_complete->0 == p[w].time
            && forall|m: int| w < m < p.len() && is_block_complete(#[trigger] p[m]) ==> block_scan(p).1[m].qd != 0;
        if w < j {
            assert(block_scan(p).1[j].qd != 0);
        }
        if w > j {
            assert(block_scan(p).1[w] == r[w]);
            assert(is_block_complete(t[w]));
        }
        assert(w == j);
    }
}


/// What the scan knows after `s`: the time of the last completion, and,
/// while an issue that found the queue empty has had no completion yet,
/// that issue.
proof fn lemma_block_scan_ctoc_facts(s: Seq<Block>)
    ensures
        block_scan(s).1.len() == s.len(),
        block_scan(s).0.last_complete is Some <==> exists|j: int| 0 <= j < s.len() && #[trigger] is_block_complete(s[j]),
        block_scan(s).0.last_complete is Some ==> exists|j: int| 0 <= j < s.len() && #[trigger] is_block_complete(s[j])
            && block_scan(s).0.last_complete->0 == s[j].time
            && forall|m: int| j < m < s.len() ==> !is_block_complete(#[trigger] s[m]),
        block_scan(s).0.first_c ==> exists|k: int| 0 <= k < s.len() && #[trigger] is_block_issue(s[k])
            && block_scan(s).1[k].qd == 1
            && forall|m: int| k < m < s.len() ==> !is_block_complete(#[trigger] s[m]),
    decreases s.len(),
{
    lemma_block_actions_differ();
    if s.len() > 0 {
        let t = s.drop_last();
        lemma_block_scan_ctoc_facts(t);
        let prev = block_scan(t);
        let e = s.last();
        let n = s.len() - 1;
        let st = block_scan(s).0;
        let r = block_scan(s).1;
        assert(forall|m: int| 0 <= m < n ==> #[trigger] s[m] == t[m]);
        assert(forall|m: int| 0 <= m < n ==> #[trigger] r[m] == prev.1[m]);
        if is_block_complete(e) {
            assert(is_block_complete(s[n]));
        } else {
            assert(st.last_complete == prev.0.last_complete);
            if prev.0.last_complete is Some {
                let j = choose|j: int| 0 <= j < t.len() && #[trigger] is_block_complete(t[j])
                    && prev.0.last_complete->0 == t[j].time
                    && forall|m: int| j < m < t.len() ==> !is_block_complete(#[trigger] t[m]);
                assert(is_block_complete(s[j]));
                assert forall|m: int| j < m < s.len() implies !is_block_complete(#[trigger] s[m]) by {
                    if m < n {
                        assert(!is_block_complete(t[m]));
                    }
                }
            }
            if exists|j: int| 0 <= j < s.len() && #[trigger] is_block_complete(s[j]) {
                let j = choose|j: int| 0 <= j < s.len() && #[trigger] is_block_complete(s[j]);
                assert(j < n);
                assert(is_block_complete(t[j]));
            }
            if is_block_issue(e) && prev.0.qd + 1 == 1 {
                assert(r[n].qd == 1);
                assert(is_block_issue(s[n]));
            } else if st.first_c {
                assert(prev.0.first_c);
                let k = choose|k: int| 0 <= k < t.len() && #[trigger] is_block_issue(t[k])
                    && prev.1[k].qd == 1
                    && forall|m: int| k < m < t.len() ==> !is_block_complete(#[trigger] t[m]);
                assert(is_block_issue(s[k]));
                assert forall|m: int| k < m < s.len() implies !is_block_complete(#[trigger] s[m]) by {
                    if m < n {
                        assert(!is_block_complete(t[m]));
                    }
                }
            }
        }
    }
}

/// Complete-to-complete latency of block requests: a completion that is not
/// the first one after an issue found the queue empty (no such issue, with
/// queue depth 1 after it, lies between it and the completion before it)
/// gets as `ctoc` the time since the most recent earlier completion, in
/// processing order (by time, repeated issues dropped).
pub proof fn lemma_block_ctoc_since_previous_completion(list: Seq<Block>, i: int, j: int)
    requires
        0 <= j < i < dedup_scan(block_by_time(list)).1.len(),
        is_block_complete(dedup_scan(block_by_time(list)).1[i]),
        is_block_complete(dedup_scan(block_by_time(list)).1[j]),
        forall|m: int| j < m < i ==> !is_block_complete(#[trigger] dedup_scan(block_by_time(list)).1[m]),
        forall|m: int| j < m < i && is_block_issue(#[trigger] dedup_scan(block_by_time(list)).1[m]) ==> block_latency_spec(list)[m].qd != 1,
    ensures
        block_latency_spec(list)[i].ctoc == dedup_scan(block_by_time(list)).1[i].time - dedup_scan(block_by_time(list)).1[j].time,
{
    let s = dedup_scan(block_by_time(list)).1;
    let r = block_latency_spec(list);
    lemma_block_actions_differ();
    lemma_block_scan_shape(s);
    let p = s.take(i);
    lemma_block_scan_ctoc_facts(p);
    lemma_block_scan_prefix(s, i);
    lemma_block_scan_prefix(s, i + 1);
    assert(s.take(i + 1).drop_last() =~= p);
    assert(s.take(i + 1).last() == s[i]);
    let st = block_scan(p).0;
    assert(r[i] == block_scan(s.take(i + 1)).1[i]);
    assert(block_scan(s.take(i + 1)).1[i] == block_step(st, s[i]).1);
    assert(is_block_complete(p[j]));
    let w = choose|w: int| 0 <= w < p.len() && #[trigger] is_block_complete(p[w])
        && st.last_complete->0 == p[w].time
        && forall|m: int| w < m < p.len() ==> !is_block_complete(#[trigger] p[m]);
    if w < j {
        assert(!is_block_complete(p[j]));
    }
    if w > j {
        assert(!is_block_complete(s[w]));
    }
    assert(w == j);
    if st.first_c {
        let k = choose|k: int| 0 <= k < p.len() && #[trigger] is_block_issue(p[k])
            && block_scan(p).1[k].qd == 1
            && forall|m: int| k < m < p.len() ==> !is_block_complete(#[trigger] p[m]);
        if k < j {
            assert(!is_block_complete(p[j]));
        }
        assert(k != j);
        assert(block_scan(p).1[k] == r[k]);
        assert(is_block_issue(s[k]));
        assert(false);
    }
}



proof fn lemma_block_first_c_at(p: Seq<Block>, k: int)
    requires
        p.len() <= u32::MAX,
        0 <= k < p.len(),
        is_block_issue(p[k]),
        block_scan(p).1[k].qd == 1,
        forall|m: int| k < m < p.len() ==> !is_block_complete(#[trigger] p[m]),
    ensures
        block_scan(p).0.first_c,
        block_scan(p).0.first_complete_time == p[k].time,
{
    lemma_block_scan_facts(p);
}

/// Complete-to-complete latency of the first block completion after an
/// issue found the queue empty: its `ctoc` is the time since that issue.
pub proof fn lemma_block_ctoc_first_completion(list: Seq<Block>, i: int, k: int)
    requires
        list.len() <= u32::MAX,
        0 <= k < i < dedup_scan(block_by_time(list)).1.len(),
        is_block_complete(dedup_scan(block_by_time(list)).1[i]),
        is_block_issue(dedup_scan(block_by_time(list)).1[k]),
        block_latency_spec(list)[k].qd == 1,
        forall|m: int| k < m < i ==> !is_block_complete(#[trigger] dedup_scan(block_by_time(list)).1[m]),
    ensures
        block_latency_spec(list)[i].ctoc == dedup_scan(block_by_time(list)).1[i].time - dedup_scan(block_by_time(list)).1[k].time,
{
    let t = dedup_scan(block_by_time(list)).1;
    let r = block_latency_spec(list);
    lemma_block_by_time(list);
    lemma_dedup_len(block_by_time(list));
    lemma_block_actions_differ();
    lemma_block_scan_shape(t);
    let p = t.take(i);
    lemma_block_scan_prefix(t, i);
    lemma_block_scan_prefix(t, i + 1);
    assert(t.take(i + 1).drop_last() =~= p);
    assert(t.take(i + 1).last() == t[i]);
    let st = block_scan(p).0;
    assert(r[i] == block_scan(t.take(i + 1)).1[i]);
    assert(r[i] == block_step(st, t[i]).1);
    assert(block_scan(p).1[k] == r[k]);
    assert(is_block_issue(p[k]));
    assert forall|m: int| k < m < p.len() implies !is_block_complete(#[trigger] p[m]) by {
        assert(!is_block_complete(t[m]));
    }
    lemma_block_first_c_at(p, k);
    assert(st.first_c);
    assert(block_step(st, t[i]).1.ctoc == t[i].time - st.first_complete_time);
}


/// Queue depth of block requests, in processing order (by time, repeated
/// issues and empty write completions dropped): an issue adds one to the
/// depth left by the event before it (0 before the first event), a
/// completion takes one away but never goes below 0, and any other event
/// leaves it as it was.
pub proof fn lemma_block_queue_depth(list: Seq<Block>)
    requires
        list.len() <= u32::MAX,
    ensures
        ({
            let t = dedup_scan(block_by_time(list)).1;
            let r = block_latency_spec(list);
            &&& r.len() == t.len()
            &&& forall|i: int| 0 <= i < t.len() ==> {
                let before = if i == 0 { 0int } else { r[i - 1].qd as int };
                (#[trigger] r[i]).qd == (if is_block_issue(t[i]) {
                    before + 1
                } else if is_block_complete(t[i]) {
                    if before > 0 { before - 1 } else { 0 }
                } else {
                    before
                })
            }
        }),
{
    lemma_block_by_time(list);
    let t = dedup_scan(block_by_time(list)).1;
    lemma_dedup_len(block_by_time(list));
    lemma_block_scan_depth(t);
}

#[verifier::spinoff_prover]
#[verifier::rlimit(50)]
proof fn lemma_block_scan_depth(t: Seq<Block>)
    requires
        t.len() <= u32::MAX,
    ensures
        block_scan(t).1.len() == t.len(),
        0 <= block_scan(t).0.qd <= t.len(),
        block_scan(t).0.qd == (if t.len() == 0 { 0int } else { block_scan(t).1[t.len() - 1].qd as int }),
        forall|i: int| 0 <= i < t.len() ==> {
            let before = if i == 0 { 0int } else { block_scan(t).1[i - 1].qd as int };
            (#[trigger] block_scan(t).1[i]).qd == (if is_block_issue(t[i]) {
                before + 1
            } else if is_block_complete(t[i]) {
                if before > 0 { before - 1 } else { 0 }
            } else {
                before
            })
        },
    decreases t.len(),
{
    lemma_block_actions_differ();
    lemma_block_scan_shape(t);
    if t.len() > 0 {
        let p = t.drop_last();
        lemma_block_scan_depth(p);
        let n = t.len() - 1;
        let prev = block_scan(p);
        let r = block_scan(t).1;
        let e = t.last();
        assert(forall|m: int| 0 <= m < n ==> #[trigger] t[m] == p[m]);
        assert(forall|m: int| 0 <= m < n ==> #[trigger] r[m] == prev.1[m]);
        assert(r[n].qd == block_step(prev.0, e).1.qd);
        assert(block_scan(t).0.qd == block_step(prev.0, e).0.qd);
        if n > 0 {
            assert(prev.0.qd == r[n - 1].qd);
        }
        assert(block_scan(t).0.qd == r[n].qd);
    }
}


/// The event is an issue of a read, write or discard.
pub open spec fn is_block_data_issue(b: Block) -> bool {
    is_block_issue(b) && block_op(b) != 3
}

/// The key under which a completion is matched with its issue:
/// `(sector, operation)`.
pub open spec fn block_request_key(b: Block) -> (u64, u8) {
    (b.sector, block_op(b))
}

proof fn lemma_block_step_at(t: Seq<Block>, i: int)
    requires
        0 <= i < t.len(),
    ensures
        block_scan(t).1[i] == block_step(block_scan(t.take(i)).0, t[i]).1,
        block_scan(t.take(i)).1 == block_scan(t).1.take(i),
{
    lemma_block_scan_shape(t);
    lemma_block_scan_prefix(t, i);
    lemma_block_scan_prefix(t, i + 1);
    let q = t.take(i + 1);
    assert(q.drop_last() =~= t.take(i));
    assert(q.last() == t[i]);
    lemma_block_scan_shape(t.take(i));
    assert(block_scan(q).1 == block_scan(t.take(i)).1.push(block_step(block_scan(t.take(i)).0, t[i]).1));
    assert(block_scan(q).1[i] == block_step(block_scan(t.take(i)).0, t[i]).1);
    assert(block_scan(t).1.take(i + 1)[i] == block_scan(t).1[i]);
}

/// What the scan holds of the previous read, write or discard issue after
/// `t`: its end sector and operation, or nothing when there was none.
proof fn lemma_block_scan_prev_issue(t: Seq<Block>)
    ensures
        (block_scan(t).0.prev_op is Some) == (block_scan(t).0.prev_end_sector is Some),
        block_scan(t).0.prev_op is None ==> forall|k: int| 0 <= k < t.len() ==> !is_block_data_issue(#[trigger] t[k]),
        block_scan(t).0.prev_op is Some ==> exists|k: int| 0 <= k < t.len() && #[trigger] is_block_data_issue(t[k])
            && block_scan(t).0.prev_end_sector->0 == t[k].sector + t[k].size
            && block_scan(t).0.prev_op->0 == block_op(t[k])
            && forall|m: int| k < m < t.len() ==> !is_block_data_issue(#[trigger] t[m]),
    decreases t.len(),
{
    lemma_block_actions_differ();
    if t.len() > 0 {
        let p = t.drop_last();
        lemma_block_scan_prev_issue(p);
        let n = t.len() - 1;
        let prev = block_scan(p).0;
        let st = block_scan(t).0;
        let e = t.last();
        assert(forall|m: int| 0 <= m < n ==> #[trigger] t[m] == p[m]);
        assert(st == block_step(prev, e).0);
        if is_block_data_issue(e) {
            assert(st.prev_op == Some(block_op(e)));
            assert(st.prev_end_sector == Some(e.sector + e.size));
            assert(is_block_data_issue(t[n]));
        } else {
            assert(st.prev_op == prev.prev_op);
            assert(st.prev_end_sector == prev.prev_end_sector);
            assert(!is_block_data_issue(t[n]));
            if prev.prev_op is Some {
                let k = choose|k: int| 0 <= k < p.len() && #[trigger] is_block_data_issue(p[k])
                    && prev.prev_end_sector->0 == p[k].sector + p[k].size
                    && prev.prev_op->0 == block_op(p[k])
                    && forall|m: int| k < m < p.len() ==> !is_block_data_issue(#[trigger] p[m]);
                assert(is_block_data_issue(t[k]));
                assert forall|m: int| k < m < t.len() implies !is_block_data_issue(#[trigger] t[m]) by {
                    if m < n {
                        assert(!is_block_data_issue(p[m]));
                    }
                }
            } else {
                assert forall|k: int| 0 <= k < t.len() implies !is_block_data_issue(#[trigger] t[k]) by {
                    if k < n {
                        assert(!is_block_data_issue(p[k]));
                    }
                }
            }
        }
    }
}

/// Continuity of block requests, in processing order (by time, repeated
/// issues and empty write completions dropped): an issue continues the
/// most recent earlier read, write or discard issue exactly when it starts
/// at that request's end sector with the same operation (an issue of
/// another kind never does); an issue with no such request before it
/// continues nothing.
pub proof fn lemma_block_continuity(list: Seq<Block>, i: int, j: int)
    requires
        list.len() <= u32::MAX,
    ensures
        ({
            let t = dedup_scan(block_by_time(list)).1;
            let r = block_latency_spec(list);
            &&& r.len() == t.len()
            &&& (0 <= j < i < t.len() && is_block_issue(t[i]) && is_block_data_issue(t[j])
                && (forall|m: int| j < m < i ==> !is_block_data_issue(#[trigger] t[m])))
                ==> r[i].continuous == (block_op(t[i]) != 3 && t[i].sector == t[j].sector + t[j].size
                    && block_op(t[i]) == block_op(t[j]))
            &&& (0 <= i < t.len() && is_block_issue(t[i]) && (forall|m: int| 0 <= m < i ==> !is_block_data_issue(#[trigger] t[m])))
                ==> !r[i].continuous
        }),
{
    lemma_block_by_time(list);
    let t = dedup_scan(block_by_time(list)).1;
    lemma_dedup_len(block_by_time(list));
    lemma_block_scan_shape(t);
    if 0 <= i < t.len() && is_block_issue(t[i]) {
        lemma_block_step_at(t, i);
        let p = t.take(i);
        lemma_block_scan_prev_issue(p);
        let st = block_scan(p).0;
        if 0 <= j < i && is_block_data_issue(t[j]) && (forall|m: int| j < m < i ==> !is_block_data_issue(#[trigger] t[m])) {
            assert(is_block_data_issue(p[j]));
            let k = choose|k: int| 0 <= k < p.len() && #[trigger] is_block_data_issue(p[k])
                && st.prev_end_sector->0 == p[k].sector + p[k].size
                && st.prev_op->0 == block_op(p[k])
                && forall|m: int| k < m < p.len() ==> !is_block_data_issue(#[trigger] p[m]);
            if k < j {
                assert(!is_block_data_issue(p[j]));
            }
            if k > j {
                assert(!is_block_data_issue(t[k]));
            }
            assert(k == j);
        }
        if forall|m: int| 0 <= m < i ==> !is_block_data_issue(#[trigger] t[m]) {
            if st.prev_op is Some {
                let k = choose|k: int| 0 <= k < p.len() && #[trigger] is_block_data_issue(p[k])
                    && st.prev_end_sector->0 == p[k].sector + p[k].size
                    && st.prev_op->0 == block_op(p[k])
                    && forall|m: int| k < m < p.len() ==> !is_block_data_issue(#[trigger] p[m]);
                assert(!is_block_data_issue(t[k]));
            }
        }
    }
}


/// What the scan holds for `key` after `t`: the time of the latest issue
/// with that key when no issue or completion with that key followed it.
proof fn lemma_block_scan_pending(t: Seq<Block>, key: (u64, u8))
    ensures
        keys_unique(block_scan(t).0.pending),
        forall|k: int| 0 <= k < t.len() && #[trigger] is_block_issue(t[k]) && block_request_key(t[k]) == key
            && (forall|m: int| k < m < t.len() && (is_block_issue(#[trigger] t[m]) || is_block_complete(t[m]))
                ==> block_request_key(t[m]) != key)
            ==> key_value(block_scan(t).0.pending, key) == Some(t[k].time),
    decreases t.len(),
{
    lemma_block_actions_differ();
    if t.len() > 0 {
        let p = t.drop_last();
        lemma_block_scan_pending(p, key);
        let n = t.len() - 1;
        let prev = block_scan(p);
        let st = block_scan(t).0;
        let e = t.last();
        assert(forall|m: int| 0 <= m < n ==> #[trigger] t[m] == p[m]);
        assert(st == block_step(prev.0, e).0);
        if is_block_issue(e) {
            lemma_put_key_value(prev.0.pending, block_request_key(e), e.time, key);
            assert(st.pending == put_key(prev.0.pending, block_request_key(e), e.time));
        } else if is_block_complete(e) {
            lemma_drop_key_value(prev.0.pending, block_request_key(e), key);
            assert(st.pending == drop_key(prev.0.pending, block_request_key(e)));
        } else {
            assert(st.pending == prev.0.pending);
        }
        assert forall|k: int| 0 <= k < t.len() && #[trigger] is_block_issue(t[k]) && block_request_key(t[k]) == key
            && (forall|m: int| k < m < t.len() && (is_block_issue(#[trigger] t[m]) || is_block_complete(t[m]))
                ==> block_request_key(t[m]) != key)
            implies key_value(st.pending, key) == Some(t[k].time) by {
            if k < n {
                assert(is_block_issue(p[k]));
                assert(is_block_issue(t[n]) || is_block_complete(t[n]) ==> block_request_key(t[n]) != key);
                assert forall|m: int| k < m < p.len() && (is_block_issue(#[trigger] p[m]) || is_block_complete(p[m]))
                    implies block_request_key(p[m]) != key by {
                    assert(is_block_issue(t[m]) || is_block_complete(t[m]));
                }
            }
        }
    }
}

/// Dispatch-to-complete latency of block requests, in processing order (by
/// time, repeated issues and empty write completions dropped): a
/// completion gets as `dtoc` the time since the latest issue with the same
/// sector and operation, when no other issue or completion of that sector
/// and operation came between them.
pub proof fn lemma_block_dtoc_since_matching_issue(list: Seq<Block>, i: int, k: int)
    requires
        0 <= k < i < dedup_scan(block_by_time(list)).1.len(),
        is_block_complete(dedup_scan(block_by_time(list)).1[i]),
        is_block_issue(dedup_scan(block_by_time(list)).1[k]),
        block_request_key(dedup_scan(block_by_time(list)).1[k]) == block_request_key(dedup_scan(block_by_time(list)).1[i]),
        forall|m: int| k < m < i && (is_block_issue(#[trigger] dedup_scan(block_by_time(list)).1[m])
            || is_block_complete(dedup_scan(block_by_time(list)).1[m]))
            ==> block_request_key(dedup_scan(block_by_time(list)).1[m]) != block_request_key(dedup_scan(block_by_time(list)).1[i]),
    ensures
        block_latency_spec(list)[i].dtoc == dedup_scan(block_by_time(list)).1[i].time - dedup_scan(block_by_time(list)).1[k].time,
{
    let t = dedup_scan(block_by_time(list)).1;
    let key = block_request_key(t[i]);
    lemma_block_actions_differ();
    lemma_block_step_at(t, i);
    let p = t.take(i);
    let st = block_scan(p).0;
    lemma_block_scan_pending(p, key);
    assert(is_block_issue(p[k]));
    assert forall|m: int| k < m < p.len() && (is_block_issue(#[trigger] p[m]) || is_block_complete(p[m]))
        implies block_request_key(p[m]) != key by {
        assert(is_block_issue(t[m]) || is_block_complete(t[m]));
    }
    assert(key_value(st.pending, key) == Some(t[k].time));
    assert(block_step(st, t[i]).1.dtoc == t[i].time - st.pending[find_key(st.pending, key)].1);
}


/// A completion that takes `key` off the outstanding issues: one that is
/// not an empty write.
pub open spec fn dedup_clears(b: Block, key: (u64, u8, u32)) -> bool {
    is_block_complete(b) && !(is_write_type(b) && b.size == 0) && dedup_key(b) == key
}

/// Among the first `n` events an issue with `key` has not been followed by
/// a completion that takes it off.
pub open spec fn dedup_outstanding(t: Seq<Block>, n: int, key: (u64, u8, u32)) -> bool {
    exists|k: int| 0 <= k < n && #[trigger] is_block_issue(t[k]) && dedup_key(t[k]) == key
        && forall|m: int| k < m < n ==> !dedup_clears(#[trigger] t[m], key)
}

/// Whether the duplicate filter keeps event `i` of `t`: an issue unless its
/// `(sector, operation, size)` is still outstanding, a completion unless
/// it is an empty write, any other event always.
pub open spec fn dedup_keeps(t: Seq<Block>, i: int) -> bool {
    if is_block_issue(t[i]) {
        !dedup_outstanding(t, i, dedup_key(t[i]))
    } else if is_block_complete(t[i]) {
        !(is_write_type(t[i]) && t[i].size == 0)
    } else {
        true
    }
}

proof fn lemma_dedup_issued(t: Seq<Block>, key: (u64, u8, u32))
    ensures
        keys_unique(dedup_scan(t).0),
        (key_value(dedup_scan(t).0, key) is Some) == dedup_outstanding(t, t.len() as int, key),
    decreases t.len(),
{
    lemma_block_actions_differ();
    if t.len() > 0 {
        let p = t.drop_last();
        let n = p.len() as int;
        lemma_dedup_issued(p, key);
        let e = t[n];
        let issued = dedup_scan(p).0;
        let now = dedup_scan(t).0;
        assert(forall|m: int| 0 <= m < n ==> #[trigger] t[m] == p[m]);
        assert(now == dedup_step(issued, e).0);
        lemma_dedup_issued(p, dedup_key(e));
        lemma_put_key_value(issued, dedup_key(e), (), key);
        lemma_drop_key_value(issued, dedup_key(e), key);
        let before = dedup_outstanding(p, n, key);
        let after = dedup_outstanding(t, n + 1, key);
        // an outstanding issue among the first n stays so unless event n takes it off
        if before && !dedup_clears(e, key) {
            let k = choose|k: int| 0 <= k < n && #[trigger] is_block_issue(p[k]) && dedup_key(p[k]) == key
                && forall|m: int| k < m < n ==> !dedup_clears(#[trigger] p[m], key);
            assert(is_block_issue(t[k]));
            assert forall|m: int| k < m < n + 1 implies !dedup_clears(#[trigger] t[m], key) by {
                if m < n {
                    assert(!dedup_clears(p[m], key));
                }
            }
            assert(after);
        }
        if after {
            let k = choose|k: int| 0 <= k < n + 1 && #[trigger] is_block_issue(t[k]) && dedup_key(t[k]) == key
                && forall|m: int| k < m < n + 1 ==> !dedup_clears(#[trigger] t[m], key);
            if k < n {
                assert(is_block_issue(p[k]));
                assert forall|m: int| k < m < n implies !dedup_clears(#[trigger] p[m], key) by {
                    assert(!dedup_clears(t[m], key));
                }
                assert(before);
                assert(!dedup_clears(t[n], key));
            } else {
                assert(is_block_issue(e) && dedup_key(e) == key);
            }
        }
        if dedup_clears(e, key) {
            if after {
                let k = choose|k: int| 0 <= k < n + 1 && #[trigger] is_block_issue(t[k]) && dedup_key(t[k]) == key
                    && forall|m: int| k < m < n + 1 ==> !dedup_clears(#[trigger] t[m], key);
                assert(!dedup_clears(t[n], key));
            }
            assert(!after);
        }
        if is_block_issue(e) && dedup_key(e) == key {
            assert(forall|m: int| n < m < n + 1 ==> !dedup_clears(#[trigger] t[m], key));
            assert(is_block_issue(t[n]));
            assert(after);
        }
    }
}

/// The duplicate filter of the block post-processing, over the events in
/// time order: the events it keeps from the first `i + 1` are those it
/// keeps from the first `i`, followed by event `i` exactly when
/// `dedup_keeps` says so: a repeated issue of a request that is still
/// outstanding is dropped, as is an empty write completion; every other
/// event stays.
pub proof fn lemma_block_dedup_keeps(list: Seq<Block>, i: int)
    requires
        list.len() <= usize::MAX,
        0 <= i < list.len(),
    ensures
        ({
            let t = block_by_time(list);
            dedup_scan(t.take(i + 1)).1
                == dedup_scan(t.take(i)).1 + (if dedup_keeps(t, i) { seq![t[i]] } else { Seq::<Block>::empty() })
        }),
{
    lemma_block_by_time(list);
    let t = block_by_time(list);
    let q = t.take(i + 1);
    let p = t.take(i);
    assert(q.drop_last() =~= p);
    assert(q.last() == t[i]);
    let e = t[i];
    lemma_dedup_issued(p, dedup_key(e));
    assert(forall|m: int| 0 <= m < i ==> #[trigger] p[m] == t[m]);
    if is_block_issue(e) {
        if dedup_outstanding(p, i, dedup_key(e)) {
            let k = choose|k: int| 0 <= k < i && #[trigger] is_block_issue(p[k]) && dedup_key(p[k]) == dedup_key(e)
                && forall|m: int| k < m < i ==> !dedup_clears(#[trigger] p[m], dedup_key(e));
            assert(is_block_issue(t[k]));
            assert forall|m: int| k < m < i implies !dedup_clears(#[trigger] t[m], dedup_key(e)) by {
                assert(!dedup_clears(p[m], dedup_key(e)));
            }
            assert(dedup_outstanding(t, i, dedup_key(e)));
        }
        if dedup_outstanding(t, i, dedup_key(e)) {
            let k = choose|k: int| 0 <= k < i && #[trigger] is_block_issue(t[k]) && dedup_key(t[k]) == dedup_key(e)
                && forall|m: int| k < m < i ==> !dedup_clears(#[trigger] t[m], dedup_key(e));
            assert(is_block_issue(p[k]));
            assert forall|m: int| k < m < i implies !dedup_clears(#[trigger] p[m], dedup_key(e)) by {
                assert(!dedup_clears(t[m], dedup_key(e)));
            }
            assert(dedup_outstanding(p, i, dedup_key(e)));
        }
    }
    if dedup_keeps(t, i) {
        assert(dedup_scan(q).1 =~= dedup_scan(p).1 + seq![t[i]]);
    } else {
        assert(dedup_scan(q).1 =~= dedup_scan(p).1 + Seq::<Block>::empty());
    }
}


/// Among the first `n` events an issue with `key` has been followed by no
/// issue or completion with that key.
pub open spec fn block_issue_outstanding(t: Seq<Block>, n: int, key: (u64, u8)) -> bool {
    exists|k: int| 0 <= k < n && #[trigger] is_block_issue(t[k]) && block_request_key(t[k]) == key
        && forall|m: int| k < m < n && (is_block_issue(#[trigger] t[m]) || is_block_complete(t[m]))
            ==> block_request_key(t[m]) != key
}

/// The scan holds a time for `key` after `t` only while an issue with that
/// key is outstanding.
proof fn lemma_block_scan_pending_held(t: Seq<Block>, key: (u64, u8))
    ensures
        keys_unique(block_scan(t).0.pending),
        key_value(block_scan(t).0.pending, key) is Some ==> block_issue_outstanding(t, t.len() as int, key),
    decreases t.len(),
{
    lemma_block_actions_differ();
    if t.len() > 0 {
        let p = t.drop_last();
        lemma_block_scan_pending_held(p, key);
        let n = p.len() as int;
        let prev = block_scan(p);
        let st = block_scan(t).0;
        let e = t[n];
        assert(forall|m: int| 0 <= m < n ==> #[trigger] t[m] == p[m]);
        assert(st == block_step(prev.0, e).0);
        if is_block_issue(e) {
            lemma_put_key_value(prev.0.pending, block_request_key(e), e.time, key);
            assert(st.pending == put_key(prev.0.pending, block_request_key(e), e.time));
        } else if is_block_complete(e) {
            lemma_drop_key_value(prev.0.pending, block_request_key(e), key);
            assert(st.pending == drop_key(prev.0.pending, block_request_key(e)));
        } else {
            assert(st.pending == prev.0.pending);
        }
        if key_value(st.pending, key) is Some {
            if is_block_issue(e) && block_request_key(e) == key {
                assert(is_block_issue(t[n]));
                assert(block_issue_outstanding(t, n + 1, key));
            } else {
                assert(key_value(prev.0.pending, key) is Some);
                let k = choose|k: int| 0 <= k < n && #[trigger] is_block_issue(p[k]) && block_request_key(p[k]) == key
                    && forall|m: int| k < m < n && (is_block_issue(#[trigger] p[m]) || is_block_complete(p[m]))
                        ==> block_request_key(p[m]) != key;
                assert(is_block_issue(t[k]));
                assert forall|m: int| k < m < n + 1 && (is_block_issue(#[trigger] t[m]) || is_block_complete(t[m]))
                    implies block_request_key(t[m]) != key by {
                    if m < n {
                        assert(is_block_issue(p[m]) || is_block_complete(p[m]));
                    }
                }
                assert(block_issue_outstanding(t, n + 1, key));
            }
        }
    }
}

/// What the block post-processing leaves as it came, in processing order
/// (by time, repeated issues and empty write completions dropped): a
/// completion with no outstanding issue of its sector and operation keeps
/// its `dtoc`; a completion with no issue or completion before it keeps
/// its `ctoc`; an issue with no earlier completion that left the queue
/// empty keeps its `ctod`; an issue keeps its `dtoc` and `ctoc`, a
/// completion its `ctod`; any other event keeps all three and continues
/// nothing.
pub proof fn lemma_block_unmeasured_kept(list: Seq<Block>, i: int)
    requires
        list.len() <= u32::MAX,
        0 <= i < dedup_scan(block_by_time(list)).1.len(),
    ensures
        ({
            let t = dedup_scan(block_by_time(list)).1;
            let r = block_latency_spec(list);
            &&& r.len() == t.len()
            &&& is_block_complete(t[i]) && !block_issue_outstanding(t, i, block_request_key(t[i])) ==> r[i].dtoc == t[i].dtoc
            &&& is_block_complete(t[i]) && (forall|m: int| 0 <= m < i ==> !is_block_issue(#[trigger] t[m]) && !is_block_complete(t[m]))
                ==> r[i].ctoc == t[i].ctoc
            &&& is_block_issue(t[i]) && (forall|m: int| 0 <= m < i && is_block_complete(#[trigger] t[m]) ==> r[m].qd != 0)
                ==> r[i].ctod == t[i].ctod
            &&& is_block_issue(t[i]) ==> r[i].dtoc == t[i].dtoc && r[i].ctoc == t[i].ctoc
            &&& is_block_complete(t[i]) ==> r[i].ctod == t[i].ctod && !r[i].continuous
            &&& !is_block_issue(t[i]) && !is_block_complete(t[i])
                ==> r[i].dtoc == t[i].dtoc && r[i].ctoc == t[i].ctoc && r[i].ctod == t[i].ctod && !r[i].continuous
        }),
{
    lemma_block_by_time(list);
    let t = dedup_scan(block_by_time(list)).1;
    let r = block_latency_spec(list);
    lemma_dedup_len(block_by_time(list));
    lemma_block_actions_differ();
    lemma_block_scan_shape(t);
    lemma_block_step_at(t, i);
    let p = t.take(i);
    let st = block_scan(p).0;
    let key = block_request_key(t[i]);
    assert(r[i] == block_step(st, t[i]).1);
    assert(forall|m: int| 0 <= m < i ==> #[trigger] p[m] == t[m]);
    assert(forall|m: int| 0 <= m < i ==> #[trigger] block_scan(p).1[m] == r[m]);
    if is_block_complete(t[i]) && !block_issue_outstanding(t, i, key) {
        lemma_block_scan_pending_held(p, key);
        if key_value(st.pending, key) is Some {
            let k = choose|k: int| 0 <= k < i && #[trigger] is_block_issue(p[k]) && block_request_key(p[k]) == key
                && forall|m: int| k < m < i && (is_block_issue(#[trigger] p[m]) || is_block_complete(p[m]))
                    ==> block_request_key(p[m]) != key;
            assert(is_block_issue(t[k]));
            assert forall|m: int| k < m < i && (is_block_issue(#[trigger] t[m]) || is_block_complete(t[m]))
                implies block_request_key(t[m]) != key by {
                assert(is_block_issue(p[m]) || is_block_complete(p[m]));
            }
            assert(block_issue_outstanding(t, i, key));
        }
    }
    if is_block_complete(t[i]) && (forall|m: int| 0 <= m < i ==> !is_block_issue(#[trigger] t[m]) && !is_block_complete(t[m])) {
        lemma_block_scan_ctoc_facts(p);
        if st.last_complete is Some {
            let j = choose|j: int| 0 <= j < p.len() && #[trigger] is_block_complete(p[j]);
            assert(!is_block_complete(t[j]));
        }
        if st.first_c {
            let k = choose|k: int| 0 <= k < p.len() && #[trigger] is_block_issue(p[k])
                && block_scan(p).1[k].qd == 1
                && forall|m: int| k < m < p.len() ==> !is_block_complete(#[trigger] p[m]);
            assert(!is_block_issue(t[k]));
        }
    }
    if is_block_issue(t[i]) && (forall|m: int| 0 <= m < i && is_block_complete(#[trigger] t[m]) ==> r[m].qd != 0) {
        lemma_block_scan_facts(p);
        if st.last_idle_complete is Some {
            let j = choose|j: int| 0 <= j < p.len()
                && #[trigger] is_block_complete(p[j]) && block_scan(p).1[j].qd == 0
                && st.last_idle_complete->0 == p[j].time
                && forall|m: int| j < m < p.len() && is_block_complete(#[trigger] p[m]) ==> block_scan(p).1[m].qd != 0;
            assert(is_block_complete(t[j]));
            assert(r[j].qd != 0);
        }
    }
}


/// Filtering block events by time and by a zoom column: with the column
/// bounds in force, an event within the time bounds is kept exactly when
/// the field the column names (`sector`, `dtoc`, `ctoc`, `ctod`, `qd` or
/// `cpu`) lies within the column bounds; with a column that cannot be
/// zoomed, no event is kept while the column bounds are in force, and the
/// time bounds alone decide otherwise.
pub proof fn lemma_block_filter_by_column(s: Seq<Block>, tf: Option<i128>, tt: Option<i128>, col: Seq<char>, cf: Option<i128>, ct: Option<i128>)
    ensures
        col == "sector"@ ==> block_filtered(s, tf, tt, col, cf, ct) == s.filter(|b: Block| within(b.time as int, tf, tt)
            && (range_active(cf, ct) ==> cf->0 <= b.sector && b.sector <= ct->0)),
        col == "dtoc"@ ==> block_filtered(s, tf, tt, col, cf, ct) == s.filter(|b: Block| within(b.time as int, tf, tt)
            && (range_active(cf, ct) ==> cf->0 <= b.dtoc && b.dtoc <= ct->0)),
        col == "ctoc"@ ==> block_filtered(s, tf, tt, col, cf, ct) == s.filter(|b: Block| within(b.time as int, tf, tt)
            && (range_active(cf, ct) ==> cf->0 <= b.ctoc && b.ctoc <= ct->0)),
        col == "ctod"@ ==> block_filtered(s, tf, tt, col, cf, ct) == s.filter(|b: Block| within(b.time as int, tf, tt)
            && (range_active(cf, ct) ==> cf->0 <= b.ctod && b.ctod <= ct->0)),
        col == "qd"@ ==> block_filtered(s, tf, tt, col, cf, ct) == s.filter(|b: Block| within(b.time as int, tf, tt)
            && (range_active(cf, ct) ==> cf->0 <= b.qd && b.qd <= ct->0)),
        col == "cpu"@ ==> block_filtered(s, tf, tt, col, cf, ct) == s.filter(|b: Block| within(b.time as int, tf, tt)
            && (range_active(cf, ct) ==> cf->0 <= b.cpu && b.cpu <= ct->0)),
        col != "sector"@ && col != "dtoc"@ && col != "ctoc"@ && col != "ctod"@ && col != "qd"@ && col != "cpu"@
            ==> block_filtered(s, tf, tt, col, cf, ct) == s.filter(|b: Block| within(b.time as int, tf, tt) && !range_active(cf, ct)),
    decreases s.len(),
{
    lemma_column_names_differ();
    reveal(Seq::filter);
    if s.len() == 0 {
        assert(block_filtered(s, tf, tt, col, cf, ct) =~= Seq::<Block>::empty());
        assert(s.filter(|b: Block| within(b.time as int, tf, tt)
            && (range_active(cf, ct) ==> cf->0 <= b.sector && b.sector <= ct->0)) =~= Seq::<Block>::empty());
        assert(s.filter(|b: Block| within(b.time as int, tf, tt)
            && (range_active(cf, ct) ==> cf->0 <= b.dtoc && b.dtoc <= ct->0)) =~= Seq::<Block>::empty());
        assert(s.filter(|b: Block| within(b.time as int, tf, tt)
            && (range_active(cf, ct) ==> cf->0 <= b.ctoc && b.ctoc <= ct->0)) =~= Seq::<Block>::empty());
        assert(s.filter(|b: Block| within(b.time as int, tf, tt)
            && (range_active(cf, ct) ==> cf->0 <= b.ctod && b.ctod <= ct->0)) =~= Seq::<Block>::empty());
        assert(s.filter(|b: Block| within(b.time as int, tf, tt)
            && (range_active(cf, ct) ==> cf->0 <= b.qd && b.qd <= ct->0)) =~= Seq::<Block>::empty());
        assert(s.filter(|b: Block| within(b.time as int, tf, tt)
            && (range_active(cf, ct) ==> cf->0 <= b.cpu && b.cpu <= ct->0)) =~= Seq::<Block>::empty());
        assert(s.filter(|b: Block| within(b.time as int, tf, tt) && !range_active(cf, ct)) =~= Seq::<Block>::empty());
    } else {
        lemma_block_filter_by_column(s.drop_last(), tf, tt, col, cf, ct);
    }
}


/// The latency entries of the block statistics are exactly the
/// completions, in order, with their group and `dtoc` (for column `dtoc`)
/// or `ctoc` (for column `ctoc`), and the issues with their group and
/// `ctod` (for column `ctod`) or their sector times a million (for column
/// `sector`).
pub proof fn lemma_block_latency_items_are_the_column(s: Seq<Block>, group: bool)
    ensures
        block_latency_items(s, "dtoc"@, group)
            == s.filter(|b: Block| is_block_complete(b)).map_values(|b: Block| (block_key(b, group), b.dtoc)),
        block_latency_items(s, "ctoc"@, group)
            == s.filter(|b: Block| is_block_complete(b)).map_values(|b: Block| (block_key(b, group), b.ctoc)),
        block_latency_items(s, "ctod"@, group)
            == s.filter(|b: Block| is_block_issue(b)).map_values(|b: Block| (block_key(b, group), b.ctod)),
        block_latency_items(s, "sector"@, group)
            == s.filter(|b: Block| is_block_issue(b)).map_values(|b: Block| (block_key(b, group), (b.sector * 1_000_000) as i128)),
    decreases s.len(),
{
    lemma_column_names_differ();
    lemma_block_actions_differ();
    reveal(Seq::filter);
    if s.len() == 0 {
        assert(s.filter(|b: Block| is_block_complete(b)) =~= Seq::<Block>::empty());
        assert(s.filter(|b: Block| is_block_issue(b)) =~= Seq::<Block>::empty());
        assert(block_latency_items(s, "dtoc"@, group) =~= s.filter(|b: Block| is_block_complete(b)).map_values(|b: Block| (block_key(b, group), b.dtoc)));
        assert(block_latency_items(s, "ctoc"@, group) =~= s.filter(|b: Block| is_block_complete(b)).map_values(|b: Block| (block_key(b, group), b.ctoc)));
        assert(block_latency_items(s, "ctod"@, group) =~= s.filter(|b: Block| is_block_issue(b)).map_values(|b: Block| (block_key(b, group), b.ctod)));
        assert(block_latency_items(s, "sector"@, group) =~= s.filter(|b: Block| is_block_issue(b)).map_values(|b: Block| (block_key(b, group), (b.sector * 1_000_000) as i128)));
    } else {
        let t = s.drop_last();
        lemma_block_latency_items_are_the_column(t, group);
        let fc = t.filter(|b: Block| is_block_complete(b));
        let fi = t.filter(|b: Block| is_block_issue(b));
        let e = s.last();
        if is_block_complete(e) {
            assert(s.filter(|b: Block| is_block_complete(b)) == fc.push(e));
            assert(fc.push(e).map_values(|b: Block| (block_key(b, group), b.dtoc)) =~= fc.map_values(|b: Block| (block_key(b, group), b.dtoc)).push((block_key(e, group), e.dtoc)));
            assert(fc.push(e).map_values(|b: Block| (block_key(b, group), b.ctoc)) =~= fc.map_values(|b: Block| (block_key(b, group), b.ctoc)).push((block_key(e, group), e.ctoc)));
        } else {
            assert(s.filter(|b: Block| is_block_complete(b)) == fc);
        }
        if is_block_issue(e) {
            assert(s.filter(|b: Block| is_block_issue(b)) == fi.push(e));
            assert(fi.push(e).map_values(|b: Block| (block_key(b, group), b.ctod)) =~= fi.map_values(|b: Block| (block_key(b, group), b.ctod)).push((block_key(e, group), e.ctod)));
            assert(fi.push(e).map_values(|b: Block| (block_key(b, group), (b.sector * 1_000_000) as i128))
                =~= fi.map_values(|b: Block| (block_key(b, group), (b.sector * 1_000_000) as i128)).push((block_key(e, group), (e.sector * 1_000_000) as i128)));
        } else {
            assert(s.filter(|b: Block| is_block_issue(b)) == fi);
        }
    }
}

} // verus!
