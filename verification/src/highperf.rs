//! The fast path over a whole trace file held in memory: line boundaries,
//! a quick look at the shape of each line before its pattern is tried,
//! event parsing in which every field is required, and the split of the
//! file into chunks that end on line boundaries.

use vstd::prelude::*;
use vstd::utf8::*;
use crate::lines::{positions_of, lemma_positions_bound, KIND_UNMATCHED, KIND_CUSTOM, KIND_UFS, KIND_BLOCK};
use crate::matcher::{LinePattern, regex_captures};
use crate::numeric::{
    parse_i32_spec, parse_hex_u32_spec, parse_u32, parse_u64, parse_i32,
    parse_seconds_ns, parse_hex_u32_bytes, lemma_i32_readings_agree,
};
use crate::parse::{
    grp, cap_time, cap_unsigned, abs_int, ufs_lba, block_fields_match, custom_fields_match, block_caps_error,
    ufs_caps_error, ufs_caps_late_error, ufs_fields_match,
    UFS_DEBUG_LBA, MAX_VALID_UFS_LBA,
};
use crate::text::{count_byte, count_bytes, contains_bytes, str_contains, str_from_utf8, str_trim, str_eq, trim_spec};
use crate::types::{UFS, Block, UFSCUSTOM};
use crate::ufs::{ufs_by_time, sort_ufs_by_time};
use crate::block::{block_by_time, sort_block_by_time};
use crate::ufscustom::{custom_by_start, sort_ufscustom_by_start};

verus! {

/// The offsets at which the lines of `d` start: 0, then one past each
/// newline.
pub open spec fn line_starts(d: Seq<u8>) -> Seq<usize>
    decreases d.len(),
{
    if d.len() == 0 {
        seq![0usize]
    } else {
        let p = line_starts(d.drop_last());
        if d.last() == 10 {
            p.push(d.len() as usize)
        } else {
            p
        }
    }
}

pub proof fn lemma_line_starts_len(d: Seq<u8>)
    ensures
        line_starts(d).len() >= 1,
        line_starts(d)[0] == 0,
    decreases d.len(),
{
    if d.len() > 0 {
        lemma_line_starts_len(d.drop_last());
    }
}

/// The line starts are 0 followed by one past each newline, in ascending
/// order: every start after the first follows a newline, they increase,
/// and every newline is followed by one.
pub proof fn lemma_line_starts_follow_newlines(d: Seq<u8>)
    requires
        d.len() <= usize::MAX,
    ensures
        line_starts(d).len() >= 1,
        line_starts(d)[0] == 0,
        forall|j: int| 1 <= j < line_starts(d).len() ==>
            1 <= #[trigger] line_starts(d)[j] <= d.len() && d[line_starts(d)[j] - 1] == 10,
        forall|a: int, b: int| 0 <= a < b < line_starts(d).len() ==> line_starts(d)[a] < line_starts(d)[b],
        forall|i: int| 0 <= i < d.len() && d[i] == 10 ==> line_starts(d).contains((i + 1) as usize),
    decreases d.len(),
{
    lemma_line_starts_len(d);
    if d.len() > 0 {
        let e = d.drop_last();
        lemma_line_starts_follow_newlines(e);
        let p = line_starts(e);
        let s = line_starts(d);
        assert forall|j: int| 0 <= j < p.len() implies p[j] <= e.len() by {
            if j >= 1 {
                assert(1 <= p[j] <= e.len());
            }
        }
        assert forall|j: int| 1 <= j < s.len() implies
            1 <= #[trigger] s[j] <= d.len() && d[s[j] - 1] == 10 by {
            if j < p.len() {
                assert(s[j] == p[j]);
                assert(e[p[j] - 1] == d[p[j] - 1]);
            }
        }
        assert forall|i: int| 0 <= i < d.len() && d[i] == 10 implies s.contains((i + 1) as usize) by {
            if i < e.len() {
                assert(e[i] == d[i]);
                let k = choose|k: int| 0 <= k < p.len() && p[k] == (i + 1) as usize;
                assert(s[k] == p[k]);
            } else {
                assert(s[s.len() - 1] == d.len());
            }
        }
    }
}

/// The offsets at which the lines of `data` start: 0, then one past each
/// newline, in ascending order (`lemma_line_starts_follow_newlines`).
pub fn find_line_boundaries(data: &[u8]) -> (r: Vec<usize>)
    ensures
        r@ == line_starts(data@),
{
    let mut boundaries: Vec<usize> = Vec::new();
    boundaries.push(0);
    assert(data@.take(0) =~= Seq::<u8>::empty());
    assert(boundaries@ =~= seq![0usize]);
    let mut i: usize = 0;
    while i < data.len()
        invariant
            0 <= i <= data.len(),
            boundaries@ == line_starts(data@.take(i as int)),
        decreases data.len() - i,
    {
        assert(data@.take(i + 1).drop_last() =~= data@.take(i as int));
        if data[i] == 10u8 {
            boundaries.push(i + 1);
        }
        i = i + 1;
    }
    assert(data@.take(i as int) =~= data@);
    boundaries
}

/// A signed 32-bit group.
pub open spec fn cap_i32(c: Option<Seq<char>>) -> Option<int> {
    match c {
        Some(t) => parse_i32_spec(encode_utf8(t)),
        None => None,
    }
}

/// A group id: hexadecimal, with or without a leading `0x`, as the
/// capture parser reads it.
pub open spec fn group_id_value(t: Seq<char>) -> Option<int> {
    let b = encode_utf8(t);
    if b.len() >= 2 && b[0] == 48 && b[1] == 120 {
        parse_hex_u32_spec(b.skip(2))
    } else {
        parse_hex_u32_spec(b)
    }
}

pub open spec fn cap_group_id(c: Option<Seq<char>>) -> Option<int> {
    match c {
        Some(t) => group_id_value(t),
        None => None,
    }
}

/// Every field of a UFS event is present and well formed.
pub open spec fn ufs_event_caps_ok(c: Seq<Option<Seq<char>>>, p: LinePattern) -> bool {
    &&& cap_time(grp(c, p, "time"@)) is Some
    &&& grp(c, p, "process"@) is Some
    &&& cap_unsigned(grp(c, p, "cpu"@), u32::MAX as int) is Some
    &&& grp(c, p, "command"@) is Some
    &&& cap_unsigned(grp(c, p, "tag"@), u32::MAX as int) is Some
    &&& cap_i32(grp(c, p, "size"@)) is Some
    &&& cap_unsigned(grp(c, p, "lba"@), u64::MAX as int) is Some
    &&& grp(c, p, "opcode"@) is Some
    &&& cap_group_id(grp(c, p, "group_id"@)) is Some
    &&& cap_unsigned(grp(c, p, "hwq_id"@), u32::MAX as int) is Some
}

/// `u` holds the fields of a UFS event read from the groups `c`.
pub open spec fn ufs_event_fields(c: Seq<Option<Seq<char>>>, p: LinePattern, u: UFS) -> bool {
    &&& u.time as int == cap_time(grp(c, p, "time"@))->0
    &&& u.process@ == grp(c, p, "process"@)->0
    &&& u.cpu as int == cap_unsigned(grp(c, p, "cpu"@), u32::MAX as int)->0
    &&& u.action@ == grp(c, p, "command"@)->0
    &&& u.tag as int == cap_unsigned(grp(c, p, "tag"@), u32::MAX as int)->0
    &&& u.size as int == abs_int(cap_i32(grp(c, p, "size"@))->0) / 4096
    &&& u.lba as int == ufs_lba(cap_unsigned(grp(c, p, "lba"@), u64::MAX as int)->0)
    &&& u.opcode@ == grp(c, p, "opcode"@)->0
    &&& u.groupid as int == cap_group_id(grp(c, p, "group_id"@))->0
    &&& u.hwqid as int == cap_unsigned(grp(c, p, "hwq_id"@), u32::MAX as int)->0
    &&& u.qd == 0 && u.dtoc == 0 && u.ctoc == 0 && u.ctod == 0 && !u.continuous
}

/// The sector group is the all-ones value or a `u64`.
pub open spec fn sector_ok(c: Option<Seq<char>>) -> bool {
    c == Some("18446744073709551615"@) || cap_unsigned(c, u64::MAX as int) is Some
}

/// Every required field of a block event is present and well formed.
pub open spec fn block_event_caps_ok(c: Seq<Option<Seq<char>>>, p: LinePattern) -> bool {
    &&& cap_time(grp(c, p, "time"@)) is Some
    &&& grp(c, p, "process"@) is Some
    &&& cap_unsigned(grp(c, p, "cpu"@), u32::MAX as int) is Some
    &&& grp(c, p, "flags"@) is Some
    &&& grp(c, p, "action"@) is Some
    &&& cap_unsigned(grp(c, p, "devmajor"@), u32::MAX as int) is Some
    &&& cap_unsigned(grp(c, p, "devminor"@), u32::MAX as int) is Some
    &&& grp(c, p, "io_type"@) is Some
    &&& sector_ok(grp(c, p, "sector"@))
    &&& cap_unsigned(grp(c, p, "size"@), u32::MAX as int) is Some
    &&& grp(c, p, "comm"@) is Some
}

/// Every field of a custom UFS request is present and well formed.
pub open spec fn custom_event_caps_ok(c: Seq<Option<Seq<char>>>, p: LinePattern) -> bool {
    &&& grp(c, p, "opcode"@) is Some
    &&& cap_unsigned(grp(c, p, "lba"@), u64::MAX as int) is Some
    &&& cap_unsigned(grp(c, p, "size"@), u32::MAX as int) is Some
    &&& cap_time(grp(c, p, "start_time"@)) is Some
    &&& cap_time(grp(c, p, "end_time"@)) is Some
}

pub open spec fn ufs_event_ok(line: Seq<char>, p: LinePattern) -> bool {
    let c = regex_captures(p.source_text(), line);
    c is Some && ufs_event_caps_ok(c->0, p)
}

pub open spec fn block_event_ok(line: Seq<char>, p: LinePattern) -> bool {
    let c = regex_captures(p.source_text(), line);
    c is Some && block_event_caps_ok(c->0, p)
}

pub open spec fn custom_event_ok(line: Seq<char>, p: LinePattern) -> bool {
    let c = regex_captures(p.source_text(), line);
    c is Some && custom_event_caps_ok(c->0, p)
}

/// The text of a required group.
fn group_text(p: &LinePattern, caps: &Vec<Option<String>>, name: &str) -> (r: Option<String>)
    requires
        p.wf(),
    ensures
        r.deep_view() == grp(caps.deep_view(), *p, name@),
{
    p.named(caps, name)
}

/// A `u32` group.
fn group_u32(p: &LinePattern, caps: &Vec<Option<String>>, name: &str) -> (r: Option<u32>)
    requires
        p.wf(),
    ensures
        match r {
            Some(v) => cap_unsigned(grp(caps.deep_view(), *p, name@), u32::MAX as int) == Some(v as int),
            None => cap_unsigned(grp(caps.deep_view(), *p, name@), u32::MAX as int) is None,
        },
{
    match p.named(caps, name) {
        Some(t) => parse_u32(t.as_str()),
        None => None,
    }
}

/// A `u64` group.
fn group_u64(p: &LinePattern, caps: &Vec<Option<String>>, name: &str) -> (r: Option<u64>)
    requires
        p.wf(),
    ensures
        match r {
            Some(v) => cap_unsigned(grp(caps.deep_view(), *p, name@), u64::MAX as int) == Some(v as int),
            None => cap_unsigned(grp(caps.deep_view(), *p, name@), u64::MAX as int) is None,
        },
{
    match p.named(caps, name) {
        Some(t) => parse_u64(t.as_str()),
        None => None,
    }
}

/// A timestamp group, in nanoseconds.
fn group_time(p: &LinePattern, caps: &Vec<Option<String>>, name: &str) -> (r: Option<u64>)
    requires
        p.wf(),
    ensures
        match r {
            Some(v) => cap_time(grp(caps.deep_view(), *p, name@)) == Some(v as int),
            None => cap_time(grp(caps.deep_view(), *p, name@)) is None,
        },
{
    match p.named(caps, name) {
        Some(t) => parse_seconds_ns(t.as_str()),
        None => None,
    }
}

/// A group id, hexadecimal with or without a leading `0x`.
fn group_id_of(t: &str) -> (r: Option<u32>)
    ensures
        match r {
            Some(v) => group_id_value(t@) == Some(v as int),
            None => group_id_value(t@) is None,
        },
{
    let b = t.as_bytes();
    if b.len() >= 2 && b[0] == 48u8 && b[1] == 120u8 {
        let rest = vstd::slice::slice_subrange(b, 2, b.len());
        assert(rest@ =~= b@.skip(2));
        parse_hex_u32_bytes(rest)
    } else {
        parse_hex_u32_bytes(b)
    }
}

/// Reads a UFS event from `line` with `p`; every group must be present and
/// well formed. The size is kept in 4 KiB units and debug or implausible
/// LBAs count as 0.
pub fn parse_ufs_event(line: &str, p: &LinePattern) -> (r: Option<UFS>)
    requires
        p.wf(),
    ensures
        r is Some <==> ufs_event_ok(line@, *p),
        r matches Some(u) ==> ufs_event_fields(regex_captures(p.source_text(), line@)->0, *p, u),
{
    let caps = match p.captures(line) {
        Some(c) => c,
        None => return None,
    };
    let time = match group_time(p, &caps, "time") {
        Some(v) => v,
        None => return None,
    };
    let process = match group_text(p, &caps, "process") {
        Some(v) => v,
        None => return None,
    };
    let cpu = match group_u32(p, &caps, "cpu") {
        Some(v) => v,
        None => return None,
    };
    let action = match group_text(p, &caps, "command") {
        Some(v) => v,
        None => return None,
    };
    let tag = match group_u32(p, &caps, "tag") {
        Some(v) => v,
        None => return None,
    };
    let size_raw: i32 = match group_text(p, &caps, "size") {
        Some(t) => match parse_i32(t.as_str()) {
            Some(v) => v,
            None => return None,
        },
        None => return None,
    };
    let abs: u64 = if size_raw < 0 { (0i64 - size_raw as i64) as u64 } else { size_raw as u64 };
    let size: u32 = (abs / 4096) as u32;
    let raw_lba = match group_u64(p, &caps, "lba") {
        Some(v) => v,
        None => return None,
    };
    let lba: u64 = if raw_lba == UFS_DEBUG_LBA || raw_lba > MAX_VALID_UFS_LBA { 0 } else { raw_lba };
    let opcode = match group_text(p, &caps, "opcode") {
        Some(v) => v,
        None => return None,
    };
    let groupid = match group_text(p, &caps, "group_id") {
        Some(t) => match group_id_of(t.as_str()) {
            Some(v) => v,
            None => return None,
        },
        None => return None,
    };
    let hwqid = match group_u32(p, &caps, "hwq_id") {
        Some(v) => v,
        None => return None,
    };
    Some(UFS {
        time,
        process,
        cpu,
        action,
        tag,
        opcode,
        lba,
        size,
        groupid,
        hwqid,
        qd: 0,
        dtoc: 0,
        ctoc: 0,
        ctod: 0,
        continuous: false,
    })
}

/// Reads a block event from `line` with `p`; every group but `extra` must
/// be present and well formed. The all-ones sector counts as 0.
pub fn parse_block_io_event(line: &str, p: &LinePattern) -> (r: Option<Block>)
    requires
        p.wf(),
    ensures
        r is Some <==> block_event_ok(line@, *p),
        r matches Some(b) ==> block_fields_match(regex_captures(p.source_text(), line@)->0, *p, b),
{
    let caps = match p.captures(line) {
        Some(c) => c,
        None => return None,
    };
    let time = match group_time(p, &caps, "time") {
        Some(v) => v,
        None => return None,
    };
    let process = match group_text(p, &caps, "process") {
        Some(v) => v,
        None => return None,
    };
    let cpu = match group_u32(p, &caps, "cpu") {
        Some(v) => v,
        None => return None,
    };
    let flags = match group_text(p, &caps, "flags") {
        Some(v) => v,
        None => return None,
    };
    let action = match group_text(p, &caps, "action") {
        Some(v) => v,
        None => return None,
    };
    let devmajor = match group_u32(p, &caps, "devmajor") {
        Some(v) => v,
        None => return None,
    };
    let devminor = match group_u32(p, &caps, "devminor") {
        Some(v) => v,
        None => return None,
    };
    let io_type = match group_text(p, &caps, "io_type") {
        Some(v) => v,
        None => return None,
    };
    let extra: u32 = match group_u32(p, &caps, "extra") {
        Some(v) => v,
        None => 0,
    };
    let sector: u64 = match group_text(p, &caps, "sector") {
        Some(t) => {
            if str_eq(t.as_str(), "18446744073709551615") {
                0
            } else {
                match parse_u64(t.as_str()) {
                    Some(v) => v,
                    None => return None,
                }
            }
        },
        None => return None,
    };
    let size = match group_u32(p, &caps, "size") {
        Some(v) => v,
        None => return None,
    };
    let comm = match group_text(p, &caps, "comm") {
        Some(v) => v,
        None => return None,
    };
    Some(Block {
        time,
        process,
        cpu,
        flags,
        action,
        devmajor,
        devminor,
        io_type,
        extra,
        sector,
        size,
        comm,
        qd: 0,
        dtoc: 0,
        ctoc: 0,
        ctod: 0,
        continuous: false,
    })
}

/// Reads a custom UFS request from `line` with `p`; every group must be
/// present and well formed. The dispatch to complete latency is the end
/// time less the start time.
pub fn parse_ufscustom_event(line: &str, p: &LinePattern) -> (r: Option<UFSCUSTOM>)
    requires
        p.wf(),
    ensures
        r is Some <==> custom_event_ok(line@, *p),
        r matches Some(u) ==> custom_fields_match(regex_captures(p.source_text(), line@)->0, *p, u),
{
    let caps = match p.captures(line) {
        Some(c) => c,
        None => return None,
    };
    let opcode = match group_text(p, &caps, "opcode") {
        Some(v) => v,
        None => return None,
    };
    let lba = match group_u64(p, &caps, "lba") {
        Some(v) => v,
        None => return None,
    };
    let size = match group_u32(p, &caps, "size") {
        Some(v) => v,
        None => return None,
    };
    let start_time = match group_time(p, &caps, "start_time") {
        Some(v) => v,
        None => return None,
    };
    let end_time = match group_time(p, &caps, "end_time") {
        Some(v) => v,
        None => return None,
    };
    Some(UFSCUSTOM {
        opcode,
        lba,
        size,
        start_time,
        end_time,
        dtoc: end_time as i128 - start_time as i128,
        start_qd: 0,
        end_qd: 0,
        ctoc: 0,
        ctod: 0,
        continuous: false,
    })
}

/// The kind of a line on the fast path: lines shorter than ten bytes are
/// skipped; a line with four or more commas is tried as a custom request,
/// one that mentions `ufshcd_command` as a UFS event and one that mentions
/// `block_` or `rq_` as a block event, in that order.
pub open spec fn line_event_kind(line: Seq<char>, ufs: LinePattern, block: LinePattern, custom: LinePattern) -> u8 {
    let b = encode_utf8(line);
    if b.len() < 10 {
        KIND_UNMATCHED
    } else if count_byte(b, 44) >= 4 && custom_event_ok(line, custom) {
        KIND_CUSTOM
    } else if contains_bytes(b, encode_utf8("ufshcd_command"@)) && ufs_event_ok(line, ufs) {
        KIND_UFS
    } else if (contains_bytes(b, encode_utf8("block_"@)) || contains_bytes(b, encode_utf8("rq_"@)))
        && block_event_ok(line, block) {
        KIND_BLOCK
    } else {
        KIND_UNMATCHED
    }
}

/// `r` holds one event, of the kind of the line, read from its match, or
/// nothing when the line is of no kind.
pub open spec fn line_result_fits(
    r: (Option<UFS>, Option<Block>, Option<UFSCUSTOM>),
    line: Seq<char>,
    ufs: LinePattern,
    block: LinePattern,
    custom: LinePattern,
) -> bool {
    let k = line_event_kind(line, ufs, block, custom);
    &&& r.0 is Some <==> k == KIND_UFS
    &&& r.1 is Some <==> k == KIND_BLOCK
    &&& r.2 is Some <==> k == KIND_CUSTOM
    &&& r.0 matches Some(u) ==> ufs_event_fields(regex_captures(ufs.source_text(), line)->0, ufs, u)
    &&& r.1 matches Some(b) ==> block_fields_match(regex_captures(block.source_text(), line)->0, block, b)
    &&& r.2 matches Some(c) ==> custom_fields_match(regex_captures(custom.source_text(), line)->0, custom, c)
}

/// Classifies `line` by its shape and reads it with the pattern of its kind.
pub fn process_line_optimized(line: &str, ufs: &LinePattern, block: &LinePattern, custom: &LinePattern)
    -> (r: (Option<UFS>, Option<Block>, Option<UFSCUSTOM>))
    requires
        ufs.wf(),
        block.wf(),
        custom.wf(),
    ensures
        line_result_fits(r, line@, *ufs, *block, *custom),
{
    let bytes = line.as_bytes();
    if bytes.len() < 10 {
        return (None, None, None);
    }
    if count_bytes(bytes, 44u8) >= 4 {
        match parse_ufscustom_event(line, custom) {
            Some(c) => {
                return (None, None, Some(c));
            },
            None => {},
        }
    }
    if str_contains(line, "ufshcd_command") {
        match parse_ufs_event(line, ufs) {
            Some(u) => {
                return (Some(u), None, None);
            },
            None => {},
        }
    }
    if str_contains(line, "block_") || str_contains(line, "rq_") {
        match parse_block_io_event(line, block) {
            Some(b) => {
                return (None, Some(b), None);
            },
            None => {},
        }
    }
    (None, None, None)
}

/// Line `j` of `d`, without its newline, when it is not empty: from line
/// start `j` to the newline before start `j + 1`, or to the end of `d` for
/// a last line that has no newline.
pub open spec fn window_line(d: Seq<u8>, j: int) -> Option<Seq<u8>> {
    let s = line_starts(d);
    let a = s[j] as int;
    let e = if j + 1 < s.len() { s[j + 1] - 1 } else { d.len() as int };
    if a < e && e <= d.len() {
        Some(d.subrange(a, e))
    } else {
        None
    }
}

/// The trimmed text of window `j` of `d` (empty when it is empty or not
/// UTF-8).
pub open spec fn window_text(d: Seq<u8>, j: int) -> Seq<char> {
    match window_line(d, j) {
        Some(seg) => if valid_utf8(seg) {
            trim_spec(decode_utf8(seg))
        } else {
            Seq::empty()
        },
        None => Seq::empty(),
    }
}

/// The kind of window `j` of `d`.
pub open spec fn window_kind(d: Seq<u8>, j: int, ufs: LinePattern, block: LinePattern, custom: LinePattern) -> u8 {
    match window_line(d, j) {
        Some(seg) => if valid_utf8(seg) {
            line_event_kind(trim_spec(decode_utf8(seg)), ufs, block, custom)
        } else {
            KIND_UNMATCHED
        },
        None => KIND_UNMATCHED,
    }
}

/// The number of lines of `d`: one per newline, and one more when text
/// follows the last newline.
pub open spec fn window_count(d: Seq<u8>) -> nat {
    if line_starts(d).last() < d.len() {
        line_starts(d).len()
    } else {
        (line_starts(d).len() - 1) as nat
    }
}

pub open spec fn window_kinds(d: Seq<u8>, ufs: LinePattern, block: LinePattern, custom: LinePattern) -> Seq<u8> {
    Seq::new(window_count(d), |j: int| window_kind(d, j, ufs, block, custom))
}

pub open spec fn window_texts(d: Seq<u8>) -> Seq<Seq<char>> {
    Seq::new(window_count(d), |j: int| window_text(d, j))
}

/// The events `u`, `b` and `c` are those read from the lines with the
/// `kinds` and `texts`, by kind, in line order.
#[verifier::opaque]
pub open spec fn events_fit(
    u: Seq<UFS>,
    b: Seq<Block>,
    c: Seq<UFSCUSTOM>,
    kinds: Seq<u8>,
    texts: Seq<Seq<char>>,
    ufs: LinePattern,
    block: LinePattern,
    custom: LinePattern,
) -> bool {
    let pu = positions_of(kinds, KIND_UFS);
    let pb = positions_of(kinds, KIND_BLOCK);
    let pc = positions_of(kinds, KIND_CUSTOM);
    &&& u.len() == pu.len()
    &&& b.len() == pb.len()
    &&& c.len() == pc.len()
    &&& forall|j: int| 0 <= j < pu.len() ==> ufs_event_fields(
        regex_captures(ufs.source_text(), texts[#[trigger] pu[j]])->0, ufs, u[j])
    &&& forall|j: int| 0 <= j < pb.len() ==> block_fields_match(
        regex_captures(block.source_text(), texts[#[trigger] pb[j]])->0, block, b[j])
    &&& forall|j: int| 0 <= j < pc.len() ==> custom_fields_match(
        regex_captures(custom.source_text(), texts[#[trigger] pc[j]])->0, custom, c[j])
}

/// The events read from the lines of a chunk, by kind, in line order.
pub open spec fn chunk_events_fit(
    r: (Vec<UFS>, Vec<Block>, Vec<UFSCUSTOM>),
    kinds: Seq<u8>,
    texts: Seq<Seq<char>>,
    ufs: LinePattern,
    block: LinePattern,
    custom: LinePattern,
) -> bool {
    events_fit(r.0@, r.1@, r.2@, kinds, texts, ufs, block, custom)
}

proof fn lemma_events_step(
    r0: (Vec<UFS>, Vec<Block>, Vec<UFSCUSTOM>),
    r1: (Vec<UFS>, Vec<Block>, Vec<UFSCUSTOM>),
    kinds: Seq<u8>,
    texts: Seq<Seq<char>>,
    w: int,
    res: (Option<UFS>, Option<Block>, Option<UFSCUSTOM>),
    ufs: LinePattern,
    block: LinePattern,
    custom: LinePattern,
)
    requires
        0 <= w < kinds.len(),
        kinds.len() == texts.len(),
        chunk_events_fit(r0, kinds.take(w), texts, ufs, block, custom),
        kinds[w] == line_event_kind(texts[w], ufs, block, custom),
        line_result_fits(res, texts[w], ufs, block, custom),
        r1.0@ == (match res.0 { Some(u) => r0.0@.push(u), None => r0.0@ }),
        r1.1@ == (match res.1 { Some(b) => r0.1@.push(b), None => r0.1@ }),
        r1.2@ == (match res.2 { Some(c) => r0.2@.push(c), None => r0.2@ }),
    ensures
        chunk_events_fit(r1, kinds.take(w + 1), texts, ufs, block, custom),
{
    reveal(events_fit);
    assert(kinds.take(w + 1).drop_last() =~= kinds.take(w));
    lemma_positions_bound(kinds.take(w), KIND_UFS);
    lemma_positions_bound(kinds.take(w), KIND_BLOCK);
    lemma_positions_bound(kinds.take(w), KIND_CUSTOM);
    let pu = positions_of(kinds.take(w + 1), KIND_UFS);
    let pb = positions_of(kinds.take(w + 1), KIND_BLOCK);
    let pc = positions_of(kinds.take(w + 1), KIND_CUSTOM);
    assert forall|j: int| 0 <= j < pu.len() implies ufs_event_fields(
        regex_captures(ufs.source_text(), texts[#[trigger] pu[j]])->0, ufs, r1.0@[j]) by {
        if j < positions_of(kinds.take(w), KIND_UFS).len() {
            assert(pu[j] == positions_of(kinds.take(w), KIND_UFS)[j]);
        }
    }
    assert forall|j: int| 0 <= j < pb.len() implies block_fields_match(
        regex_captures(block.source_text(), texts[#[trigger] pb[j]])->0, block, r1.1@[j]) by {
        if j < positions_of(kinds.take(w), KIND_BLOCK).len() {
            assert(pb[j] == positions_of(kinds.take(w), KIND_BLOCK)[j]);
        }
    }
    assert forall|j: int| 0 <= j < pc.len() implies custom_fields_match(
        regex_captures(custom.source_text(), texts[#[trigger] pc[j]])->0, custom, r1.2@[j]) by {
        if j < positions_of(kinds.take(w), KIND_CUSTOM).len() {
            assert(pc[j] == positions_of(kinds.take(w), KIND_CUSTOM)[j]);
        }
    }
}

/// Reads the lines of `data[start..end]`, each trimmed, a last line
/// without a newline included, and collects the events of each kind in
/// line order. Lines that are not UTF-8 are skipped.
#[verifier::rlimit(50)]
pub fn process_chunk(
    data: &[u8],
    start: usize,
    end: usize,
    ufs: &LinePattern,
    block: &LinePattern,
    custom: &LinePattern,
) -> (r: (Vec<UFS>, Vec<Block>, Vec<UFSCUSTOM>))
    requires
        start <= end <= data.len(),
        ufs.wf(),
        block.wf(),
        custom.wf(),
    ensures
        ({
            let d = data@.subrange(start as int, end as int);
            chunk_events_fit(r, window_kinds(d, *ufs, *block, *custom), window_texts(d), *ufs, *block, *custom)
        }),
{
    let chunk = vstd::slice::slice_subrange(data, start, end);
    let ghost d = chunk@;
    let boundaries = find_line_boundaries(chunk);
    proof {
        lemma_line_starts_len(d);
    }
    let ghost kinds = window_kinds(d, *ufs, *block, *custom);
    let ghost texts = window_texts(d);
    proof {
        lemma_line_starts_bound(d);
    }
    let last: usize = boundaries[boundaries.len() - 1];
    let n: usize = if last < chunk.len() { boundaries.len() } else { boundaries.len() - 1 };
    let mut out: (Vec<UFS>, Vec<Block>, Vec<UFSCUSTOM>) = (Vec::new(), Vec::new(), Vec::new());
    let mut w: usize = 0;
    proof {
        reveal(events_fit);
        assert(kinds.take(0) =~= Seq::<u8>::empty());
    }
    while w < n
        invariant
            d == chunk@,
            boundaries@ == line_starts(d),
            n == window_count(d),
            boundaries.len() >= 1,
            kinds == window_kinds(d, *ufs, *block, *custom),
            texts == window_texts(d),
            kinds.len() == n,
            texts.len() == n,
            ufs.wf(),
            block.wf(),
            custom.wf(),
            0 <= w <= n,
            chunk_events_fit(out, kinds.take(w as int), texts, *ufs, *block, *custom),
        decreases n - w,
    {
        let a: usize = boundaries[w];
        let e: usize = if w + 1 < boundaries.len() {
            if boundaries[w + 1] >= 1 { boundaries[w + 1] - 1 } else { 0 }
        } else {
            chunk.len()
        };
        let ghost before = out;
        let mut result: (Option<UFS>, Option<Block>, Option<UFSCUSTOM>) = (None, None, None);
        if a < e && e <= chunk.len() {
            let seg = vstd::slice::slice_subrange(chunk, a, e);
            assert(window_line(d, w as int) == Some(seg@));
            match str_from_utf8(seg) {
                Some(text) => {
                    proof {
                        encode_utf8_decode_utf8(text@);
                    }
                    let line = str_trim(text);
                    result = process_line_optimized(line, ufs, block, custom);
                    assert(line@ == texts[w as int]);
                },
                None => {},
            }
        }
        proof {
            if !(a < e && e <= chunk.len()) || !valid_utf8(d.subrange(a as int, e as int)) {
                assert(texts[w as int] == Seq::<char>::empty());
                assert(encode_utf8(Seq::<char>::empty()).len() == 0);
            }
        }
        assert(kinds[w as int] == line_event_kind(texts[w as int], *ufs, *block, *custom));
        assert(line_result_fits(result, texts[w as int], *ufs, *block, *custom));
        match result.0 {
            Some(u) => {
                out.0.push(u);
            },
            None => {},
        }
        match result.1 {
            Some(b) => {
                out.1.push(b);
            },
            None => {},
        }
        match result.2 {
            Some(c) => {
                out.2.push(c);
            },
            None => {},
        }
        proof {
            lemma_events_step(before, out, kinds, texts, w as int, result, *ufs, *block, *custom);
        }
        w = w + 1;
    }
    assert(kinds.take(n as int) =~= kinds);
    out
}

/// The smallest chunk size, 64 MiB.
pub const MIN_CHUNK_SIZE: u64 = 67108864;

/// The chunk size for a file of `file_size` bytes on `cpus` CPUs: four
/// chunks per CPU, but never less than `MIN_CHUNK_SIZE`.
pub open spec fn chunk_size_spec(file_size: int, cpus: int) -> int {
    let q = file_size / (cpus * 4);
    if q > MIN_CHUNK_SIZE { q } else { MIN_CHUNK_SIZE as int }
}

/// The chunk size for a file of `file_size` bytes on `cpus` CPUs.
pub fn chunk_size_for(file_size: u64, cpus: usize) -> (r: u64)
    requires
        cpus >= 1,
    ensures
        r == chunk_size_spec(file_size as int, cpus as int),
{
    let d: u128 = cpus as u128 * 4;
    let q128: u128 = file_size as u128 / d;
    assert(q128 <= file_size) by (nonlinear_arith)
        requires
            d >= 4,
            q128 == file_size as u128 / d;
    let q: u64 = q128 as u64;
    if q > MIN_CHUNK_SIZE {
        q
    } else {
        MIN_CHUNK_SIZE
    }
}

/// Calls `num_cpus::get`, which the crate documents to return the number
/// of logical CPUs available, at least 1. The count depends on the machine
/// and is not named.
#[verifier::external_body]
fn available_cpus() -> (r: usize)
    ensures
        r >= 1,
{
    num_cpus::get()
}

/// The chunk size for a file of `file_size` bytes on this machine.
pub fn highperf_chunk_size(file_size: u64) -> (r: u64)
    ensures
        exists|c: int| c >= 1 && r == chunk_size_spec(file_size as int, c),
        r >= MIN_CHUNK_SIZE,
{
    let cpus = available_cpus();
    chunk_size_for(file_size, cpus)
}

/// The position of the first newline of `d` at or after `from`, or the
/// length of `d` when there is none.
pub open spec fn next_newline(d: Seq<u8>, from: int) -> int
    decreases d.len() - from,
{
    if from >= d.len() {
        d.len() as int
    } else if d[from] == 10 {
        from
    } else {
        next_newline(d, from + 1)
    }
}

/// The end of the chunk that starts at `pos`: `size` bytes on, then just
/// past the next newline; the end of `d` when either runs out.
pub open spec fn chunk_end(d: Seq<u8>, pos: int, size: int) -> int {
    let next = if size < d.len() - pos { pos + size } else { d.len() as int };
    if next >= d.len() {
        d.len() as int
    } else {
        let k = next_newline(d, next);
        if k < d.len() { k + 1 } else { d.len() as int }
    }
}

/// `r` splits `d` into consecutive chunks from its start to its end, each
/// ending where `chunk_end` says.
pub open spec fn chunks_fit(r: Seq<(usize, usize)>, d: Seq<u8>, size: int) -> bool {
    &&& (r.len() == 0 <==> d.len() == 0)
    &&& r.len() > 0 ==> r[0].0 == 0 && r.last().1 == d.len()
    &&& forall|k: int| 0 <= k < r.len() ==> (#[trigger] r[k]).0 < d.len() && r[k].1 == chunk_end(d, r[k].0 as int, size)
    &&& forall|k: int| 0 < k < r.len() ==> (#[trigger] r[k]).0 == r[k - 1].1
}

proof fn lemma_next_newline(d: Seq<u8>, from: int, b: int)
    requires
        0 <= from <= b <= d.len(),
        forall|k: int| from <= k < b ==> d[k] != 10,
        b == d.len() || d[b] == 10,
    ensures
        next_newline(d, from) == b,
    decreases b - from,
{
    if from < b {
        lemma_next_newline(d, from + 1, b);
    }
}

/// Splits `data` into chunks of about `chunk_size` bytes that end just past
/// a newline (the last one at the end of the data).
pub fn plan_chunks(data: &[u8], chunk_size: u64) -> (r: Vec<(usize, usize)>)
    requires
        chunk_size > 0,
    ensures
        chunks_fit(r@, data@, chunk_size as int),
{
    let len: usize = data.len();
    let mut out: Vec<(usize, usize)> = Vec::new();
    let mut pos: usize = 0;
    while pos < len
        invariant
            len == data.len(),
            chunk_size > 0,
            pos <= len,
            out.len() == 0 ==> pos == 0,
            out.len() > 0 ==> out@[0].0 == 0 && out@.last().1 == pos,
            forall|k: int| 0 <= k < out.len() ==> (#[trigger] out@[k]).0 < len
                && out@[k].1 == chunk_end(data@, out@[k].0 as int, chunk_size as int),
            forall|k: int| 0 < k < out.len() ==> (#[trigger] out@[k]).0 == out@[k - 1].1,
        decreases len - pos,
    {
        let next: usize = if (chunk_size as u128) < ((len - pos) as u128) { pos + chunk_size as usize } else { len };
        let mut boundary: usize = next;
        if boundary < len {
            while boundary < len && data[boundary] != 10u8
                invariant
                    len == data.len(),
                    next <= boundary <= len,
                    forall|k: int| next <= k < boundary ==> data@[k] != 10,
                decreases len - boundary,
            {
                boundary = boundary + 1;
            }
            proof {
                lemma_next_newline(data@, next as int, boundary as int);
            }
            if boundary < len {
                boundary = boundary + 1;
            }
        }
        let ghost before = out@;
        out.push((pos, boundary));
        assert(out@[out.len() - 1] == (pos, boundary));
        assert forall|k: int| 0 < k < out.len() implies (#[trigger] out@[k]).0 == out@[k - 1].1 by {
            if k < out.len() - 1 {
                assert(out@[k] == before[k]);
            }
        }
        pos = boundary;
    }
    out
}

/// The concatenation of a sequence of sequences, in order.
pub open spec fn joined<T>(parts: Seq<Seq<T>>) -> Seq<T>
    decreases parts.len(),
{
    if parts.len() == 0 {
        Seq::empty()
    } else {
        joined(parts.drop_last()) + parts.last()
    }
}

/// The events of one chunk, by kind.
pub type ChunkEvents = (Vec<UFS>, Vec<Block>, Vec<UFSCUSTOM>);

pub open spec fn ufs_parts(parts: Seq<ChunkEvents>) -> Seq<Seq<UFS>> {
    parts.map_values(|p: ChunkEvents| p.0@)
}

pub open spec fn block_parts(parts: Seq<ChunkEvents>) -> Seq<Seq<Block>> {
    parts.map_values(|p: ChunkEvents| p.1@)
}

pub open spec fn custom_parts(parts: Seq<ChunkEvents>) -> Seq<Seq<UFSCUSTOM>> {
    parts.map_values(|p: ChunkEvents| p.2@)
}

/// Joins the events of the chunks in chunk order, then orders the UFS and
/// block events by time and the custom requests by start time, equal times
/// kept in their order.
pub fn merge_chunk_results(parts: Vec<ChunkEvents>) -> (r: ChunkEvents)
    ensures
        r.0@ == ufs_by_time(joined(ufs_parts(parts@))),
        r.1@ == block_by_time(joined(block_parts(parts@))),
        r.2@ == custom_by_start(joined(custom_parts(parts@))),
{
    let mut all_ufs: Vec<UFS> = Vec::new();
    let mut all_block: Vec<Block> = Vec::new();
    let mut all_custom: Vec<UFSCUSTOM> = Vec::new();
    let mut i: usize = 0;
    while i < parts.len()
        invariant
            0 <= i <= parts.len(),
            all_ufs@ == joined(ufs_parts(parts@).take(i as int)),
            all_block@ == joined(block_parts(parts@).take(i as int)),
            all_custom@ == joined(custom_parts(parts@).take(i as int)),
        decreases parts.len() - i,
    {
        assert(ufs_parts(parts@).take(i + 1).drop_last() =~= ufs_parts(parts@).take(i as int));
        assert(block_parts(parts@).take(i + 1).drop_last() =~= block_parts(parts@).take(i as int));
        assert(custom_parts(parts@).take(i + 1).drop_last() =~= custom_parts(parts@).take(i as int));
        let part = &parts[i];
        let ghost base_u = all_ufs@;
        let mut k: usize = 0;
        while k < part.0.len()
            invariant
                0 <= k <= part.0.len(),
                all_ufs@ == base_u + part.0@.take(k as int),
            decreases part.0.len() - k,
        {
            all_ufs.push(part.0[k].duplicate());
            k = k + 1;
            assert(all_ufs@ =~= base_u + part.0@.take(k as int));
        }
        assert(part.0@.take(k as int) =~= part.0@);
        let ghost base_b = all_block@;
        let mut k: usize = 0;
        while k < part.1.len()
            invariant
                0 <= k <= part.1.len(),
                all_block@ == base_b + part.1@.take(k as int),
            decreases part.1.len() - k,
        {
            all_block.push(part.1[k].duplicate());
            k = k + 1;
            assert(all_block@ =~= base_b + part.1@.take(k as int));
        }
        assert(part.1@.take(k as int) =~= part.1@);
        let ghost base_c = all_custom@;
        let mut k: usize = 0;
        while k < part.2.len()
            invariant
                0 <= k <= part.2.len(),
                all_custom@ == base_c + part.2@.take(k as int),
            decreases part.2.len() - k,
        {
            all_custom.push(part.2[k].duplicate());
            k = k + 1;
            assert(all_custom@ =~= base_c + part.2@.take(k as int));
        }
        assert(part.2@.take(k as int) =~= part.2@);
        i = i + 1;
    }
    assert(ufs_parts(parts@).take(i as int) =~= ufs_parts(parts@));
    assert(block_parts(parts@).take(i as int) =~= block_parts(parts@));
    assert(custom_parts(parts@).take(i as int) =~= custom_parts(parts@));
    (sort_ufs_by_time(&all_ufs), sort_block_by_time(&all_block), sort_ufscustom_by_start(&all_custom))
}

/// The offsets `s`, each moved on by `k`.
pub open spec fn shifted(s: Seq<usize>, k: int) -> Seq<usize> {
    s.map_values(|x: usize| (x + k) as usize)
}

proof fn lemma_line_starts_bound(d: Seq<u8>)
    ensures
        forall|i: int| 0 <= i < line_starts(d).len() ==> #[trigger] line_starts(d)[i] <= d.len(),
        d.len() <= usize::MAX ==> (d.len() == 0 || d.last() == 10 <==> line_starts(d).last() == d.len()),
    decreases d.len(),
{
    lemma_line_starts_len(d);
    if d.len() > 0 {
        lemma_line_starts_bound(d.drop_last());
        lemma_line_starts_len(d.drop_last());
    }
}

proof fn lemma_line_starts_concat(x: Seq<u8>, y: Seq<u8>)
    requires
        x.len() + y.len() <= usize::MAX,
    ensures
        line_starts(x + y) == line_starts(x) + shifted(line_starts(y).drop_first(), x.len() as int),
    decreases y.len(),
{
    lemma_line_starts_len(y);
    if y.len() == 0 {
        assert(x + y =~= x);
        assert(line_starts(y).drop_first() =~= Seq::<usize>::empty());
        assert(line_starts(x) + shifted(line_starts(y).drop_first(), x.len() as int) =~= line_starts(x));
    } else {
        let y1 = y.drop_last();
        lemma_line_starts_concat(x, y1);
        lemma_line_starts_len(y1);
        assert((x + y).drop_last() =~= x + y1);
        assert((x + y).last() == y.last());
        if y.last() == 10 {
            assert(line_starts(y).drop_first() =~= line_starts(y1).drop_first().push(y.len() as usize));
            assert(shifted(line_starts(y).drop_first(), x.len() as int)
                =~= shifted(line_starts(y1).drop_first(), x.len() as int).push((x.len() + y.len()) as usize));
            assert(line_starts(x + y) =~= line_starts(x) + shifted(line_starts(y).drop_first(), x.len() as int));
        } else {
            assert(line_starts(y).drop_first() =~= line_starts(y1).drop_first());
        }
    }
}

proof fn lemma_window_lines_concat(a: Seq<u8>, b: Seq<u8>)
    requires
        a.len() == 0 || a.last() == 10,
        a.len() + b.len() <= usize::MAX,
    ensures
        window_count(a + b) == window_count(a) + window_count(b),
        forall|j: int| 0 <= j < window_count(a) ==> #[trigger] window_line(a + b, j) == window_line(a, j),
        forall|j: int| window_count(a) <= j < window_count(a + b) ==> #[trigger] window_line(a + b, j) == window_line(b, j - window_count(a)),
{
    let la = line_starts(a);
    let lb = line_starts(b);
    let d = a + b;
    lemma_line_starts_concat(a, b);
    lemma_line_starts_len(a);
    lemma_line_starts_len(b);
    lemma_line_starts_bound(a);
    lemma_line_starts_bound(b);
    let s = line_starts(d);
    let na = (la.len() - 1) as int;
    assert(la.last() == a.len());
    assert(s.len() == na + lb.len());
    assert(s.last() == a.len() + lb.last()) by {
        if lb.len() > 1 {
            assert(s.last() == shifted(lb.drop_first(), a.len() as int).last());
        }
    }
    assert(window_count(d) == na + window_count(b));
    assert(window_count(a) == na);
    assert forall|j: int| 0 <= j < window_count(d) implies #[trigger] window_line(d, j) == (if j < na { window_line(a, j) } else { window_line(b, j - na) }) by {
        if j < na {
            assert(s[j] == la[j]);
            assert(s[j + 1] == la[j + 1]);
            assert(la[j + 1] <= a.len());
            if la[j] < la[j + 1] - 1 {
                assert(d.subrange(la[j] as int, la[j + 1] - 1) =~= a.subrange(la[j] as int, la[j + 1] - 1));
            }
            assert(window_line(d, j) == window_line(a, j));
        } else {
            let t = j - na;
            assert(s[j] == (a.len() + lb[t]) as usize) by {
                if t == 0 {
                    assert(s[j] == la[na]);
                } else {
                    assert(s[j] == shifted(lb.drop_first(), a.len() as int)[t - 1]);
                }
            }
            if t + 1 < lb.len() {
                assert(s[j + 1] == shifted(lb.drop_first(), a.len() as int)[t]);
                assert(lb[t + 1] <= b.len());
                if lb[t] < lb[t + 1] - 1 {
                    assert(d.subrange(a.len() + lb[t], a.len() + lb[t + 1] - 1) =~= b.subrange(lb[t] as int, lb[t + 1] - 1));
                }
            } else {
                assert(lb[t] <= b.len());
                if lb[t] < b.len() {
                    assert(d.subrange(a.len() + lb[t], d.len() as int) =~= b.subrange(lb[t] as int, b.len() as int));
                }
            }
            assert(window_line(d, j) == window_line(b, t));
        }
    }
    assert forall|j: int| 0 <= j < window_count(a) implies #[trigger] window_line(a + b, j) == window_line(a, j) by {
        assert(window_line(d, j) == (if j < na { window_line(a, j) } else { window_line(b, j - na) }));
    }
    assert forall|j: int| window_count(a) <= j < window_count(a + b) implies #[trigger] window_line(a + b, j) == window_line(b, j - window_count(a)) by {
        assert(window_line(d, j) == (if j < na { window_line(a, j) } else { window_line(b, j - na) }));
    }
}

/// Lines do not cross the end of a part that ends with a newline: the
/// windows of `a + b` are those of `a` followed by those of `b`.
pub proof fn lemma_window_texts_concat(a: Seq<u8>, b: Seq<u8>)
    requires
        a.len() == 0 || a.last() == 10,
        a.len() + b.len() <= usize::MAX,
    ensures
        window_texts(a + b) == window_texts(a) + window_texts(b),
{
    lemma_window_lines_concat(a, b);
    let na = window_count(a);
    assert forall|j: int| 0 <= j < window_count(a + b) implies #[trigger] window_text(a + b, j) == (window_texts(a) + window_texts(b))[j] by {
        if j < na {
            assert(window_line(a + b, j) == window_line(a, j));
        } else {
            assert(window_line(a + b, j) == window_line(b, j - na));
        }
    }
    assert(window_texts(a + b) =~= window_texts(a) + window_texts(b));
}

/// The kinds of the lines of `a + b` are those of `a` followed by those of
/// `b`, when `a` ends with a newline.
proof fn lemma_window_kinds_concat(a: Seq<u8>, b: Seq<u8>, ufs: LinePattern, block: LinePattern, custom: LinePattern)
    requires
        a.len() == 0 || a.last() == 10,
        a.len() + b.len() <= usize::MAX,
    ensures
        window_kinds(a + b, ufs, block, custom) == window_kinds(a, ufs, block, custom) + window_kinds(b, ufs, block, custom),
{
    lemma_window_lines_concat(a, b);
    let na = window_count(a);
    assert forall|j: int| 0 <= j < window_count(a + b) implies #[trigger] window_kind(a + b, j, ufs, block, custom)
        == (window_kinds(a, ufs, block, custom) + window_kinds(b, ufs, block, custom))[j] by {
        if j < na {
            assert(window_line(a + b, j) == window_line(a, j));
        } else {
            assert(window_line(a + b, j) == window_line(b, j - na));
        }
    }
    assert(window_kinds(a + b, ufs, block, custom) =~= window_kinds(a, ufs, block, custom) + window_kinds(b, ufs, block, custom));
}

proof fn lemma_positions_concat(ka: Seq<u8>, kb: Seq<u8>, k: u8)
    ensures
        positions_of(ka + kb, k) == positions_of(ka, k) + positions_of(kb, k).map_values(|p: int| p + ka.len()),
    decreases kb.len(),
{
    if kb.len() == 0 {
        assert(ka + kb =~= ka);
        assert(positions_of(kb, k).map_values(|p: int| p + ka.len()) =~= Seq::<int>::empty());
        assert(positions_of(ka, k) + Seq::<int>::empty() =~= positions_of(ka, k));
    } else {
        lemma_positions_concat(ka, kb.drop_last(), k);
        assert((ka + kb).drop_last() =~= ka + kb.drop_last());
        let pb = positions_of(kb.drop_last(), k).map_values(|p: int| p + ka.len());
        if kb.last() == k {
            assert(positions_of(kb, k).map_values(|p: int| p + ka.len())
                =~= pb.push(kb.len() - 1 + ka.len()));
            assert(positions_of(ka + kb, k) =~= positions_of(ka, k) + positions_of(kb, k).map_values(|p: int| p + ka.len()));
        } else {
            assert(positions_of(kb, k).map_values(|p: int| p + ka.len()) =~= pb);
        }
    }
}

/// The events read from lines `ka`/`ta` followed by those read from lines
/// `kb`/`tb` are the events read from all of them.
proof fn lemma_events_concat(
    u1: Seq<UFS>, b1: Seq<Block>, c1: Seq<UFSCUSTOM>, ka: Seq<u8>, ta: Seq<Seq<char>>,
    u2: Seq<UFS>, b2: Seq<Block>, c2: Seq<UFSCUSTOM>, kb: Seq<u8>, tb: Seq<Seq<char>>,
    ufs: LinePattern, block: LinePattern, custom: LinePattern,
)
    requires
        ka.len() == ta.len(),
        kb.len() == tb.len(),
        events_fit(u1, b1, c1, ka, ta, ufs, block, custom),
        events_fit(u2, b2, c2, kb, tb, ufs, block, custom),
    ensures
        events_fit(u1 + u2, b1 + b2, c1 + c2, ka + kb, ta + tb, ufs, block, custom),
{
    reveal(events_fit);
    let k = ka + kb;
    let t = ta + tb;
    lemma_positions_concat(ka, kb, KIND_UFS);
    lemma_positions_concat(ka, kb, KIND_BLOCK);
    lemma_positions_concat(ka, kb, KIND_CUSTOM);
    lemma_positions_bound(ka, KIND_UFS);
    lemma_positions_bound(ka, KIND_BLOCK);
    lemma_positions_bound(ka, KIND_CUSTOM);
    lemma_positions_bound(kb, KIND_UFS);
    lemma_positions_bound(kb, KIND_BLOCK);
    lemma_positions_bound(kb, KIND_CUSTOM);
    let pu1 = positions_of(ka, KIND_UFS);
    let pu2 = positions_of(kb, KIND_UFS);
    let pu = positions_of(k, KIND_UFS);
    assert forall|j: int| 0 <= j < pu.len() implies ufs_event_fields(
        regex_captures(ufs.source_text(), t[#[trigger] pu[j]])->0, ufs, (u1 + u2)[j]) by {
        if j < pu1.len() {
            assert(pu[j] == pu1[j]);
            assert(t[pu1[j]] == ta[pu1[j]]);
            assert(ufs_event_fields(regex_captures(ufs.source_text(), ta[pu1[j]])->0, ufs, u1[j]));
        } else {
            let q = j - pu1.len();
            assert(pu[j] == pu2[q] + ka.len());
            assert(t[pu2[q] + ka.len()] == tb[pu2[q]]);
            assert(ufs_event_fields(regex_captures(ufs.source_text(), tb[pu2[q]])->0, ufs, u2[q]));
        }
    }
    let pb1 = positions_of(ka, KIND_BLOCK);
    let pb2 = positions_of(kb, KIND_BLOCK);
    let pb = positions_of(k, KIND_BLOCK);
    assert forall|j: int| 0 <= j < pb.len() implies block_fields_match(
        regex_captures(block.source_text(), t[#[trigger] pb[j]])->0, block, (b1 + b2)[j]) by {
        if j < pb1.len() {
            assert(pb[j] == pb1[j]);
            assert(t[pb1[j]] == ta[pb1[j]]);
            assert(block_fields_match(regex_captures(block.source_text(), ta[pb1[j]])->0, block, b1[j]));
        } else {
            let q = j - pb1.len();
            assert(pb[j] == pb2[q] + ka.len());
            assert(t[pb2[q] + ka.len()] == tb[pb2[q]]);
            assert(block_fields_match(regex_captures(block.source_text(), tb[pb2[q]])->0, block, b2[q]));
        }
    }
    let pc1 = positions_of(ka, KIND_CUSTOM);
    let pc2 = positions_of(kb, KIND_CUSTOM);
    let pc = positions_of(k, KIND_CUSTOM);
    assert forall|j: int| 0 <= j < pc.len() implies custom_fields_match(
        regex_captures(custom.source_text(), t[#[trigger] pc[j]])->0, custom, (c1 + c2)[j]) by {
        if j < pc1.len() {
            assert(pc[j] == pc1[j]);
            assert(t[pc1[j]] == ta[pc1[j]]);
            assert(custom_fields_match(regex_captures(custom.source_text(), ta[pc1[j]])->0, custom, c1[j]));
        } else {
            let q = j - pc1.len();
            assert(pc[j] == pc2[q] + ka.len());
            assert(t[pc2[q] + ka.len()] == tb[pc2[q]]);
            assert(custom_fields_match(regex_captures(custom.source_text(), tb[pc2[q]])->0, custom, c2[q]));
        }
    }
}

/// The windows of the chunks `r[0..k]`, one chunk after another.
pub open spec fn chunk_texts(d: Seq<u8>, r: Seq<(usize, usize)>, k: int) -> Seq<Seq<char>>
    decreases k,
{
    if k <= 0 {
        Seq::empty()
    } else {
        chunk_texts(d, r, k - 1) + window_texts(d.subrange(r[k - 1].0 as int, r[k - 1].1 as int))
    }
}

/// Processing a file chunk by chunk reads the same lines, in the same
/// order, as reading it whole: a planned chunk never splits a line.
pub proof fn lemma_chunks_read_every_line(d: Seq<u8>, r: Seq<(usize, usize)>, size: int)
    requires
        size > 0,
        d.len() <= usize::MAX,
        chunks_fit(r, d, size),
    ensures
        chunk_texts(d, r, r.len() as int) == window_texts(d),
{
    if r.len() == 0 {
        assert(d =~= Seq::<u8>::empty());
        assert(line_starts(d) =~= seq![0usize]);
        assert(window_texts(d) =~= Seq::<Seq<char>>::empty());
    } else {
        lemma_chunk_prefix(d, r, size, r.len() as int);
        assert(d.subrange(0, d.len() as int) =~= d);
    }
}

proof fn lemma_chunk_end_newline(d: Seq<u8>, pos: int, size: int)
    requires
        0 <= pos < d.len(),
        size > 0,
    ensures
        pos < chunk_end(d, pos, size) <= d.len(),
        chunk_end(d, pos, size) < d.len() ==> d[chunk_end(d, pos, size) - 1] == 10,
{
    let next = if size < d.len() - pos { pos + size } else { d.len() as int };
    if next < d.len() {
        lemma_next_newline_props(d, next);
    }
}

proof fn lemma_next_newline_props(d: Seq<u8>, from: int)
    requires
        0 <= from <= d.len(),
    ensures
        from <= next_newline(d, from) <= d.len(),
        next_newline(d, from) < d.len() ==> d[next_newline(d, from)] == 10,
    decreases d.len() - from,
{
    if from < d.len() && d[from] != 10 {
        lemma_next_newline_props(d, from + 1);
    }
}

#[verifier::rlimit(40)]
proof fn lemma_chunk_prefix(d: Seq<u8>, r: Seq<(usize, usize)>, size: int, k: int)
    requires
        size > 0,
        d.len() <= usize::MAX,
        chunks_fit(r, d, size),
        1 <= k <= r.len(),
    ensures
        chunk_texts(d, r, k) == window_texts(d.subrange(0, r[k - 1].1 as int)),
        r[k - 1].1 <= d.len(),
        r[k - 1].1 < d.len() ==> d[r[k - 1].1 - 1] == 10,
    decreases k,
{
    lemma_chunk_end_newline(d, r[k - 1].0 as int, size);
    if k == 1 {
        let w = window_texts(d.subrange(r[0].0 as int, r[0].1 as int));
        assert(chunk_texts(d, r, 0) == Seq::<Seq<char>>::empty());
        assert(Seq::<Seq<char>>::empty() + w =~= w);
        assert(chunk_texts(d, r, 1) == w);
    } else {
        lemma_chunk_prefix(d, r, size, k - 1);
        let p = r[k - 2].1 as int;
        let e = r[k - 1].1 as int;
        assert(r[k - 1].0 == p);
        let left = d.subrange(0, p);
        let right = d.subrange(p, e);
        assert(left.len() == 0 || left.last() == 10);
        lemma_window_texts_concat(left, right);
        assert(left + right =~= d.subrange(0, e));
    }
}


/// The events of a prefix that ends with a newline, followed by those of
/// the next chunk, are the events of both together.
proof fn lemma_events_prefix_step(
    left: Seq<u8>, right: Seq<u8>, u: Seq<UFS>, b: Seq<Block>, c: Seq<UFSCUSTOM>, part: ChunkEvents,
    ufs: LinePattern, block: LinePattern, custom: LinePattern,
)
    requires
        left.len() == 0 || left.last() == 10,
        left.len() + right.len() <= usize::MAX,
        events_fit(u, b, c, window_kinds(left, ufs, block, custom), window_texts(left), ufs, block, custom),
        chunk_events_fit(part, window_kinds(right, ufs, block, custom), window_texts(right), ufs, block, custom),
    ensures
        events_fit(u + part.0@, b + part.1@, c + part.2@,
            window_kinds(left + right, ufs, block, custom), window_texts(left + right), ufs, block, custom),
{
    lemma_window_texts_concat(left, right);
    lemma_window_kinds_concat(left, right, ufs, block, custom);
    lemma_events_concat(
        u, b, c, window_kinds(left, ufs, block, custom), window_texts(left),
        part.0@, part.1@, part.2@, window_kinds(right, ufs, block, custom), window_texts(right),
        ufs, block, custom);
}

proof fn lemma_joined_step<T>(parts: Seq<Seq<T>>, k: int)
    requires
        0 < k <= parts.len(),
    ensures
        joined(parts.take(k)) == joined(parts.take(k - 1)) + parts[k - 1],
        joined(parts.take(0)) == Seq::<T>::empty(),
{
    assert(parts.take(k).drop_last() =~= parts.take(k - 1));
    assert(parts.take(0).len() == 0);
}

/// Each chunk's events are those read from the lines of the chunk.
#[verifier::opaque]
pub open spec fn parts_fit(
    d: Seq<u8>, r: Seq<(usize, usize)>, parts: Seq<ChunkEvents>,
    ufs: LinePattern, block: LinePattern, custom: LinePattern,
) -> bool {
    forall|q: int| 0 <= q < r.len() ==> chunk_events_fit(#[trigger] parts[q],
        window_kinds(d.subrange(r[q].0 as int, r[q].1 as int), ufs, block, custom),
        window_texts(d.subrange(r[q].0 as int, r[q].1 as int)), ufs, block, custom)
}

proof fn lemma_parts_fit_at(
    d: Seq<u8>, r: Seq<(usize, usize)>, parts: Seq<ChunkEvents>,
    ufs: LinePattern, block: LinePattern, custom: LinePattern, q: int,
)
    requires
        parts_fit(d, r, parts, ufs, block, custom),
        0 <= q < r.len(),
    ensures
        chunk_events_fit(parts[q],
            window_kinds(d.subrange(r[q].0 as int, r[q].1 as int), ufs, block, custom),
            window_texts(d.subrange(r[q].0 as int, r[q].1 as int)), ufs, block, custom),
{
    reveal(parts_fit);
}

#[verifier::rlimit(20)]
proof fn lemma_chunk_events_prefix(
    d: Seq<u8>, r: Seq<(usize, usize)>, size: int, parts: Seq<ChunkEvents>,
    ufs: LinePattern, block: LinePattern, custom: LinePattern, k: int,
)
    requires
        size > 0,
        d.len() <= usize::MAX,
        chunks_fit(r, d, size),
        parts.len() == r.len(),
        1 <= k <= r.len(),
        parts_fit(d, r, parts, ufs, block, custom),
    ensures
        events_fit(joined(ufs_parts(parts).take(k)), joined(block_parts(parts).take(k)), joined(custom_parts(parts).take(k)),
            window_kinds(d.subrange(0, r[k - 1].1 as int), ufs, block, custom),
            window_texts(d.subrange(0, r[k - 1].1 as int)), ufs, block, custom),
        r[k - 1].1 <= d.len(),
        r[k - 1].1 < d.len() ==> d[r[k - 1].1 - 1] == 10,
    decreases k,
{
    lemma_chunk_end_newline(d, r[k - 1].0 as int, size);
    let part = parts[k - 1];
    lemma_parts_fit_at(d, r, parts, ufs, block, custom, k - 1);
    lemma_joined_step(ufs_parts(parts), k);
    lemma_joined_step(block_parts(parts), k);
    lemma_joined_step(custom_parts(parts), k);
    if k == 1 {
        assert(joined(ufs_parts(parts).take(0)) + part.0@ =~= part.0@);
        assert(joined(block_parts(parts).take(0)) + part.1@ =~= part.1@);
        assert(joined(custom_parts(parts).take(0)) + part.2@ =~= part.2@);
    } else {
        lemma_chunk_events_prefix(d, r, size, parts, ufs, block, custom, k - 1);
        let p = r[k - 2].1 as int;
        let e = r[k - 1].1 as int;
        assert(r[k - 1].0 == p);
        let left = d.subrange(0, p);
        let right = d.subrange(p, e);
        assert(left.len() == 0 || left.last() == 10);
        lemma_events_prefix_step(left, right,
            joined(ufs_parts(parts).take(k - 1)), joined(block_parts(parts).take(k - 1)), joined(custom_parts(parts).take(k - 1)),
            part, ufs, block, custom);
        assert(left + right =~= d.subrange(0, e));
    }
}

/// Parsing a file chunk by chunk reads exactly the events of the whole file:
/// whatever the chunk size (and so whatever the number of CPUs), the events
/// of the planned chunks, joined in chunk order, are the events read from
/// the lines of the whole file, in line order. Merging then orders them by
/// time (`merge_chunk_results`).
pub proof fn lemma_chunked_parse_reads_whole(
    d: Seq<u8>, r: Seq<(usize, usize)>, size: int, parts: Seq<ChunkEvents>,
    ufs: LinePattern, block: LinePattern, custom: LinePattern,
)
    requires
        size > 0,
        d.len() <= usize::MAX,
        chunks_fit(r, d, size),
        parts.len() == r.len(),
        forall|q: int| 0 <= q < r.len() ==> chunk_events_fit(#[trigger] parts[q],
            window_kinds(d.subrange(r[q].0 as int, r[q].1 as int), ufs, block, custom),
            window_texts(d.subrange(r[q].0 as int, r[q].1 as int)), ufs, block, custom),
    ensures
        events_fit(joined(ufs_parts(parts)), joined(block_parts(parts)), joined(custom_parts(parts)),
            window_kinds(d, ufs, block, custom), window_texts(d), ufs, block, custom),
{
    if r.len() == 0 {
        reveal(events_fit);
        assert(d =~= Seq::<u8>::empty());
        assert(line_starts(d) =~= seq![0usize]);
        assert(window_kinds(d, ufs, block, custom) =~= Seq::<u8>::empty());
        assert(positions_of(window_kinds(d, ufs, block, custom), KIND_UFS) =~= Seq::<int>::empty());
        assert(positions_of(window_kinds(d, ufs, block, custom), KIND_BLOCK) =~= Seq::<int>::empty());
        assert(positions_of(window_kinds(d, ufs, block, custom), KIND_CUSTOM) =~= Seq::<int>::empty());
        assert(joined(ufs_parts(parts)) =~= Seq::<UFS>::empty());
        assert(joined(block_parts(parts)) =~= Seq::<Block>::empty());
        assert(joined(custom_parts(parts)) =~= Seq::<UFSCUSTOM>::empty());
    } else {
        let n = r.len() as int;
        reveal(parts_fit);
        lemma_chunk_events_prefix(d, r, size, parts, ufs, block, custom, n);
        assert(ufs_parts(parts).take(n) =~= ufs_parts(parts));
        assert(block_parts(parts).take(n) =~= block_parts(parts));
        assert(custom_parts(parts).take(n) =~= custom_parts(parts));
        assert(d.subrange(0, d.len() as int) =~= d);
    }
}


/// The line parser and the capture parser read a block line alike: where
/// the line parser finds every field well formed, the capture parser
/// reports no error (so `parse_block_trace_with_caps` returns an event),
/// and the events both build hold the same fields.
pub proof fn lemma_block_parsers_agree(c: Seq<Option<Seq<char>>>, p: LinePattern, b1: Block, b2: Block)
    requires
        block_event_caps_ok(c, p),
    ensures
        block_caps_error(c, p) is None,
        block_fields_match(c, p, b1) && block_fields_match(c, p, b2) ==>
        b1.time == b2.time && b1.process@ == b2.process@ && b1.cpu == b2.cpu && b1.flags@ == b2.flags@
        && b1.action@ == b2.action@ && b1.devmajor == b2.devmajor && b1.devminor == b2.devminor
        && b1.io_type@ == b2.io_type@ && b1.extra == b2.extra && b1.sector == b2.sector && b1.size == b2.size
        && b1.comm@ == b2.comm@ && b1.qd == b2.qd && b1.dtoc == b2.dtoc && b1.ctoc == b2.ctoc
        && b1.ctod == b2.ctod && b1.continuous == b2.continuous,
{
}


/// The line parser and the capture parser read a UFS line alike when the
/// group id is written without `0x` (as the default pattern captures it):
/// where the line parser finds every field well formed, the capture parser
/// reports no error (so `parse_ufs_trace_with_caps` returns an event), and
/// the events both build hold the same fields.
pub proof fn lemma_ufs_parsers_agree(c: Seq<Option<Seq<char>>>, p: LinePattern, u1: UFS, u2: UFS)
    requires
        ufs_event_caps_ok(c, p),
        !({
            let b = encode_utf8(grp(c, p, "group_id"@)->0);
            b.len() >= 2 && b[0] == 48 && b[1] == 120
        }),
    ensures
        ufs_caps_error(c, p) is None,
        ufs_caps_late_error(c, p) is None,
        grp(c, p, "lba"@) is Some,
        ufs_event_fields(c, p, u1) && ufs_fields_match(c, p, u2) ==>
        u1.time == u2.time && u1.process@ == u2.process@ && u1.cpu == u2.cpu && u1.action@ == u2.action@
        && u1.tag == u2.tag && u1.size == u2.size && u1.lba == u2.lba && u1.opcode@ == u2.opcode@
        && u1.groupid == u2.groupid && u1.hwqid == u2.hwqid && u1.qd == u2.qd && u1.dtoc == u2.dtoc
        && u1.ctoc == u2.ctoc && u1.ctod == u2.ctod && u1.continuous == u2.continuous,
{
    lemma_i32_readings_agree(encode_utf8(grp(c, p, "size"@)->0));
}

} // verus!
