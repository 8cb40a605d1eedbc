//! Classification of trace lines and parsing of whole trace texts.

use vstd::prelude::*;
use crate::parse::{
    ufs_caps_error, ufs_caps_late_error, block_caps_error, grp, ufs_fields_match,
    block_fields_match, custom_fields_match, parse_ufs_trace_with_caps,
    parse_block_trace_with_caps, parse_ufscustom_trace_with_caps,
};
use crate::matcher::{LinePattern, regex_captures};
use crate::text::{trim_spec, str_trim, str_lines, lines_spec};
use crate::types::{UFS, Block, UFSCUSTOM};

verus! {

/// What one line of a trace holds.
pub enum ParsedLine {
    Ufs(UFS),
    Block(Block),
    Custom(UFSCUSTOM),
    Unmatched,
}

pub const KIND_UNMATCHED: u8 = 0;
pub const KIND_CUSTOM: u8 = 1;
pub const KIND_UFS: u8 = 2;
pub const KIND_BLOCK: u8 = 3;

/// The groups of the match of `p` in `line` read as a UFS event without error.
pub open spec fn ufs_line_ok(line: Seq<char>, p: LinePattern) -> bool {
    let c = regex_captures(p.source_text(), line);
    &&& c is Some
    &&& ufs_caps_error(c->0, p) is None
    &&& ufs_caps_late_error(c->0, p) is None
    &&& grp(c->0, p, "lba"@) is Some
}

/// The groups of the match of `p` in `line` read as a block event without error.
pub open spec fn block_line_ok(line: Seq<char>, p: LinePattern) -> bool {
    let c = regex_captures(p.source_text(), line);
    c is Some && block_caps_error(c->0, p) is None
}

/// The kind of a trace line: blank lines are unmatched; otherwise the
/// custom pattern is tried first, then the UFS pattern, then the block one.
pub open spec fn trace_line_kind(line: Seq<char>, ufs: LinePattern, block: LinePattern, custom: LinePattern) -> u8 {
    if trim_spec(line).len() == 0 {
        KIND_UNMATCHED
    } else if regex_captures(custom.source_text(), line) is Some {
        KIND_CUSTOM
    } else if ufs_line_ok(line, ufs) {
        KIND_UFS
    } else if block_line_ok(line, block) {
        KIND_BLOCK
    } else {
        KIND_UNMATCHED
    }
}

/// `r` is what `trace_line_kind` says of the line, with its fields read
/// from the match of the pattern of that kind.
pub open spec fn parsed_line_matches(
    r: ParsedLine,
    line: Seq<char>,
    ufs: LinePattern,
    block: LinePattern,
    custom: LinePattern,
) -> bool {
    let k = trace_line_kind(line, ufs, block, custom);
    match r {
        ParsedLine::Custom(u) => k == KIND_CUSTOM
            && custom_fields_match(regex_captures(custom.source_text(), line)->0, custom, u),
        ParsedLine::Ufs(u) => k == KIND_UFS
            && ufs_fields_match(regex_captures(ufs.source_text(), line)->0, ufs, u),
        ParsedLine::Block(b) => k == KIND_BLOCK
            && block_fields_match(regex_captures(block.source_text(), line)->0, block, b),
        ParsedLine::Unmatched => k == KIND_UNMATCHED,
    }
}

/// Reads one trace line with the active UFS, block and custom patterns.
/// A UFS match without an `lba` group is not taken as a UFS event.
pub fn parse_trace_line(line: &str, ufs: &LinePattern, block: &LinePattern, custom: &LinePattern) -> (r: ParsedLine)
    requires
        ufs.wf(),
        block.wf(),
        custom.wf(),
    ensures
        parsed_line_matches(r, line@, *ufs, *block, *custom),
{
    if str_trim(line).is_empty() {
        return ParsedLine::Unmatched;
    }
    match custom.captures(line) {
        Some(caps) => {
            match parse_ufscustom_trace_with_caps(custom, &caps) {
                Ok(u) => {
                    return ParsedLine::Custom(u);
                },
                Err(_) => {},
            }
        },
        None => {},
    }
    match ufs.captures(line) {
        Some(caps) => {
            if ufs.named(&caps, "lba").is_some() {
                match parse_ufs_trace_with_caps(ufs, &caps) {
                    Ok(u) => {
                        return ParsedLine::Ufs(u);
                    },
                    Err(_) => {},
                }
            }
        },
        None => {},
    }
    match block.captures(line) {
        Some(caps) => {
            match parse_block_trace_with_caps(block, &caps) {
                Ok(b) => {
                    return ParsedLine::Block(b);
                },
                Err(_) => {},
            }
        },
        None => {},
    }
    ParsedLine::Unmatched
}

/// The kinds of the lines of a trace.
pub open spec fn line_kinds(lines: Seq<Seq<char>>, ufs: LinePattern, block: LinePattern, custom: LinePattern) -> Seq<u8> {
    lines.map_values(|l: Seq<char>| trace_line_kind(l, ufs, block, custom))
}

/// The positions of the lines of kind `k`, in order.
pub open spec fn positions_of(kinds: Seq<u8>, k: u8) -> Seq<int>
    decreases kinds.len(),
{
    if kinds.len() == 0 {
        Seq::empty()
    } else {
        let p = positions_of(kinds.drop_last(), k);
        if kinds.last() == k {
            p.push(kinds.len() - 1)
        } else {
            p
        }
    }
}

/// The numbers (counted from 1) of the unmatched lines among the lines at
/// positions `lo..hi`.
pub open spec fn unmatched_numbers(kinds: Seq<u8>, lo: int, hi: int) -> Seq<usize>
    decreases hi - lo,
{
    if hi <= lo {
        Seq::empty()
    } else {
        let p = unmatched_numbers(kinds, lo, hi - 1);
        if kinds[hi - 1] == KIND_UNMATCHED {
            p.push(hi as usize)
        } else {
            p
        }
    }
}

/// At most the first 1000 numbers of `k`.
pub open spec fn first_thousand(k: Seq<usize>) -> Seq<usize> {
    if k.len() <= 1000 {
        k
    } else {
        k.take(1000)
    }
}

/// The unmatched line numbers reported: all of them when there are at most
/// 1000, else the first 1000 followed by a 0 that marks the rest.
pub open spec fn capped_missing(kinds: Seq<u8>) -> Seq<usize> {
    let k = unmatched_numbers(kinds, 0, kinds.len() as int);
    if k.len() <= 1000 {
        k
    } else {
        k.take(1000).push(0)
    }
}

/// The events of a trace text and its unmatched lines.
pub struct TraceLines {
    pub ufs: Vec<UFS>,
    pub block: Vec<Block>,
    pub ufscustom: Vec<UFSCUSTOM>,
    pub missing_lines: Vec<usize>,
}

/// The events of each kind hold the fields read from their lines, in the
/// order of the lines.
pub open spec fn events_match(
    r: TraceLines,
    lines: Seq<Seq<char>>,
    kinds: Seq<u8>,
    ufs: LinePattern,
    block: LinePattern,
    custom: LinePattern,
) -> bool {
    let pu = positions_of(kinds, KIND_UFS);
    let pb = positions_of(kinds, KIND_BLOCK);
    let pc = positions_of(kinds, KIND_CUSTOM);
    &&& r.ufs.len() == pu.len()
    &&& r.block.len() == pb.len()
    &&& r.ufscustom.len() == pc.len()
    &&& forall|j: int| 0 <= j < pu.len() ==> ufs_fields_match(
        regex_captures(ufs.source_text(), lines[#[trigger] pu[j]])->0, ufs, r.ufs@[j])
    &&& forall|j: int| 0 <= j < pb.len() ==> block_fields_match(
        regex_captures(block.source_text(), lines[#[trigger] pb[j]])->0, block, r.block@[j])
    &&& forall|j: int| 0 <= j < pc.len() ==> custom_fields_match(
        regex_captures(custom.source_text(), lines[#[trigger] pc[j]])->0, custom, r.ufscustom@[j])
}

pub proof fn lemma_positions_bound(kinds: Seq<u8>, k: u8)
    ensures
        forall|j: int| 0 <= j < positions_of(kinds, k).len() ==> 0 <= #[trigger] positions_of(kinds, k)[j] < kinds.len()
            && kinds[positions_of(kinds, k)[j]] == k,
    decreases kinds.len(),
{
    if kinds.len() > 0 {
        lemma_positions_bound(kinds.drop_last(), k);
        let prev = positions_of(kinds.drop_last(), k);
        assert forall|j: int| 0 <= j < positions_of(kinds, k).len() implies 0 <= #[trigger] positions_of(kinds, k)[j] < kinds.len()
            && kinds[positions_of(kinds, k)[j]] == k by {
            if j < prev.len() {
                assert(positions_of(kinds, k)[j] == prev[j]);
                assert(kinds.drop_last()[prev[j]] == kinds[prev[j]]);
            }
        }
    }
}

/// Splits a trace text into lines and reads each with the active patterns,
/// chunk by chunk (`chunk_size` lines at a time), collecting the events of
/// each kind and the numbers of the unmatched lines (see `capped_missing`).
pub fn parse_trace_text(content: &str, chunk_size: usize, ufs: &LinePattern, block: &LinePattern, custom: &LinePattern) -> (r: TraceLines)
    requires
        chunk_size > 0,
        ufs.wf(),
        block.wf(),
        custom.wf(),
    ensures
        ({
            let lines = lines_spec(content@);
            let kinds = line_kinds(lines, *ufs, *block, *custom);
            &&& events_match(r, lines, kinds, *ufs, *block, *custom)
            &&& r.missing_lines@ == capped_missing(kinds)
        }),
{
    let lines = str_lines(content);
    let ghost ls = lines_spec(content@);
    let ghost kinds = line_kinds(ls, *ufs, *block, *custom);
    let n: usize = lines.len();
    assert(ls.len() == n);
    let mut out = TraceLines { ufs: Vec::new(), block: Vec::new(), ufscustom: Vec::new(), missing_lines: Vec::new() };
    let mut more_missing: bool = false;
    let mut chunk_start: usize = 0;
    while chunk_start < n
        invariant
            n == lines.len(),
            ls == lines_spec(content@),
            lines@.map_values(|l: &str| l@) == ls,
            kinds == line_kinds(ls, *ufs, *block, *custom),
            kinds.len() == n,
            chunk_size > 0,
            ufs.wf(),
            block.wf(),
            custom.wf(),
            chunk_start <= n,
            events_match(out, ls, kinds.take(chunk_start as int), *ufs, *block, *custom),
            out.missing_lines@ == first_thousand(unmatched_numbers(kinds, 0, chunk_start as int)),
            more_missing == (unmatched_numbers(kinds, 0, chunk_start as int).len() > 1000),
        decreases n - chunk_start,
    {
        let chunk_end: usize = if chunk_size <= n - chunk_start { chunk_start + chunk_size } else { n };
        let mut i: usize = chunk_start;
        while i < chunk_end
            invariant
                n == lines.len(),
                lines@.map_values(|l: &str| l@) == ls,
                kinds == line_kinds(ls, *ufs, *block, *custom),
                kinds.len() == n,
                ufs.wf(),
                block.wf(),
                custom.wf(),
                chunk_start <= i <= chunk_end <= n,
                events_match(out, ls, kinds.take(i as int), *ufs, *block, *custom),
                out.missing_lines@ == first_thousand(unmatched_numbers(kinds, 0, i as int)),
                more_missing == (unmatched_numbers(kinds, 0, i as int).len() > 1000),
            decreases chunk_end - i,
        {
            let line: &str = lines[i];
            assert(line@ == ls[i as int]);
            let parsed = parse_trace_line(line, ufs, block, custom);
            proof {
                assert(kinds.take(i + 1).drop_last() =~= kinds.take(i as int));
                lemma_positions_bound(kinds.take(i as int), KIND_UFS);
                lemma_positions_bound(kinds.take(i as int), KIND_BLOCK);
                lemma_positions_bound(kinds.take(i as int), KIND_CUSTOM);
            }
            let ghost held = unmatched_numbers(kinds, 0, i as int);
            match parsed {
                ParsedLine::Ufs(u) => {
                    out.ufs.push(u);
                },
                ParsedLine::Block(b) => {
                    out.block.push(b);
                },
                ParsedLine::Custom(u) => {
                    out.ufscustom.push(u);
                },
                ParsedLine::Unmatched => {
                    if out.missing_lines.len() < 1000 {
                        out.missing_lines.push(i + 1);
                    } else {
                        more_missing = true;
                    }
                },
            }
            proof {
                let next = unmatched_numbers(kinds, 0, i + 1);
                if kinds[i as int] == KIND_UNMATCHED {
                    assert(next == held.push((i + 1) as usize));
                    if held.len() < 1000 {
                        assert(out.missing_lines@ =~= first_thousand(next));
                    } else {
                        assert(next.take(1000) =~= held.take(1000));
                    }
                } else {
                    assert(next == held);
                }
                let pu = positions_of(kinds.take(i + 1), KIND_UFS);
                let pb = positions_of(kinds.take(i + 1), KIND_BLOCK);
                let pc = positions_of(kinds.take(i + 1), KIND_CUSTOM);
                assert forall|j: int| 0 <= j < pu.len() implies ufs_fields_match(
                    regex_captures(ufs.source_text(), ls[#[trigger] pu[j]])->0, *ufs, out.ufs@[j]) by {
                    if j < positions_of(kinds.take(i as int), KIND_UFS).len() {
                        assert(pu[j] == positions_of(kinds.take(i as int), KIND_UFS)[j]);
                    }
                }
                assert forall|j: int| 0 <= j < pb.len() implies block_fields_match(
                    regex_captures(block.source_text(), ls[#[trigger] pb[j]])->0, *block, out.block@[j]) by {
                    if j < positions_of(kinds.take(i as int), KIND_BLOCK).len() {
                        assert(pb[j] == positions_of(kinds.take(i as int), KIND_BLOCK)[j]);
                    }
                }
                assert forall|j: int| 0 <= j < pc.len() implies custom_fields_match(
                    regex_captures(custom.source_text(), ls[#[trigger] pc[j]])->0, *custom, out.ufscustom@[j]) by {
                    if j < positions_of(kinds.take(i as int), KIND_CUSTOM).len() {
                        assert(pc[j] == positions_of(kinds.take(i as int), KIND_CUSTOM)[j]);
                    }
                }
            }
            i = i + 1;
        }
        chunk_start = chunk_end;
    }
    if more_missing {
        out.missing_lines.push(0);
    }
    assert(kinds.take(n as int) =~= kinds);
    out
}

/// The number of lines read per chunk for a trace file of `file_size`
/// bytes: larger chunks for larger files.
pub fn starttrace_chunk_size(file_size: u64) -> (r: usize)
    ensures
        r == (if file_size > 10_000_000_000 { 450_000usize } else if file_size > 1_000_000_000 { 350_000usize } else { 200_000usize }),
{
    if file_size > 10_000_000_000 {
        450_000
    } else if file_size > 1_000_000_000 {
        350_000
    } else {
        200_000
    }
}

} // verus!
