//! Trace records from the groups of a matched line.

use vstd::prelude::*;
use vstd::utf8::encode_utf8;
use crate::numeric::{
    parse_unsigned_spec, parse_hex_u32_spec, seconds_ns_spec, i32_parse_result,
    parse_u32, parse_u64, parse_hex_u32, parse_seconds_ns, parse_i32_or_error,
};
use crate::matcher::{LinePattern, named_capture, regex_group_names};
use crate::text::str_eq;
use crate::types::{UFS, Block, UFSCUSTOM};

verus! {

/// LBA value that UFS drivers log for debug commands.
pub const UFS_DEBUG_LBA: u64 = 281474976710655;

/// Largest LBA accepted as a real UFS address.
pub const MAX_VALID_UFS_LBA: u64 = 1_000_000_000_000;

/// The text of a group, or the empty text when it took no part.
pub open spec fn text_or_empty(c: Option<Seq<char>>) -> Seq<char> {
    match c {
        Some(t) => t,
        None => Seq::empty(),
    }
}

/// The unsigned value of a group, bounded by `max`.
pub open spec fn cap_unsigned(c: Option<Seq<char>>, max: int) -> Option<int> {
    match c {
        Some(t) => parse_unsigned_spec(encode_utf8(t), max),
        None => None,
    }
}

/// A timestamp group in nanoseconds.
pub open spec fn cap_time(c: Option<Seq<char>>) -> Option<int> {
    match c {
        Some(t) => seconds_ns_spec(encode_utf8(t)),
        None => None,
    }
}

/// The value of a group with the fallback `d` when it is absent or does
/// not parse.
pub open spec fn unsigned_or(c: Option<Seq<char>>, max: int, d: int) -> int {
    match cap_unsigned(c, max) {
        Some(v) => v,
        None => d,
    }
}

/// The group named `name` of a match of `p`.
pub open spec fn grp(caps: Seq<Option<Seq<char>>>, p: LinePattern, name: Seq<char>) -> Option<Seq<char>> {
    named_capture(caps, regex_group_names(p.source_text()), name)
}

pub open spec fn abs_int(v: int) -> int {
    if v < 0 {
        -v
    } else {
        v
    }
}

/// The first error met while reading a UFS event before its LBA.
pub open spec fn ufs_caps_error(caps: Seq<Option<Seq<char>>>, p: LinePattern) -> Option<Seq<char>> {
    if cap_time(grp(caps, p, "time"@)) is None {
        Some("time parse error"@)
    } else if cap_unsigned(grp(caps, p, "cpu"@), u32::MAX as int) is None {
        Some("cpu parse error"@)
    } else if cap_unsigned(grp(caps, p, "tag"@), u32::MAX as int) is None {
        Some("tag parse error"@)
    } else if grp(caps, p, "size"@) is None {
        Some("size field missing"@)
    } else if i32_parse_result(encode_utf8(grp(caps, p, "size"@)->0)) is Err {
        Some(i32_parse_result(encode_utf8(grp(caps, p, "size"@)->0))->Err_0)
    } else {
        None
    }
}

/// The first error met while reading a UFS event after its LBA.
pub open spec fn ufs_caps_late_error(caps: Seq<Option<Seq<char>>>, p: LinePattern) -> Option<Seq<char>> {
    let gid = grp(caps, p, "group_id"@);
    if gid is None || parse_hex_u32_spec(encode_utf8(gid->0)) is None {
        Some("group_id parse error"@)
    } else if cap_unsigned(grp(caps, p, "hwq_id"@), u32::MAX as int) is None {
        Some("hwq_id parse error"@)
    } else {
        None
    }
}

/// The LBA of a UFS event: debug and implausibly large addresses count as 0.
pub open spec fn ufs_lba(raw: int) -> int {
    if raw == UFS_DEBUG_LBA || raw > MAX_VALID_UFS_LBA {
        0
    } else {
        raw
    }
}

/// `u` holds the fields read from the groups `c` of a match of `p`.
pub open spec fn ufs_fields_match(c: Seq<Option<Seq<char>>>, p: LinePattern, u: UFS) -> bool {
    &&& u.time as int == cap_time(grp(c, p, "time"@))->0
    &&& u.process@ == text_or_empty(grp(c, p, "process"@))
    &&& u.cpu as int == cap_unsigned(grp(c, p, "cpu"@), u32::MAX as int)->0
    &&& u.action@ == text_or_empty(grp(c, p, "command"@))
    &&& u.tag as int == cap_unsigned(grp(c, p, "tag"@), u32::MAX as int)->0
    &&& u.size as int == abs_int(i32_parse_result(encode_utf8(grp(c, p, "size"@)->0))->Ok_0) / 4096
    &&& u.lba as int == ufs_lba(unsigned_or(grp(c, p, "lba"@), u64::MAX as int, 0))
    &&& u.opcode@ == text_or_empty(grp(c, p, "opcode"@))
    &&& u.groupid as int == parse_hex_u32_spec(encode_utf8(grp(c, p, "group_id"@)->0))->0
    &&& u.hwqid as int == cap_unsigned(grp(c, p, "hwq_id"@), u32::MAX as int)->0
    &&& u.qd == 0 && u.dtoc == 0 && u.ctoc == 0 && u.ctod == 0 && !u.continuous
}

/// Builds a UFS event from the groups of a match of `p`: `time`, `process`,
/// `cpu`, `command`, `tag`, `size` (bytes, kept in 4 KiB units), `lba`,
/// `opcode`, `group_id` (hexadecimal) and `hwq_id`.
pub fn parse_ufs_trace_with_caps(p: &LinePattern, caps: &Vec<Option<String>>) -> (r: Result<UFS, String>)
    requires
        p.wf(),
        ufs_caps_error(caps.deep_view(), *p) is None ==> grp(caps.deep_view(), *p, "lba"@) is Some,
    ensures
        ({
            let c = caps.deep_view();
            let early = ufs_caps_error(c, *p);
            let late = ufs_caps_late_error(c, *p);
            match r {
                Err(m) => if early is Some { early == Some(m@) } else { late == Some(m@) },
                Ok(u) => early is None && late is None && ufs_fields_match(c, *p, u),
            }
        }),
{
    let time: u64 = match p.named(caps, "time") {
        Some(t) => match parse_seconds_ns(t.as_str()) {
            Some(v) => v,
            None => return Err("time parse error".to_owned()),
        },
        None => return Err("time parse error".to_owned()),
    };
    let process = match p.named(caps, "process") {
        Some(t) => t,
        None => String::new(),
    };
    let cpu: u32 = match p.named(caps, "cpu") {
        Some(t) => match parse_u32(t.as_str()) {
            Some(v) => v,
            None => return Err("cpu parse error".to_owned()),
        },
        None => return Err("cpu parse error".to_owned()),
    };
    let action = match p.named(caps, "command") {
        Some(t) => t,
        None => String::new(),
    };
    let tag: u32 = match p.named(caps, "tag") {
        Some(t) => match parse_u32(t.as_str()) {
            Some(v) => v,
            None => return Err("tag parse error".to_owned()),
        },
        None => return Err("tag parse error".to_owned()),
    };
    let size_raw: i32 = match p.named(caps, "size") {
        Some(t) => match parse_i32_or_error(t.as_str()) {
            Ok(v) => v,
            Err(m) => return Err(m),
        },
        None => return Err("size field missing".to_owned()),
    };
    let abs: u64 = if size_raw < 0 { (0i64 - size_raw as i64) as u64 } else { size_raw as u64 };
    let size: u32 = (abs / 4096) as u32;
    let raw_lba: u64 = match p.named(caps, "lba") {
        Some(t) => match parse_u64(t.as_str()) {
            Some(v) => v,
            None => 0,
        },
        None => 0,
    };
    let lba: u64 = if raw_lba == UFS_DEBUG_LBA || raw_lba > MAX_VALID_UFS_LBA { 0 } else { raw_lba };
    let opcode = match p.named(caps, "opcode") {
        Some(t) => t,
        None => String::new(),
    };
    let groupid: u32 = match p.named(caps, "group_id") {
        Some(t) => match parse_hex_u32(t.as_str()) {
            Some(v) => v,
            None => return Err("group_id parse error".to_owned()),
        },
        None => return Err("group_id parse error".to_owned()),
    };
    let hwqid: u32 = match p.named(caps, "hwq_id") {
        Some(t) => match parse_u32(t.as_str()) {
            Some(v) => v,
            None => return Err("hwq_id parse error".to_owned()),
        },
        None => return Err("hwq_id parse error".to_owned()),
    };
    Ok(UFS {
        time,
        process,
        cpu,
        action,
        tag,
        opcode,
        lba,
        size,
        groupid,
        hwqid,
        qd: 0,
        dtoc: 0,
        ctoc: 0,
        ctod: 0,
        continuous: false,
    })
}

/// The first error met while reading a block event.
pub open spec fn block_caps_error(caps: Seq<Option<Seq<char>>>, p: LinePattern) -> Option<Seq<char>> {
    if cap_time(grp(caps, p, "time"@)) is None {
        Some("time parse error"@)
    } else if cap_unsigned(grp(caps, p, "cpu"@), u32::MAX as int) is None {
        Some("cpu parse error"@)
    } else if cap_unsigned(grp(caps, p, "devmajor"@), u32::MAX as int) is None {
        Some("devmajor error"@)
    } else if cap_unsigned(grp(caps, p, "devminor"@), u32::MAX as int) is None {
        Some("devminor error"@)
    } else if cap_unsigned(grp(caps, p, "size"@), u32::MAX as int) is None {
        Some("size error"@)
    } else {
        None
    }
}

/// The sector of a block event: the all-ones value counts as 0, as does a
/// missing or malformed one.
pub open spec fn block_sector(c: Option<Seq<char>>) -> int {
    if c == Some("18446744073709551615"@) {
        0
    } else {
        unsigned_or(c, u64::MAX as int, 0)
    }
}

/// `b` holds the fields read from the groups `c` of a match of `p`.
pub open spec fn block_fields_match(c: Seq<Option<Seq<char>>>, p: LinePattern, b: Block) -> bool {
    &&& b.time as int == cap_time(grp(c, p, "time"@))->0
    &&& b.process@ == text_or_empty(grp(c, p, "process"@))
    &&& b.cpu as int == cap_unsigned(grp(c, p, "cpu"@), u32::MAX as int)->0
    &&& b.flags@ == text_or_empty(grp(c, p, "flags"@))
    &&& b.action@ == text_or_empty(grp(c, p, "action"@))
    &&& b.devmajor as int == cap_unsigned(grp(c, p, "devmajor"@), u32::MAX as int)->0
    &&& b.devminor as int == cap_unsigned(grp(c, p, "devminor"@), u32::MAX as int)->0
    &&& b.io_type@ == text_or_empty(grp(c, p, "io_type"@))
    &&& b.extra as int == unsigned_or(grp(c, p, "extra"@), u32::MAX as int, 0)
    &&& b.sector as int == block_sector(grp(c, p, "sector"@))
    &&& b.size as int == cap_unsigned(grp(c, p, "size"@), u32::MAX as int)->0
    &&& b.comm@ == text_or_empty(grp(c, p, "comm"@))
    &&& b.qd == 0 && b.dtoc == 0 && b.ctoc == 0 && b.ctod == 0 && !b.continuous
}

/// Builds a block event from the groups of a match of `p`: `time`,
/// `process`, `cpu`, `flags`, `action`, `devmajor`, `devminor`, `io_type`,
/// `extra` (optional), `sector`, `size` and `comm`.
pub fn parse_block_trace_with_caps(p: &LinePattern, caps: &Vec<Option<String>>) -> (r: Result<Block, String>)
    requires
        p.wf(),
    ensures
        ({
            let c = caps.deep_view();
            match r {
                Err(m) => block_caps_error(c, *p) == Some(m@),
                Ok(b) => block_caps_error(c, *p) is None && block_fields_match(c, *p, b),
            }
        }),
{
    let time: u64 = match p.named(caps, "time") {
        Some(t) => match parse_seconds_ns(t.as_str()) {
            Some(v) => v,
            None => return Err("time parse error".to_owned()),
        },
        None => return Err("time parse error".to_owned()),
    };
    let process = match p.named(caps, "process") {
        Some(t) => t,
        None => String::new(),
    };
    let cpu: u32 = match p.named(caps, "cpu") {
        Some(t) => match parse_u32(t.as_str()) {
            Some(v) => v,
            None => return Err("cpu parse error".to_owned()),
        },
        None => return Err("cpu parse error".to_owned()),
    };
    let flags = match p.named(caps, "flags") {
        Some(t) => t,
        None => String::new(),
    };
    let action = match p.named(caps, "action") {
        Some(t) => t,
        None => String::new(),
    };
    let devmajor: u32 = match p.named(caps, "devmajor") {
        Some(t) => match parse_u32(t.as_str()) {
            Some(v) => v,
            None => return Err("devmajor error".to_owned()),
        },
        None => return Err("devmajor error".to_owned()),
    };
    let devminor: u32 = match p.named(caps, "devminor") {
        Some(t) => match parse_u32(t.as_str()) {
            Some(v) => v,
            None => return Err("devminor error".to_owned()),
        },
        None => return Err("devminor error".to_owned()),
    };
    let io_type = match p.named(caps, "io_type") {
        Some(t) => t,
        None => String::new(),
    };
    let extra: u32 = match p.named(caps, "extra") {
        Some(t) => match parse_u32(t.as_str()) {
            Some(v) => v,
            None => 0,
        },
        None => 0,
    };
    let sector: u64 = match p.named(caps, "sector") {
        Some(t) => {
            if str_eq(t.as_str(), "18446744073709551615") {
                0
            } else {
                match parse_u64(t.as_str()) {
                    Some(v) => v,
                    None => 0,
                }
            }
        },
        None => 0,
    };
    let size: u32 = match p.named(caps, "size") {
        Some(t) => match parse_u32(t.as_str()) {
            Some(v) => v,
            None => return Err("size error".to_owned()),
        },
        None => return Err("size error".to_owned()),
    };
    let comm = match p.named(caps, "comm") {
        Some(t) => t,
        None => String::new(),
    };
    Ok(Block {
        time,
        process,
        cpu,
        flags,
        action,
        devmajor,
        devminor,
        io_type,
        extra,
        sector,
        size,
        comm,
        qd: 0,
        dtoc: 0,
        ctoc: 0,
        ctod: 0,
        continuous: false,
    })
}

/// A timestamp group in nanoseconds, 0 when absent or malformed.
pub open spec fn time_or_zero(c: Option<Seq<char>>) -> int {
    match cap_time(c) {
        Some(v) => v,
        None => 0,
    }
}

/// `u` holds the fields read from the groups `c` of a match of `p`.
pub open spec fn custom_fields_match(c: Seq<Option<Seq<char>>>, p: LinePattern, u: UFSCUSTOM) -> bool {
    &&& u.opcode@ == text_or_empty(grp(c, p, "opcode"@))
    &&& u.lba as int == unsigned_or(grp(c, p, "lba"@), u64::MAX as int, 0)
    &&& u.size as int == unsigned_or(grp(c, p, "size"@), u32::MAX as int, 0)
    &&& u.start_time as int == time_or_zero(grp(c, p, "start_time"@))
    &&& u.end_time as int == time_or_zero(grp(c, p, "end_time"@))
    &&& u.dtoc as int == u.end_time - u.start_time
    &&& u.start_qd == 0 && u.end_qd == 0 && u.ctoc == 0 && u.ctod == 0 && !u.continuous
}

/// Builds a custom UFS request from the groups of a match of `p`:
/// `opcode`, `lba`, `size`, `start_time` and `end_time`; what is absent or
/// malformed counts as empty or 0. The dispatch to complete latency is the
/// end time less the start time.
pub fn parse_ufscustom_trace_with_caps(p: &LinePattern, caps: &Vec<Option<String>>) -> (r: Result<UFSCUSTOM, String>)
    requires
        p.wf(),
    ensures
        ({
            let c = caps.deep_view();
            match r {
                Err(_) => false,
                Ok(u) => custom_fields_match(c, *p, u),
            }
        }),
{
    let opcode = match p.named(caps, "opcode") {
        Some(t) => t,
        None => String::new(),
    };
    let lba: u64 = match p.named(caps, "lba") {
        Some(t) => match parse_u64(t.as_str()) {
            Some(v) => v,
            None => 0,
        },
        None => 0,
    };
    let size: u32 = match p.named(caps, "size") {
        Some(t) => match parse_u32(t.as_str()) {
            Some(v) => v,
            None => 0,
        },
        None => 0,
    };
    let start_time: u64 = match p.named(caps, "start_time") {
        Some(t) => match parse_seconds_ns(t.as_str()) {
            Some(v) => v,
            None => 0,
        },
        None => 0,
    };
    let end_time: u64 = match p.named(caps, "end_time") {
        Some(t) => match parse_seconds_ns(t.as_str()) {
            Some(v) => v,
            None => 0,
        },
        None => 0,
    };
    Ok(UFSCUSTOM {
        opcode,
        lba,
        size,
        start_time,
        end_time,
        dtoc: end_time as i128 - start_time as i128,
        start_qd: 0,
        end_qd: 0,
        ctoc: 0,
        ctod: 0,
        continuous: false,
    })
}

} // verus!
