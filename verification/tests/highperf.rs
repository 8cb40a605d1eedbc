use estrace::highperf::{
    find_line_boundaries, parse_ufscustom_event, parse_ufs_event, parse_block_io_event,
    process_line_optimized, process_chunk, plan_chunks, merge_chunk_results, chunk_size_for,
    highperf_chunk_size, MIN_CHUNK_SIZE,
};
use estrace::matcher::LinePattern;
use estrace::patterns::PatternRegistry;
use estrace::types::{UFS, Block, UFSCUSTOM};

fn registry_for_highperf() -> PatternRegistry {
    PatternRegistry::new().expect("default patterns compile")
}

#[test]
fn test_find_line_boundaries() {
    let data = b"line1\nline2\nline3\n";
    let boundaries = find_line_boundaries(data);
    assert_eq!(boundaries, vec![0, 6, 12, 18]);
}

#[test]
fn test_parse_ufscustom_event() {
    let reg = registry_for_highperf();
    let regex = reg.active_ufscustom_pattern();
    let line = "0x28,1048576,8,123.456,123.789";
    let result = parse_ufscustom_event(line, regex);
    if let Some(ufscustom) = result {
        assert_eq!(ufscustom.opcode, "0x28");
        assert_eq!(ufscustom.lba, 1048576);
        assert_eq!(ufscustom.size, 8);
        assert_eq!(ufscustom.start_time, 123_456_000_000);
        assert_eq!(ufscustom.end_time, 123_789_000_000);
    } else {
        panic!("the custom line should parse");
    }
}

#[test]
fn test_parse_ufs_event() {
    let reg = registry_for_highperf();
    let regex = reg.active_ufs_pattern();
    let line = "kworker/u16:3 [7] 123.456789: ufshcd_command: send_req: ... tag: 5 ... size: 32768 ... LBA: 1048576 ... opcode: 0x28 ... group_id: 0x01 ... hwq_id: 0";
    let _result = parse_ufs_event(line, regex);
}

#[test]
fn test_parse_block_io_event() {
    let reg = registry_for_highperf();
    let regex = reg.active_block_pattern();
    let line = "kworker/u16:0 [0] d..1. 123.456: block_rq_issue: 8,0 R 0 () 2048 + 8 [kworker/u16:0]";
    let result = parse_block_io_event(line, regex);
    if let Some(block) = result {
        println!("Parsed block: cpu={}, devmajor={}", block.cpu, block.devmajor);
    }
}

#[test]
fn test_process_line_optimized() {
    let reg = registry_for_highperf();
    let line = "0x28,1048576,8,123.456,123.789";
    let (ufs, block, ufscustom) = process_line_optimized(
        line,
        reg.active_ufs_pattern(),
        reg.active_block_pattern(),
        reg.active_ufscustom_pattern(),
    );
    assert!(ufs.is_none());
    assert!(block.is_none());
    assert!(ufscustom.is_some());
}

#[test]
fn custom_line_from_the_guide_has_dtoc_of_333_ms() {
    let reg = registry_for_highperf();
    let u = parse_ufscustom_event("0x28,1048576,32,123.456,123.789", reg.active_ufscustom_pattern()).unwrap();
    assert_eq!(u.opcode, "0x28");
    assert_eq!(u.lba, 1048576);
    assert_eq!(u.size, 32);
    assert_eq!(u.dtoc, 333_000_000);
}

#[test]
fn block_line_from_the_guide_parses_every_field() {
    let reg = registry_for_highperf();
    let line = "kworker/u16:0 [0] d..1. 123.456: block_rq_issue: 8,0 R 0 () 2048 + 8 [kworker/u16:0]";
    let b = parse_block_io_event(line, reg.active_block_pattern()).unwrap();
    assert_eq!(b.cpu, 0);
    assert_eq!(b.time, 123_456_000_000);
    assert_eq!(b.flags, "d..1.");
    assert_eq!(b.action, "block_rq_issue");
    assert_eq!(b.devmajor, 8);
    assert_eq!(b.devminor, 0);
    assert_eq!(b.io_type, "R");
    assert_eq!(b.extra, 0);
    assert_eq!(b.sector, 2048);
    assert_eq!(b.size, 8);
    assert_eq!(b.comm, "kworker/u16:0");
}

fn named_ufs_pattern() -> LinePattern {
    LinePattern::compile(r"^\s*(?P<process>.*?)\s+\[(?P<cpu>\d+)\]\s+(?P<time>[\d\.]+):\s+ufshcd_command:\s+(?P<command>send_req|complete_rsp):.*?tag:\s*(?P<tag>\d+).*?size:\s*(?P<size>[-]?\d+).*?LBA:\s*(?P<lba>\d+).*?opcode:\s*(?P<opcode>0x[0-9a-f]+).*?group_id:\s*(?P<group_id>0x[0-9a-f]+).*?hwq_id:\s*(?P<hwq_id>\d+)").unwrap()
}

#[test]
fn ufs_line_from_the_guide_parses_with_a_named_pattern() {
    let p = named_ufs_pattern();
    let line = "kworker/u16:3 [7] 123.456789: ufshcd_command: send_req: ... tag: 5 size: 32768 LBA: 1048576 opcode: 0x28 group_id: 0x01 hwq_id: 0";
    let u = parse_ufs_event(line, &p).unwrap();
    assert_eq!(u.cpu, 7);
    assert_eq!(u.time, 123_456_789_000);
    assert_eq!(u.action, "send_req");
    assert_eq!(u.tag, 5);
    assert_eq!(u.size, 8);
    assert_eq!(u.lba, 1048576);
    assert_eq!(u.opcode, "0x28");
    assert_eq!(u.groupid, 1);
    assert_eq!(u.hwqid, 0);
    assert_eq!(u.qd, 0);
}

#[test]
fn ufs_event_with_debug_lba_and_negative_size() {
    let p = named_ufs_pattern();
    let line = "k [1] 1.5: ufshcd_command: complete_rsp: tag: 2 size: -8192 LBA: 281474976710655 opcode: 0x2a group_id: 0x10 hwq_id: 3";
    let u = parse_ufs_event(line, &p).unwrap();
    assert_eq!(u.size, 2);
    assert_eq!(u.lba, 0);
    assert_eq!(u.groupid, 16);
    assert_eq!(u.hwqid, 3);
    assert_eq!(u.time, 1_500_000_000);
}

#[test]
fn default_ufs_pattern_reads_the_guide_line() {
    let reg = registry_for_highperf();
    let line = "kworker/u16:3 [7] 123.456789: ufshcd_command: send_req: ... tag: 5 size: 32768 LBA: 1048576 opcode: 0x28 group_id: 0x01 hwq_id: 0";
    let u = parse_ufs_event(line, reg.active_ufs_pattern()).unwrap();
    assert_eq!(u.process, "kworker/u16:3");
    assert_eq!(u.cpu, 7);
    assert_eq!(u.time, 123_456_789_000);
    assert_eq!(u.action, "send_req");
    assert_eq!(u.tag, 5);
    assert_eq!(u.size, 8);
    assert_eq!(u.lba, 1048576);
    assert_eq!(u.opcode, "0x28");
    assert_eq!(u.groupid, 1);
    assert_eq!(u.hwqid, 0);
    let caps = reg.active_ufs_pattern().captures(line).unwrap();
    let v = estrace::parse::parse_ufs_trace_with_caps(reg.active_ufs_pattern(), &caps).unwrap();
    assert_eq!((v.cpu, v.time, v.tag, v.size, v.lba, v.groupid), (7, 123_456_789_000, 5, 8, 1048576, 1));
}

#[test]
fn short_lines_are_skipped() {
    let reg = registry_for_highperf();
    let (a, b, c) = process_line_optimized("0x1,2,3,4", reg.active_ufs_pattern(), reg.active_block_pattern(), reg.active_ufscustom_pattern());
    assert!(a.is_none() && b.is_none() && c.is_none());
}

#[test]
fn block_lines_are_recognised_by_shape() {
    let reg = registry_for_highperf();
    let line = "kworker/u16:0 [0] d..1. 123.456: block_rq_issue: 8,0 R 0 () 2048 + 8 [kworker/u16:0]";
    let (a, b, c) = process_line_optimized(line, reg.active_ufs_pattern(), reg.active_block_pattern(), reg.active_ufscustom_pattern());
    assert!(a.is_none());
    assert!(c.is_none());
    assert_eq!(b.unwrap().sector, 2048);
}

#[test]
fn process_chunk_reads_every_line_including_an_unterminated_last_one() {
    let reg = registry_for_highperf();
    let data = b"0x28,100,8,1.0,1.5\n\nnot a trace line at all\n0x2a,200,16,2.0,2.25\n0x28,300,8,3.0,3.5";
    let (u, b, c) = process_chunk(data, 0, data.len(), reg.active_ufs_pattern(), reg.active_block_pattern(), reg.active_ufscustom_pattern());
    assert!(u.is_empty());
    assert!(b.is_empty());
    assert_eq!(c.len(), 3);
    assert_eq!(c[0].lba, 100);
    assert_eq!(c[1].lba, 200);
    assert_eq!(c[1].dtoc, 250_000_000);
    assert_eq!(c[2].lba, 300);
}

#[test]
fn chunked_parse_keeps_a_last_line_without_newline() {
    let reg = registry_for_highperf();
    let data = b"0x28,1,8,1.0,2.0\n0x2a,9,8,3.0,4.0";
    for size in [1u64, 5, 17, 100] {
        let plan = plan_chunks(data, size);
        let mut parts = Vec::new();
        for &(s, e) in &plan {
            parts.push(process_chunk(data, s, e, reg.active_ufs_pattern(), reg.active_block_pattern(), reg.active_ufscustom_pattern()));
        }
        let (u, b, c) = merge_chunk_results(parts);
        assert!(u.is_empty() && b.is_empty());
        assert_eq!(c.len(), 2);
        assert_eq!(c[0].opcode, "0x28");
        assert_eq!(c[1].opcode, "0x2a");
    }
}

#[test]
fn group_id_is_hexadecimal_in_both_parsers() {
    let p = LinePattern::compile(r"^(?P<process>\S+) \[(?P<cpu>\d+)\] (?P<time>[\d.]+): (?P<command>\S+) tag: (?P<tag>\d+) size: (?P<size>-?\d+) LBA: (?P<lba>\d+) opcode: (?P<opcode>0x[0-9a-f]+) group_id: (?P<group_id>[0-9a-fx]+) hwq_id: (?P<hwq_id>\d+)").unwrap();
    let line = "k [1] 1.5: send_req tag: 2 size: 4096 LBA: 8 opcode: 0x28 group_id: 10 hwq_id: 3";
    let u = parse_ufs_event(line, &p).unwrap();
    assert_eq!(u.groupid, 16);
    let caps = p.captures(line).unwrap();
    let v = estrace::parse::parse_ufs_trace_with_caps(&p, &caps).unwrap();
    assert_eq!(v.groupid, 16);
    let line2 = "k [1] 1.5: send_req tag: 2 size: 4096 LBA: 8 opcode: 0x28 group_id: 1a hwq_id: 3";
    assert_eq!(parse_ufs_event(line2, &p).unwrap().groupid, 26);
    let line3 = "k [1] 1.5: send_req tag: 2 size: 4096 LBA: 8 opcode: 0x28 group_id: 0x1a hwq_id: 3";
    assert_eq!(parse_ufs_event(line3, &p).unwrap().groupid, 26);
}

#[test]
fn chunks_end_after_newlines_and_cover_the_data() {
    let data = b"aaaa\nbb\ncccccc\nd";
    let plan = plan_chunks(data, 3);
    assert_eq!(plan, vec![(0, 5), (5, 15), (15, 16)]);
    assert!(plan_chunks(b"", 10).is_empty());
    assert_eq!(plan_chunks(data, 100), vec![(0, 16)]);
}

#[test]
fn chunked_processing_and_merge_order_by_time() {
    let reg = registry_for_highperf();
    let data = b"0x28,100,8,5.0,5.5\n0x28,200,8,1.0,1.5\n0x2a,300,8,3.0,3.5\n";
    let plan = plan_chunks(data, 10);
    let mut parts = Vec::new();
    for &(s, e) in &plan {
        parts.push(process_chunk(data, s, e, reg.active_ufs_pattern(), reg.active_block_pattern(), reg.active_ufscustom_pattern()));
    }
    let (u, b, c) = merge_chunk_results(parts);
    assert!(u.is_empty() && b.is_empty());
    let lbas: Vec<u64> = c.iter().map(|x| x.lba).collect();
    assert_eq!(lbas, vec![200, 300, 100]);
}

#[test]
fn chunk_size_is_four_chunks_per_cpu_but_at_least_64_mib() {
    assert_eq!(chunk_size_for(1_000, 8), MIN_CHUNK_SIZE);
    assert_eq!(chunk_size_for(64 * 1024 * 1024 * 64, 4), 64 * 1024 * 1024 * 4);
    assert!(highperf_chunk_size(10) >= MIN_CHUNK_SIZE);
}

#[test]
fn merge_keeps_equal_times_in_chunk_order() {
    let mk = |lba: u64, t: u64| UFSCUSTOM {
        opcode: "0x28".to_string(), lba, size: 8, start_time: t, end_time: t + 10, dtoc: 10,
        start_qd: 0, end_qd: 0, ctoc: 0, ctod: 0, continuous: false,
    };
    let parts: Vec<(Vec<UFS>, Vec<Block>, Vec<UFSCUSTOM>)> = vec![
        (vec![], vec![], vec![mk(1, 50), mk(2, 10)]),
        (vec![], vec![], vec![mk(3, 10)]),
    ];
    let (_, _, c) = merge_chunk_results(parts);
    let lbas: Vec<u64> = c.iter().map(|x| x.lba).collect();
    assert_eq!(lbas, vec![2, 3, 1]);
}
