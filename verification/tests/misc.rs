use estrace::chart::legend_indices;
use estrace::compress::compress_arrow_ipc;
use estrace::export::{plan_csv_files, EXCEL_MAX_ROWS};
use estrace::files::{
    cache_entry_for, split_log_names, parquet_kind, saved_kind, temp_file_due, trace_type_of, TraceFileKind,
};
use estrace::lines::{parse_trace_text, starttrace_chunk_size, ParsedLine, parse_trace_line};
use estrace::matcher::LinePattern;
use estrace::numeric::{parse_seconds_ns, parse_u32, parse_i32, parse_hex_u32, parse_i32_or_error};
use estrace::patterns::PatternRegistry;
use estrace::sampling::{sample_positions, sample_ufs};
use estrace::types::UFS;

#[test]
fn log_names_split_on_commas_and_trim() {
    assert_eq!(split_log_names(" a.parquet , b.parquet,c"), vec!["a.parquet".to_string(), "b.parquet".to_string(), "c".to_string()]);
    assert_eq!(split_log_names(" single "), vec![" single ".to_string()]);
    assert_eq!(split_log_names("x,"), vec!["x".to_string(), "".to_string()]);
}

#[test]
fn parquet_kinds_check_ufscustom_first() {
    assert_eq!(parquet_kind("t_ufscustom.parquet"), TraceFileKind::UfsCustom);
    assert_eq!(parquet_kind("t_ufs.parquet"), TraceFileKind::Ufs);
    assert_eq!(parquet_kind("t_block.parquet"), TraceFileKind::Block);
    assert_eq!(parquet_kind("t_ufs.csv"), TraceFileKind::Other);
    assert_eq!(saved_kind("/d/x_ufs.parquet"), TraceFileKind::Ufs);
    assert_eq!(saved_kind("/d/x_ufscustom.parquet"), TraceFileKind::UfsCustom);
    assert_eq!(saved_kind("/d/x_block.parquet"), TraceFileKind::Block);
    assert_eq!(saved_kind("/d/x.parquet"), TraceFileKind::Other);
}

#[test]
fn temp_files_are_due_by_name_and_age() {
    assert!(temp_file_due("estrace_temp_ufs_1.arrow", 100_000, 10, 3600));
    assert!(!temp_file_due("estrace_temp_ufs_1.arrow", 3000, 10, 3600));
    assert!(!temp_file_due("estrace_temp_ufs_1.arrow", 10, 100_000, 0));
    assert!(!temp_file_due("other_ufs_1.arrow", 100_000, 10, 3600));
    assert!(!temp_file_due("estrace_temp_ufs_1.parquet", 100_000, 10, 3600));
}

#[test]
fn trace_types_of_filter_requests() {
    assert_eq!(trace_type_of("block"), Ok(TraceFileKind::Block));
    assert_eq!(trace_type_of("ufs"), Ok(TraceFileKind::Ufs));
    assert_eq!(trace_type_of("ufscustom"), Ok(TraceFileKind::UfsCustom));
    assert_eq!(trace_type_of("disk"), Err("Unknown trace type: disk".to_string()));
}

#[test]
fn legend_colors_follow_first_appearance() {
    let labels: Vec<String> = ["R", "W", "R", "D"].iter().map(|s| s.to_string()).collect();
    let (legends, colors) = legend_indices(&labels);
    assert_eq!(legends, vec!["R".to_string(), "W".to_string(), "D".to_string()]);
    assert_eq!(colors, vec![0, 1, 0, 2]);
}

#[test]
fn legend_colors_wrap_after_256_labels() {
    let labels: Vec<String> = (0..300).map(|i| format!("l{}", i)).collect();
    let (legends, colors) = legend_indices(&labels);
    assert_eq!(legends.len(), 300);
    assert_eq!(colors[255], 255);
    assert_eq!(colors[256], 0);
    assert_eq!(colors[299], 43);
}

#[test]
fn compressed_bytes_carry_the_gzip_header() {
    let data = vec![7u8; 1000];
    let z = compress_arrow_ipc(&data).unwrap();
    assert_eq!(&z[..10], &[0x1f, 0x8b, 8, 0, 0, 0, 0, 0, 4, 255]);
    assert_ne!(z, data);
    let n = z.len();
    assert_eq!(&z[n - 4..], &[0xe8, 0x03, 0, 0]);
}

#[test]
fn csv_files_are_full_but_the_last() {
    let plan = plan_csv_files(&vec![3, 0, 4, 2], 4);
    let runs: Vec<(usize, usize, usize, usize)> = plan.iter().map(|s| (s.file, s.batch, s.offset, s.len)).collect();
    assert_eq!(runs, vec![(0, 0, 0, 3), (0, 2, 0, 1), (1, 2, 1, 3), (1, 3, 0, 1), (2, 3, 1, 1)]);
    assert!(plan_csv_files(&vec![0, 0], EXCEL_MAX_ROWS).is_empty());
    assert_eq!(plan_csv_files(&vec![10], EXCEL_MAX_ROWS).len(), 1);
}

#[test]
fn sampling_keeps_order_and_count() {
    let pos = sample_positions(1000, 10);
    assert_eq!(pos.len(), 10);
    for w in pos.windows(2) {
        assert!(w[0] < w[1]);
    }
    assert!(pos.iter().all(|&p| p < 1000));
    assert_eq!(sample_positions(1000, 10), pos);
    assert_eq!(sample_positions(3, 10), vec![0, 1, 2]);
}

#[test]
fn sampled_records_come_from_the_list_in_order() {
    let list: Vec<UFS> = (0..50u64).map(|i| UFS {
        time: i, process: String::new(), cpu: 0, action: "send_req".to_string(), tag: i as u32,
        opcode: "0x28".to_string(), lba: i, size: 1, groupid: 0, hwqid: 0, qd: 0, dtoc: 0,
        ctoc: 0, ctod: 0, continuous: false,
    }).collect();
    let s = sample_ufs(&list, 7);
    assert_eq!(s.total_count, 50);
    assert_eq!(s.sampled_count, 7);
    for w in s.data.windows(2) {
        assert!(w[0].time < w[1].time);
    }
    let all = sample_ufs(&list, 100);
    assert_eq!(all.sampled_count, 50);
}

#[test]
fn trace_text_parsing_reports_unmatched_lines() {
    let reg = PatternRegistry::new().unwrap();
    let text = "0x28,100,8,1.0,1.5\n\nkworker/u16:0 [0] d..1. 123.456: block_rq_issue: 8,0 R 0 () 2048 + 8 [kworker/u16:0]\ngarbage\n";
    let r = parse_trace_text(text, 2, reg.active_ufs_pattern(), reg.active_block_pattern(), reg.active_ufscustom_pattern());
    assert_eq!(r.ufscustom.len(), 1);
    assert_eq!(r.block.len(), 1);
    assert_eq!(r.block[0].sector, 2048);
    assert!(r.ufs.is_empty());
    assert_eq!(r.missing_lines, vec![2, 4]);
}

#[test]
fn one_line_is_read_with_the_custom_pattern_first() {
    let reg = PatternRegistry::new().unwrap();
    match parse_trace_line("0x2a,7,16,2.5,2.75", reg.active_ufs_pattern(), reg.active_block_pattern(), reg.active_ufscustom_pattern()) {
        ParsedLine::Custom(u) => {
            assert_eq!(u.lba, 7);
            assert_eq!(u.dtoc, 250_000_000);
        },
        _ => panic!("expected a custom request"),
    }
    assert!(matches!(
        parse_trace_line("   ", reg.active_ufs_pattern(), reg.active_block_pattern(), reg.active_ufscustom_pattern()),
        ParsedLine::Unmatched
    ));
}

#[test]
fn chunk_sizes_grow_with_the_file() {
    assert_eq!(starttrace_chunk_size(10), 200_000);
    assert_eq!(starttrace_chunk_size(2_000_000_000), 350_000);
    assert_eq!(starttrace_chunk_size(20_000_000_000), 450_000);
}

#[test]
fn numbers_parse_as_std_does() {
    assert_eq!(parse_seconds_ns("123.456789"), Some(123_456_789_000));
    assert_eq!(parse_seconds_ns("1.0000000019"), Some(1_000_000_001));
    assert_eq!(parse_seconds_ns("abc"), None);
    assert_eq!(parse_u32("+42"), Some(42));
    assert_eq!(parse_u32("4294967296"), None);
    assert_eq!(parse_i32("-2147483648"), Some(i32::MIN));
    assert_eq!(parse_hex_u32("ff"), Some(255));
    assert_eq!(parse_i32_or_error(""), Err("cannot parse integer from empty string".to_string()));
    assert_eq!(parse_i32_or_error("12a"), Err("invalid digit found in string".to_string()));
}

#[test]
fn text_helpers_follow_std() {
    assert_eq!(split_log_names("  a b \t, c"), vec!["a b".to_string(), "c".to_string()]);
    let r = estrace::patterns::test_regex_pattern("xa\r\nb\n\nxc".to_string(), "x(.)".to_string());
    let m = r.matches.unwrap();
    assert_eq!(m.len(), 2);
    assert_eq!(m[0].full_match, "xa");
    assert_eq!(m[1].captures, vec!["xc".to_string(), "c".to_string()]);
}

#[test]
fn compiled_pattern_reports_its_source() {
    let p = LinePattern::compile("a(?P<x>b)").unwrap();
    assert_eq!(p.source(), "a(?P<x>b)");
    assert_eq!(p.group_names(), &vec![None, Some("x".to_string())]);
    assert!(LinePattern::compile("(").is_err());
}

#[test]
fn missing_lines_keep_the_first_thousand_then_a_zero() {
    let reg = PatternRegistry::new().unwrap();
    let text = "garbage\n".repeat(1500);
    let r = parse_trace_text(&text, 200_000, reg.active_ufs_pattern(), reg.active_block_pattern(), reg.active_ufscustom_pattern());
    assert_eq!(r.missing_lines.len(), 1001);
    assert_eq!(r.missing_lines[0], 1);
    assert_eq!(r.missing_lines[999], 1000);
    assert_eq!(r.missing_lines[1000], 0);
    let small = "garbage\n".repeat(1000);
    let r2 = parse_trace_text(&small, 7, reg.active_ufs_pattern(), reg.active_block_pattern(), reg.active_ufscustom_pattern());
    assert_eq!(r2.missing_lines.len(), 1000);
    assert_eq!(r2.missing_lines[999], 1000);
}

#[test]
fn cache_entries_are_found_by_exact_key_first_then_by_a_composite_key() {
    let keys = vec!["/a_ufs.parquet, /a_block.parquet".to_string(), "/b_ufs.parquet".to_string()];
    assert_eq!(cache_entry_for(&keys, "/b_ufs.parquet"), Some(1));
    assert_eq!(cache_entry_for(&keys, "/a_block.parquet"), Some(0));
    assert_eq!(cache_entry_for(&keys, "/c.parquet"), None);
    let keys2 = vec!["/x.parquet,/y.parquet".to_string(), "/y.parquet".to_string()];
    assert_eq!(cache_entry_for(&keys2, "/y.parquet"), Some(1));
}

#[test]
fn trace_text_reads_ufs_lines_with_the_default_pattern() {
    let reg = PatternRegistry::new().unwrap();
    let text = "kworker/u16:3 [7] 123.456789: ufshcd_command: send_req: tag: 5 size: 32768 LBA: 1048576 opcode: 0x28 group_id: 0x01 hwq_id: 0\n";
    let r = parse_trace_text(text, 10, reg.active_ufs_pattern(), reg.active_block_pattern(), reg.active_ufscustom_pattern());
    assert_eq!(r.ufs.len(), 1);
    assert_eq!(r.ufs[0].tag, 5);
    assert_eq!(r.ufs[0].size, 8);
    assert_eq!(r.ufs[0].groupid, 1);
    assert!(r.missing_lines.is_empty());
}
