use estrace::stats::{
    create_range_key, initialize_ranges, parse_thresholds, latency_counts, group_values,
    size_stats, continuity_counts, normalize_io_type, dec_string, pad2_string, zoom_unit,
};
use estrace::threshold::parse_time_to_ns;
use estrace::types::{UFS, Block, UFSCUSTOM};
use estrace::{ufs, block, ufscustom};

fn strings(v: &[&str]) -> Vec<String> {
    v.iter().map(|s| s.to_string()).collect()
}

#[test]
fn threshold_units_are_exact() {
    assert_eq!(parse_time_to_ns("1ms"), Ok(1_000_000));
    assert_eq!(parse_time_to_ns("0.5ms"), Ok(500_000));
    assert_eq!(parse_time_to_ns("2s"), Ok(2_000_000_000));
    assert_eq!(parse_time_to_ns("250us"), Ok(250_000));
    assert_eq!(parse_time_to_ns("7ns"), Ok(7));
}

#[test]
fn threshold_errors() {
    assert_eq!(parse_time_to_ns(""), Err("cannot parse float from empty string".to_string()));
    assert_eq!(parse_time_to_ns("ms"), Err("cannot parse float from empty string".to_string()));
    assert_eq!(parse_time_to_ns("1.2.3ms"), Err("invalid float literal".to_string()));
    assert_eq!(parse_time_to_ns("5min"), Err("Unsupported time unit: min".to_string()));
    assert_eq!(parse_thresholds(&strings(&["1ms", "3xs", "5q"])), Err("Unsupported time unit: xs".to_string()));
    assert_eq!(parse_thresholds(&strings(&["1ms", "x"])), Err("cannot parse float from empty string".to_string()));
}

#[test]
fn range_keys_name_each_range() {
    let th = strings(&["1ms", "5ms"]);
    let tv = parse_thresholds(&th).unwrap();
    assert_eq!(create_range_key(500_000, &tv, &th), "01_≤ 1ms");
    assert_eq!(create_range_key(1_000_000, &tv, &th), "01_≤ 1ms");
    assert_eq!(create_range_key(3_000_000, &tv, &th), "02_1ms < v ≤ 5ms");
    assert_eq!(create_range_key(9_000_000, &tv, &th), "99_> 5ms");
    assert_eq!(create_range_key(-4, &tv, &th), "01_≤ 1ms");
    assert_eq!(create_range_key(5, &Vec::new(), &Vec::new()), "전체");
}

#[test]
fn unordered_thresholds_use_the_first_crossing_pair() {
    let th = strings(&["5ms", "1ms", "9ms"]);
    let tv = parse_thresholds(&th).unwrap();
    assert_eq!(create_range_key(7_000_000, &tv, &th), "03_1ms < v ≤ 9ms");
    assert_eq!(create_range_key(3_000_000, &tv, &th), "01_≤ 5ms");
}

#[test]
fn ranges_are_listed_in_order() {
    let r = initialize_ranges(&strings(&["1ms", "5ms", "10ms"]));
    let keys: Vec<&str> = r.iter().map(|(k, _)| k.as_str()).collect();
    assert_eq!(keys, vec!["01_≤ 1ms", "02_1ms < v ≤ 5ms", "03_5ms < v ≤ 10ms", "99_> 10ms"]);
    assert!(r.iter().all(|(_, c)| *c == 0));
    assert_eq!(initialize_ranges(&Vec::new()), vec![("전체".to_string(), 0)]);
}

#[test]
fn counts_of_a_group_add_up_to_its_values() {
    let th = strings(&["1ms", "5ms"]);
    let tv = parse_thresholds(&th).unwrap();
    let items = vec![
        ("0x28".to_string(), 100i128),
        ("0x2a".to_string(), 2_000_000),
        ("0x28".to_string(), 7_000_000),
        ("0x28".to_string(), 3_000_000),
    ];
    let keys = strings(&["0x28", "0x2a"]);
    let counts = latency_counts(&keys, &items, &tv, &th);
    assert_eq!(counts.len(), 2);
    assert_eq!(counts[0].0, "0x28");
    let c: Vec<usize> = counts[0].1.iter().map(|(_, n)| *n).collect();
    assert_eq!(c, vec![1, 1, 1]);
    assert_eq!(c.iter().sum::<usize>(), 3);
    let c2: Vec<usize> = counts[1].1.iter().map(|(_, n)| *n).collect();
    assert_eq!(c2, vec![0, 1, 0]);
    let groups = group_values(&keys, &items);
    assert_eq!(groups[0].1, vec![100, 7_000_000, 3_000_000]);
    assert_eq!(groups[1].1, vec![2_000_000]);
}

#[test]
fn size_distribution_per_group() {
    let items = vec![
        ("R".to_string(), 8u32),
        ("W".to_string(), 16),
        ("R".to_string(), 8),
        ("R".to_string(), 32),
    ];
    let s = size_stats(&strings(&["R", "W", "D"]), &items);
    assert_eq!(s.opcode_stats[0].1, vec![(8, 2), (32, 1)]);
    assert_eq!(s.opcode_stats[1].1, vec![(16, 1)]);
    assert!(s.opcode_stats[2].1.is_empty());
    assert_eq!(s.total_counts, vec![("R".to_string(), 3), ("W".to_string(), 1), ("D".to_string(), 0)]);
}

#[test]
fn continuity_counts_requests_and_bytes() {
    let items = vec![
        ("0x28".to_string(), 4096u64, false),
        ("0x28".to_string(), 8192, true),
        ("0x2a".to_string(), 4096, true),
    ];
    let c = continuity_counts(&items);
    assert_eq!(c.op_stats.len(), 2);
    assert_eq!(c.op_stats[0].0, "0x28");
    assert_eq!(c.op_stats[0].1.continuous, 1);
    assert_eq!(c.op_stats[0].1.non_continuous, 1);
    assert_eq!(c.op_stats[0].1.total_bytes, 12288);
    assert_eq!(c.op_stats[0].1.continuous_bytes, 8192);
    assert_eq!(c.total.total_requests, 3);
    assert_eq!(c.total.continuous_requests, 2);
    assert_eq!(c.total.total_bytes, 16384);
    assert_eq!(c.total.continuous_bytes, 12288);
}

#[test]
fn io_type_normalisation_and_number_texts() {
    assert_eq!(normalize_io_type("WS"), "W");
    assert_eq!(normalize_io_type(""), "\0");
    assert_eq!(dec_string(0), "0");
    assert_eq!(dec_string(1234), "1234");
    assert_eq!(pad2_string(2), "02");
    assert_eq!(pad2_string(42), "42");
    assert_eq!(pad2_string(100), "100");
    assert_eq!(zoom_unit("dtoc"), 1_000_000);
    assert_eq!(zoom_unit("lba"), 1);
}

fn ufs_at(time: u64, action: &str, opcode: &str, size: u32, dtoc: i128, continuous: bool) -> UFS {
    UFS {
        time, process: "p".to_string(), cpu: 2, action: action.to_string(), tag: 0,
        opcode: opcode.to_string(), lba: 10, size, groupid: 0, hwqid: 0, qd: 3,
        dtoc, ctoc: dtoc / 2, ctod: 7, continuous,
    }
}

#[test]
fn ufs_statistics_by_column() {
    let list = vec![
        ufs_at(10, "send_req", "0x28", 2, 0, true),
        ufs_at(20, "complete_rsp", "0x28", 2, 2_000_000, false),
        ufs_at(30, "send_req", "0x35", 1, 0, false),
    ];
    let th = strings(&["1ms"]);
    let st = ufs::latencystats(&list, "dtoc", &th).unwrap();
    assert_eq!(st.latency_counts.len(), 1);
    assert_eq!(st.latency_counts[0].1, vec![("01_≤ 1ms".to_string(), 0), ("99_> 1ms".to_string(), 1)]);
    let ctod = ufs::latencystats(&list, "ctod", &th).unwrap();
    assert_eq!(ctod.groups, vec![("0x28".to_string(), vec![7]), ("0x35".to_string(), vec![7])]);
    assert_eq!(ufs::latencystats(&list, "qd", &th).err(), Some("Invalid column: qd".to_string()));
    assert_eq!(ufs::latencystats(&list, "qd", &strings(&["1xs"])).err(), Some("Unsupported time unit: xs".to_string()));
    let sizes = ufs::sizestats(&list, "ctod");
    assert_eq!(sizes.total_counts, vec![("0x28".to_string(), 1), ("0x35".to_string(), 1)]);
    assert!(ufs::sizestats(&list, "nope").opcode_stats.is_empty());
    let cont = ufs::continuity_stats(&list);
    assert_eq!(cont.total.total_requests, 1);
    assert_eq!(cont.total.continuous_requests, 1);
    assert_eq!(cont.total.total_bytes, 8192);
    let all = ufs::allstats(&list, &th).unwrap();
    assert_eq!(all.dtoc_stat.latency_counts.len(), 2);
    assert_eq!(all.size_counts.opcode_stats[0].1, vec![(8, 2)]);
    assert_eq!(all.size_counts.opcode_stats[1].1, vec![(4, 1)]);
}

#[test]
fn ufs_filter_by_time_and_column() {
    let list = vec![
        ufs_at(10, "send_req", "0x28", 2, 0, false),
        ufs_at(20, "complete_rsp", "0x28", 2, 2_000_000, false),
        ufs_at(30, "complete_rsp", "0x28", 2, 9_000_000, false),
    ];
    assert_eq!(ufs::filter_ufs_data(&list, Some(15), Some(30), "lba", None, None).len(), 2);
    assert_eq!(ufs::filter_ufs_data(&list, Some(0), Some(0), "lba", None, None).len(), 3);
    let f = ufs::filter_ufs_data(&list, None, None, "dtoc", Some(1_000_000), Some(5_000_000));
    assert_eq!(f.len(), 1);
    assert_eq!(f[0].time, 20);
    assert!(ufs::filter_ufs_data(&list, None, None, "bogus", Some(1), Some(2)).is_empty());
}

fn block_at(time: u64, action: &str, io: &str, sector: u64, size: u32, continuous: bool) -> Block {
    Block {
        time, process: "p".to_string(), cpu: 0, flags: "f".to_string(), action: action.to_string(),
        devmajor: 8, devminor: 0, io_type: io.to_string(), extra: 0, sector, size, comm: "c".to_string(),
        qd: 1, dtoc: 4_000_000, ctoc: 0, ctod: 500_000, continuous,
    }
}

#[test]
fn block_statistics_group_by_first_letter() {
    let list = vec![
        block_at(1, "block_rq_issue", "RA", 2, 8, true),
        block_at(2, "block_rq_issue", "RM", 3, 8, false),
        block_at(3, "block_rq_complete", "WS", 3, 16, false),
        block_at(4, "block_rq_issue", "FF", 3, 8, true),
    ];
    let th = strings(&["1ms"]);
    let grouped = block::latencystats(&list, "ctod", true, &th).unwrap();
    assert_eq!(grouped.groups, vec![("R".to_string(), vec![500_000, 500_000]), ("F".to_string(), vec![500_000])]);
    let raw = block::latencystats(&list, "sector", false, &th).unwrap();
    assert_eq!(raw.groups[0], ("RA".to_string(), vec![2_000_000]));
    assert_eq!(block::latencystats(&list, "size", false, &th).err(), Some("유효하지 않은 컬럼: size".to_string()));
    let cont = block::continuity_stats(&list);
    assert_eq!(cont.op_stats.len(), 1);
    assert_eq!(cont.op_stats[0].0, "R");
    assert_eq!(cont.op_stats[0].1.continuous, 1);
    assert_eq!(cont.total.total_bytes, 8192);
    let sizes = block::sizestats(&list, "dtoc", false);
    assert_eq!(sizes.opcode_stats, vec![("WS".to_string(), vec![(16, 1)])]);
    let all = block::allstats(&list, true, &th).unwrap();
    assert_eq!(all.dtoc_stat.latency_counts.len(), 3);
    assert_eq!(all.size_counts.total_counts, vec![("R".to_string(), 0), ("W".to_string(), 1), ("F".to_string(), 0)]);
    assert_eq!(block::filter_block_data(&list, None, None, "sector", Some(3), Some(3)).len(), 3);
}

#[test]
fn custom_statistics_count_every_request() {
    let mk = |op: &str, size: u32, dtoc: i128, cont: bool| UFSCUSTOM {
        opcode: op.to_string(), lba: 0, size, start_time: 0, end_time: 0, dtoc,
        start_qd: 1, end_qd: 0, ctoc: 0, ctod: 0, continuous: cont,
    };
    let list = vec![mk("0x28", 8, 500_000, false), mk("0x28", 8, 3_000_000, true), mk("0x2a", 16, 0, false)];
    let th = strings(&["1ms", "2ms"]);
    let st = ufscustom::latencystats(&list, "dtoc", &th).unwrap();
    assert_eq!(st.latency_counts[0].1, vec![
        ("01_≤ 1ms".to_string(), 1),
        ("02_1ms < v ≤ 2ms".to_string(), 0),
        ("99_> 2ms".to_string(), 1),
    ]);
    assert_eq!(ufscustom::latencystats(&list, "lba", &th).err(), Some("Invalid column: lba".to_string()));
    let sizes = ufscustom::sizestats(&list);
    assert_eq!(sizes.opcode_stats[0].1, vec![(8, 2)]);
    let cont = ufscustom::continuity_stats(&list);
    assert_eq!(cont.total.total_bytes, 32 * 512);
    assert_eq!(cont.total.continuous_bytes, 8 * 512);
    let all = ufscustom::allstats(&list, &th).unwrap();
    assert_eq!(all.ctod_stat.groups.len(), 2);
}

#[test]
fn continuity_byte_totals_count_the_reported_requests() {
    let ufs_list = vec![
        ufs_at(10, "send_req", "0x28", 2, 0, true),
        ufs_at(20, "complete_rsp", "0x28", 2, 0, false),
        ufs_at(30, "send_req", "0x35", 5, 0, false),
        ufs_at(40, "send_req", "0x2a", 1, 0, false),
    ];
    assert_eq!(ufs::continuity_bytes(&ufs_list), 3 * 4096);
    let block_list = vec![
        block_at(1, "block_rq_issue", "RA", 2, 8, true),
        block_at(2, "block_rq_complete", "RA", 2, 8, false),
        block_at(3, "block_rq_issue", "FF", 3, 8, true),
    ];
    assert_eq!(block::continuity_bytes(&block_list), 8 * 512);
    let big = UFSCUSTOM {
        opcode: "0x2a".to_string(), lba: 0, size: u32::MAX, start_time: 0, end_time: 0, dtoc: 0,
        start_qd: 0, end_qd: 0, ctoc: 0, ctod: 0, continuous: false,
    };
    assert_eq!(ufscustom::continuity_bytes(&vec![big.clone(), big]), 2 * (u32::MAX as u128) * 512);
    assert_eq!(ufscustom::continuity_bytes(&Vec::new()), 0);
}
