use estrace::types::{UFS, Block, UFSCUSTOM};
use estrace::ufs::{ufs_bottom_half_latency_process, sort_ufs_by_time};
use estrace::block::{block_bottom_half_latency_process, get_io_operation};
use estrace::ufscustom::ufscustom_bottom_half_latency_process;

fn ufs_event(time: u64, action: &str, tag: u32, lba: u64, size: u32, opcode: &str) -> UFS {
    UFS {
        time,
        process: "kworker".to_string(),
        cpu: 0,
        action: action.to_string(),
        tag,
        opcode: opcode.to_string(),
        lba,
        size,
        groupid: 0,
        hwqid: 0,
        qd: 0,
        dtoc: 0,
        ctoc: 0,
        ctod: 0,
        continuous: false,
    }
}

fn block_event(time: u64, action: &str, io: &str, sector: u64, size: u32) -> Block {
    Block {
        time,
        process: "p".to_string(),
        cpu: 1,
        flags: "d..1.".to_string(),
        action: action.to_string(),
        devmajor: 8,
        devminor: 0,
        io_type: io.to_string(),
        extra: 0,
        sector,
        size,
        comm: "c".to_string(),
        qd: 0,
        dtoc: 0,
        ctoc: 0,
        ctod: 0,
        continuous: false,
    }
}

fn custom_request(lba: u64, size: u32, start: u64, end: u64) -> UFSCUSTOM {
    UFSCUSTOM {
        opcode: "0x28".to_string(),
        lba,
        size,
        start_time: start,
        end_time: end,
        dtoc: end as i128 - start as i128,
        start_qd: 0,
        end_qd: 0,
        ctoc: 0,
        ctod: 0,
        continuous: false,
    }
}

#[test]
fn ufs_send_and_complete_give_latencies_and_depth() {
    let list = vec![
        ufs_event(1000, "send_req", 1, 100, 8, "0x28"),
        ufs_event(3000, "complete_rsp", 1, 100, 8, "0x28"),
        ufs_event(5000, "send_req", 2, 108, 8, "0x28"),
    ];
    let r = ufs_bottom_half_latency_process(list);
    assert_eq!(r.len(), 3);
    assert_eq!(r[0].qd, 1);
    assert!(!r[0].continuous);
    assert_eq!(r[1].qd, 0);
    assert_eq!(r[1].dtoc, 2000);
    assert_eq!(r[1].ctoc, 2000);
    assert_eq!(r[2].qd, 1);
    assert!(r[2].continuous);
    assert_eq!(r[2].ctod, 2000);
    assert_eq!(r[2].lba, 108);
}

#[test]
fn ufs_processing_orders_out_of_order_events() {
    let list = vec![
        ufs_event(3000, "complete_rsp", 1, 100, 8, "0x28"),
        ufs_event(1000, "send_req", 1, 100, 8, "0x28"),
    ];
    let r = ufs_bottom_half_latency_process(list);
    assert_eq!(r[0].action, "send_req");
    assert_eq!(r[1].dtoc, 2000);
}

#[test]
fn ufs_sort_is_stable_for_equal_times() {
    let list = vec![
        ufs_event(20, "send_req", 1, 1, 8, "0x28"),
        ufs_event(10, "send_req", 2, 2, 8, "0x28"),
        ufs_event(10, "send_req", 3, 3, 8, "0x28"),
    ];
    let sorted = sort_ufs_by_time(&list);
    let tags: Vec<u32> = sorted.iter().map(|u| u.tag).collect();
    assert_eq!(tags, vec![2, 3, 1]);
}

#[test]
fn block_processing_drops_repeated_issues_and_fills_latencies() {
    let list = vec![
        block_event(1000, "block_rq_issue", "R", 2048, 8),
        block_event(1500, "block_rq_issue", "R", 2048, 8),
        block_event(3000, "block_rq_complete", "R", 2048, 8),
        block_event(4000, "block_rq_issue", "R", 2056, 8),
    ];
    let r = block_bottom_half_latency_process(list);
    assert_eq!(r.len(), 3);
    assert_eq!(r[0].qd, 1);
    assert_eq!(r[1].action, "block_rq_complete");
    assert_eq!(r[1].dtoc, 2000);
    assert_eq!(r[1].qd, 0);
    assert!(r[2].continuous);
    assert_eq!(r[2].ctod, 1000);
    for w in r.windows(2) {
        assert!(w[0].time <= w[1].time);
    }
}

#[test]
fn block_write_completion_of_size_zero_is_dropped() {
    let list = vec![
        block_event(1000, "block_rq_issue", "WS", 10, 8),
        block_event(2000, "block_rq_complete", "WS", 10, 0),
    ];
    let r = block_bottom_half_latency_process(list);
    assert_eq!(r.len(), 1);
}

#[test]
fn io_operation_names() {
    assert_eq!(get_io_operation("RA"), "read");
    assert_eq!(get_io_operation("WS"), "write");
    assert_eq!(get_io_operation("D"), "discard");
    assert_eq!(get_io_operation("FF"), "other");
    assert_eq!(get_io_operation(""), "other");
}

#[test]
fn custom_requests_get_depths_latencies_and_continuity() {
    let list = vec![
        custom_request(100, 8, 1000, 3000),
        custom_request(108, 8, 4000, 6000),
        custom_request(500, 8, 5000, 7000),
    ];
    let r = ufscustom_bottom_half_latency_process(list);
    assert_eq!(r.len(), 3);
    assert_eq!(r[0].start_qd, 1);
    assert_eq!(r[0].end_qd, 0);
    assert!(!r[0].continuous);
    assert_eq!(r[0].ctoc, 0);
    assert!(r[1].continuous);
    assert_eq!(r[1].start_qd, 1);
    assert_eq!(r[1].ctoc, 3000);
    assert_eq!(r[1].ctod, 1000);
    assert!(!r[2].continuous);
    assert_eq!(r[2].start_qd, 2);
    assert_eq!(r[2].end_qd, 0);
    for u in &r {
        assert!(u.ctoc >= 0 && u.ctod >= 0);
    }
}

#[test]
fn custom_requests_out_of_order_are_sorted_by_start() {
    let list = vec![
        custom_request(108, 8, 4000, 6000),
        custom_request(100, 8, 1000, 3000),
    ];
    let r = ufscustom_bottom_half_latency_process(list);
    assert_eq!(r[0].lba, 100);
    assert!(r[1].continuous);
}

#[test]
fn ufs_events_out_of_order_after_the_first_thousand_are_sorted() {
    let mut list: Vec<UFS> = (0..1000u64).map(|i| ufs_event(10 + i, "send_req", i as u32, i * 8, 8, "0x28")).collect();
    list.push(ufs_event(5, "send_req", 5000, 99_000, 8, "0x28"));
    let r = ufs_bottom_half_latency_process(list);
    assert_eq!(r.len(), 1001);
    assert_eq!(r[0].time, 5);
    assert!(r.windows(2).all(|w| w[0].time <= w[1].time));
}

#[test]
fn custom_requests_out_of_order_after_the_first_thousand_are_sorted() {
    let mut list: Vec<UFSCUSTOM> = (0..1000u64).map(|i| custom_request(i * 8, 8, 100 + i, 200 + i)).collect();
    list.push(custom_request(99_000, 8, 1, 2));
    let r = ufscustom_bottom_half_latency_process(list);
    assert_eq!(r.len(), 1001);
    assert_eq!(r[0].start_time, 1);
    assert!(r.windows(2).all(|w| w[0].start_time <= w[1].start_time));
}
