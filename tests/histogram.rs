use std::collections::HashMap;

use storage_histogram::encoding::push_decimal;
use storage_histogram::{
    build_histogram, latest_block, process_notification, render_report, report_path, AccountDiff,
    Address, Chain, ExExError, Histogram, Notification, Report,
};

fn addr(b: u8) -> Address {
    Address { bytes: [b; 20] }
}

fn diff(b: u8, changed_slots: usize) -> AccountDiff {
    AccountDiff { account: addr(b), changed_slots }
}

fn chain(blocks: Vec<u64>, diffs: Vec<AccountDiff>) -> Chain {
    Chain { blocks, diffs }
}

fn text(bytes: &[u8]) -> String {
    String::from_utf8(bytes.to_vec()).unwrap()
}

fn committed_report(n: &Notification) -> Report {
    process_notification(n).unwrap().unwrap()
}

/// Reads a report with the csv crate: its header and its rows, with the
/// accounts decoded from hexadecimal.
fn read_report(bytes: &[u8]) -> (Vec<String>, Vec<(Vec<u8>, usize)>) {
    let mut rdr = csv::Reader::from_reader(bytes);
    let header: Vec<String> = rdr.headers().unwrap().iter().map(|s| s.to_string()).collect();
    let mut rows = Vec::new();
    for rec in rdr.records() {
        let rec = rec.unwrap();
        assert_eq!(rec.len(), 2);
        rows.push((hex::decode(&rec[0]).unwrap(), rec[1].parse::<usize>().unwrap()));
    }
    (header, rows)
}

#[test]
fn reverted_and_other_notifications_produce_nothing() {
    let c = chain(vec![1, 2], vec![diff(1, 4)]);
    assert!(matches!(process_notification(&Notification::Reverted(c)), Ok(None)));
    assert!(matches!(process_notification(&Notification::Other), Ok(None)));
    let empty = chain(vec![], vec![]);
    assert!(matches!(process_notification(&Notification::Reverted(empty)), Ok(None)));
}

#[test]
fn committed_chain_report_is_named_after_latest_block() {
    let n = Notification::Committed(chain(vec![3, 9, 7], vec![diff(1, 1)]));
    let r = committed_report(&n);
    assert_eq!(r.block, 9);
    assert_eq!(text(&r.path), "assets/block_9_storage_changes.csv");
}

#[test]
fn committed_chain_without_blocks_is_missing_block() {
    let n = Notification::Committed(chain(vec![], vec![diff(1, 1)]));
    assert!(matches!(process_notification(&n), Err(ExExError::MissingBlock)));
}

#[test]
fn second_report_for_same_block_overwrites_first() {
    let first = Notification::Committed(chain(vec![4, 8], vec![diff(1, 1), diff(2, 2)]));
    let second = Notification::Committed(chain(vec![8], vec![diff(3, 5)]));
    let mut dir: HashMap<Vec<u8>, Vec<u8>> = HashMap::new();
    for n in [&first, &second] {
        let r = committed_report(n);
        dir.insert(r.path, r.contents);
    }
    assert_eq!(dir.len(), 1);
    let contents = &dir[&b"assets/block_8_storage_changes.csv".to_vec()];
    let (_, rows) = read_report(contents);
    assert_eq!(rows, vec![(vec![3u8; 20], 5)]);
}

#[test]
fn first_write_wins_for_repeated_account() {
    let h = build_histogram(&vec![diff(0xa, 3), diff(0xb, 1), diff(0xa, 7)]);
    assert_eq!(h.len(), 2);
    assert_eq!(h.get(&addr(0xa)), Some(3));
    assert_eq!(h.get(&addr(0xb)), Some(1));
    assert_eq!(h.get(&addr(0xc)), None);
}

#[test]
fn zero_change_account_is_recorded() {
    let h = build_histogram(&vec![diff(5, 0)]);
    assert_eq!(h.get(&addr(5)), Some(0));
}

#[test]
fn histogram_rows_keep_first_appearance_order() {
    let h = build_histogram(&vec![diff(2, 20), diff(1, 10), diff(2, 99), diff(3, 30)]);
    assert_eq!(h.len(), 3);
    let (a, c) = h.row(0);
    assert_eq!((a.bytes, c), ([2u8; 20], 20));
    let (a, c) = h.row(1);
    assert_eq!((a.bytes, c), ([1u8; 20], 10));
    let (a, c) = h.row(2);
    assert_eq!((a.bytes, c), ([3u8; 20], 30));
}

#[test]
fn empty_histogram_has_no_rows() {
    let h = Histogram::new();
    assert_eq!(h.len(), 0);
    assert_eq!(text(&render_report(&h)), "account,changes\n");
}

#[test]
fn report_reads_back_to_histogram() {
    let diffs = vec![diff(0x12, 7), diff(0xfe, 0), diff(0x00, 123456789)];
    let h = build_histogram(&diffs);
    let bytes = render_report(&h);
    let (header, rows) = read_report(&bytes);
    assert_eq!(header, vec!["account".to_string(), "changes".to_string()]);
    let mut got: HashMap<Vec<u8>, usize> = HashMap::new();
    for (a, c) in rows {
        assert!(got.insert(a, c).is_none());
    }
    let mut want: HashMap<Vec<u8>, usize> = HashMap::new();
    want.insert(vec![0x12; 20], 7);
    want.insert(vec![0xfe; 20], 0);
    want.insert(vec![0x00; 20], 123456789);
    assert_eq!(got, want);
}

#[test]
fn empty_report_reads_back_to_empty_histogram() {
    let bytes = render_report(&Histogram::new());
    let (header, rows) = read_report(&bytes);
    assert_eq!(header, vec!["account".to_string(), "changes".to_string()]);
    assert!(rows.is_empty());
}

#[test]
fn report_rows_are_lowercase_hex_and_decimal() {
    let mut bytes = [0u8; 20];
    bytes[0] = 0xab;
    bytes[19] = 0x0f;
    let h = build_histogram(&vec![AccountDiff { account: Address { bytes }, changed_slots: 42 }]);
    let out = text(&render_report(&h));
    let hex = format!("ab{}0f", "00".repeat(18));
    assert_eq!(out, format!("account,changes\n{},42\n", hex));
}

#[test]
fn block_100_example() {
    let n = Notification::Committed(chain(vec![99, 100], vec![diff(0xaa, 2), diff(0xbb, 0)]));
    let r = committed_report(&n);
    assert_eq!(text(&r.path), "assets/block_100_storage_changes.csv");
    let out = text(&r.contents);
    let mut lines: Vec<&str> = out.lines().collect();
    assert_eq!(lines.remove(0), "account,changes");
    lines.sort();
    let a = format!("{},2", "aa".repeat(20));
    let b = format!("{},0", "bb".repeat(20));
    assert_eq!(lines, vec![a.as_str(), b.as_str()]);
}

#[test]
fn event_stream_example() {
    let stream = vec![
        Notification::Reverted(chain(vec![5], vec![diff(9, 9)])),
        Notification::Committed(chain(vec![5], vec![diff(0x11, 1)])),
        Notification::Committed(chain(vec![6], vec![])),
    ];
    let mut reports = Vec::new();
    for n in &stream {
        if let Some(r) = process_notification(n).unwrap() {
            reports.push(r);
        }
    }
    assert_eq!(reports.len(), 2);
    assert_eq!(text(&reports[0].path), "assets/block_5_storage_changes.csv");
    let (_, rows) = read_report(&reports[0].contents);
    assert_eq!(rows, vec![(vec![0x11u8; 20], 1)]);
    assert_eq!(text(&reports[1].path), "assets/block_6_storage_changes.csv");
    assert_eq!(text(&reports[1].contents), "account,changes\n");
}

#[test]
fn latest_block_is_largest_number() {
    assert_eq!(latest_block(&vec![]), None);
    assert_eq!(latest_block(&vec![7]), Some(7));
    assert_eq!(latest_block(&vec![2, 11, 5]), Some(11));
}

#[test]
fn report_path_covers_extreme_blocks() {
    assert_eq!(text(&report_path(0)), "assets/block_0_storage_changes.csv");
    assert_eq!(
        text(&report_path(u64::MAX)),
        "assets/block_18446744073709551615_storage_changes.csv"
    );
}

#[test]
fn decimal_rendering_appends() {
    let mut out = b"x".to_vec();
    push_decimal(1050, &mut out);
    assert_eq!(text(&out), "x1050");
}

#[test]
fn addresses_compare_by_bytes() {
    assert!(addr(3).same_as(&addr(3)));
    let mut b = [3u8; 20];
    b[19] = 4;
    assert!(!addr(3).same_as(&Address { bytes: b }));
}
