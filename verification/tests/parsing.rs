use cachesim::cache::{Cache, MainMemory};
use cachesim::cachemeta::{kind_code, policy_code, CacheMeta};
use cachesim::direct::DirectCache;
use cachesim::results::collect_results;
use cachesim::trace::{
    line_count, parse_decimal_u64, parse_hex_u64, run_trace, run_trace_checked, trace_entry_at, LINE_WIDTH,
};

fn trace_line(address: &str, size: &str) -> Vec<u8> {
    let mut line = Vec::new();
    line.extend_from_slice(b"T 0000001 R 0x   ");
    line.extend_from_slice(address.as_bytes());
    line.extend_from_slice(b"   ");
    line.extend_from_slice(size.as_bytes());
    line.push(b'\n');
    assert_eq!(line.len(), LINE_WIDTH);
    line
}

#[test]
fn hex_digits_of_both_cases() {
    let line = trace_line("0123456789abcdef", "008");
    assert_eq!(parse_hex_u64(&line, 17), 0x0123456789abcdef);
    let line = trace_line("FEDCBA9876543210", "008");
    assert_eq!(parse_hex_u64(&line, 17), 0xfedcba9876543210);
    let line = trace_line("ffffffffffffffff", "008");
    assert_eq!(parse_hex_u64(&line, 17), u64::MAX);
}

#[test]
fn decimal_sizes() {
    let line = trace_line("0000000000000000", "123");
    assert_eq!(parse_decimal_u64(&line, 36), 123);
    let line = trace_line("0000000000000000", "000");
    assert_eq!(parse_decimal_u64(&line, 36), 0);
    let line = trace_line("0000000000000000", "999");
    assert_eq!(parse_decimal_u64(&line, 36), 999);
}

#[test]
fn entries_by_line() {
    let mut bytes = trace_line("00000000000000ff", "004");
    bytes.extend(trace_line("0000000000001000", "016"));
    let first = trace_entry_at(&bytes, 0);
    let second = trace_entry_at(&bytes, 1);
    assert_eq!((first.address, first.size), (0xff, 4));
    assert_eq!((second.address, second.size), (0x1000, 16));
}

#[test]
fn line_count_ignores_a_partial_line() {
    assert_eq!(line_count(0), 0);
    assert_eq!(line_count(39), 0);
    assert_eq!(line_count(40), 1);
    assert_eq!(line_count(119), 2);
}

#[test]
fn trace_run_through_a_cache() {
    let mut bytes = trace_line("0000000000000000", "004");
    bytes.extend(trace_line("0000000000000004", "004"));
    bytes.extend(trace_line("000000000000003e", "004")); // spans lines 0 and 1
    bytes.extend(b"partial");
    let meta = CacheMeta { name: String::from("L1"), size: 256, line_size: 64, kind: 0, rp: 0 };
    let mut c = DirectCache::new(&meta, MainMemory::new());
    run_trace(&mut c, &bytes);
    assert_eq!(c.get_hits(Vec::new()), vec![2]);
    assert_eq!(c.get_misses(Vec::new()), vec![2]);
    assert_eq!(c.get_main_memory_accesses(), 2);
}

#[test]
fn trace_without_caches_reaches_memory_once_per_line() {
    let mut bytes = trace_line("0000000000000000", "004");
    bytes.extend(trace_line("0000000000000000", "004"));
    let mut m = MainMemory::new();
    run_trace(&mut m, &bytes);
    assert_eq!(m.get_main_memory_accesses(), line_count(bytes.len()));
}

#[test]
fn kind_names() {
    assert_eq!(kind_code("direct"), Some(0));
    assert_eq!(kind_code("2way"), Some(1));
    assert_eq!(kind_code("4way"), Some(2));
    assert_eq!(kind_code("8way"), Some(3));
    assert_eq!(kind_code("full"), Some(4));
    assert_eq!(kind_code("16way"), None);
}

#[test]
fn policy_names() {
    assert_eq!(policy_code("rr"), 0);
    assert_eq!(policy_code("lru"), 1);
    assert_eq!(policy_code("lfu"), 2);
    assert_eq!(policy_code("fifo"), 0);
}

#[test]
fn config_of_a_level() {
    let m = CacheMeta::from_config(String::from("L2"), 4096, 64, "4way", Some("lfu")).unwrap();
    assert_eq!((m.name.as_str(), m.size, m.line_size, m.kind, m.rp), ("L2", 4096, 64, 2, 2));
    let m = CacheMeta::from_config(String::from("L3"), 8192, 64, "full", None).unwrap();
    assert_eq!((m.kind, m.rp), (4, 0));
    assert!(CacheMeta::from_config(String::from("X"), 1, 1, "weird", None).is_none());
}

#[test]
fn results_pair_names_with_counts() {
    let names = vec![String::from("L1"), String::from("L2")];
    let r = collect_results(&names, &vec![5, 6], &vec![7, 8]);
    assert_eq!(r.len(), 2);
    assert_eq!((r[0].name.as_str(), r[0].hits, r[0].misses), ("L1", 5, 7));
    assert_eq!((r[1].name.as_str(), r[1].hits, r[1].misses), ("L2", 6, 8));
}

#[test]
fn checked_trace_run_matches_the_plain_run() {
    let mut bytes = trace_line("0000000000000000", "004");
    bytes.extend(trace_line("0000000000000004", "004"));
    bytes.extend(trace_line("000000000000003e", "004"));
    let meta = CacheMeta { name: String::from("L1"), size: 256, line_size: 64, kind: 0, rp: 0 };
    let mut c = DirectCache::new(&meta, MainMemory::new());
    assert!(run_trace_checked(&mut c, &bytes));
    assert_eq!(c.get_hits(Vec::new()), vec![2]);
    assert_eq!(c.get_misses(Vec::new()), vec![2]);
    assert_eq!(c.get_main_memory_accesses(), 2);
}

#[test]
fn checked_trace_run_refuses_an_empty_access_at_address_zero() {
    // the last byte of an empty access at address 0 would lie below the address space
    let mut bytes = trace_line("0000000000000040", "004");
    bytes.extend(trace_line("0000000000000000", "000"));
    let meta = CacheMeta { name: String::from("L1"), size: 256, line_size: 64, kind: 0, rp: 0 };
    let mut c = DirectCache::new(&meta, MainMemory::new());
    assert!(!run_trace_checked(&mut c, &bytes));
}

#[test]
fn checked_trace_run_refuses_an_access_past_the_address_space() {
    let bytes = trace_line("fffffffffffffffe", "004");
    let meta = CacheMeta { name: String::from("L1"), size: 256, line_size: 64, kind: 0, rp: 0 };
    let mut c = DirectCache::new(&meta, MainMemory::new());
    assert!(!run_trace_checked(&mut c, &bytes));
}
