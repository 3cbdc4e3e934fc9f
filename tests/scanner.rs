use wss::scanner::{parse_map_line, MemoryRegion, Scanner};

fn region(start: u64, end: u64) -> Option<MemoryRegion> {
    Some(MemoryRegion { start, end })
}

#[test]
fn parses_a_listing_line() {
    let line = "00400000-0040b000 r-xp 00000000 08:01 123456 /bin/cat";
    assert_eq!(parse_map_line(line), region(0x400000, 0x40b000));
}

#[test]
fn parses_upper_case_and_leading_space() {
    assert_eq!(parse_map_line("  7FFF0000-7fff1000"), region(0x7fff0000, 0x7fff1000));
    assert_eq!(parse_map_line("\t0-0 ---p"), region(0, 0));
    assert_eq!(
        parse_map_line("ffffffffff600000-ffffffffff601000 --xp 00000000 00:00 0 [vsyscall]"),
        region(0xffffffffff600000, 0xffffffffff601000)
    );
}

#[test]
fn rejects_malformed_lines() {
    assert_eq!(parse_map_line(""), None);
    assert_eq!(parse_map_line("   "), None);
    assert_eq!(parse_map_line("00400000"), None);
    assert_eq!(parse_map_line("00400000-"), None);
    assert_eq!(parse_map_line("-0040b000"), None);
    assert_eq!(parse_map_line("1-2-3"), None);
    assert_eq!(parse_map_line("0x10-0x20"), None);
    assert_eq!(parse_map_line("g0-20"), None);
    assert_eq!(parse_map_line("header line"), None);
}

#[test]
fn rejects_addresses_that_overflow() {
    assert_eq!(parse_map_line("10000000000000000-10000000000000001"), None);
    assert_eq!(parse_map_line("ffffffffffffffff-ffffffffffffffff"), region(u64::MAX, u64::MAX));
    assert_eq!(parse_map_line("00000000000000000001-2"), region(1, 2));
}

#[test]
fn rejects_reversed_range() {
    assert_eq!(parse_map_line("2000-1000 rw-p"), None);
}

#[test]
fn listing_keeps_order_and_skips_bad_lines() {
    let scanner = Scanner::new(42);
    assert_eq!(scanner.pid, 42);
    let lines: Vec<String> = vec![
        "00400000-0040b000 r-xp 00000000 08:01 1 /bin/cat".to_string(),
        "garbage".to_string(),
        "7ffd0000-7ffd2000 rw-p 00000000 00:00 0 [stack]".to_string(),
    ];
    assert_eq!(
        scanner.parse_maps(&lines),
        vec![
            MemoryRegion { start: 0x400000, end: 0x40b000 },
            MemoryRegion { start: 0x7ffd0000, end: 0x7ffd2000 },
        ]
    );
    assert!(scanner.parse_maps(&Vec::new()).is_empty());
}
