use memmap2::MmapMut;
use wss::estimate::{
    scan_regions, scan_table, check_interval, estimate_micros, referenced_bytes, should_scan, ScanTotals, UsageError,
    BYTES_PER_MB, KERNEL_SPACE_START, MIN_INTERVAL_MICROS,
};
use wss::idlemap::IdleMap;
use wss::pagemap::{Pagemap, PAGE_SIZE, PRESENT_MASK};
use wss::scanner::MemoryRegion;

#[test]
fn interval_of_five_milliseconds_is_rejected() {
    assert_eq!(check_interval(5_000), Err(UsageError::IntervalTooShort));
    assert_eq!(check_interval(9_999), Err(UsageError::IntervalTooShort));
    assert_eq!(check_interval(0), Err(UsageError::IntervalTooShort));
}

#[test]
fn interval_of_ten_milliseconds_is_accepted() {
    assert_eq!(check_interval(MIN_INTERVAL_MICROS), Ok(10_000));
    assert_eq!(check_interval(2_000_000), Ok(2_000_000));
}

#[test]
fn estimate_subtracts_half_of_each_overhead() {
    assert_eq!(estimate_micros(1_000_000, 200, 3_000), 1_000_000 - 100 - 1_500);
    assert_eq!(estimate_micros(10, 3, 5), 10 - 1 - 2);
}

#[test]
fn estimate_equals_elapsed_without_overhead() {
    assert_eq!(estimate_micros(123_456, 0, 0), 123_456);
    assert_eq!(estimate_micros(u64::MAX, 0, 0), u64::MAX as i128);
}

#[test]
fn estimate_never_exceeds_elapsed() {
    for &(t, s, r) in &[(100u64, 40u64, 60u64), (5, 9, 9), (0, 1, 1), (7, 7, 7)] {
        assert!(estimate_micros(t, s, r) <= t as i128);
    }
    assert_eq!(estimate_micros(5, 9, 9), -3);
}

#[test]
fn referenced_bytes_of_pages() {
    assert_eq!(referenced_bytes(0), 0);
    assert_eq!(referenced_bytes(256), 1_048_576);
    assert_eq!(referenced_bytes(256) / BYTES_PER_MB as u128, 1);
    assert_eq!(referenced_bytes(u64::MAX), u64::MAX as u128 * 4096);
}

#[test]
fn kernel_regions_are_not_scanned() {
    let user = MemoryRegion { start: 0x400000, end: 0x40b000 };
    let kernel = MemoryRegion { start: KERNEL_SPACE_START, end: u64::MAX };
    let above = MemoryRegion { start: 0xffff_ffff_ff60_0000, end: 0xffff_ffff_ff60_1000 };
    assert!(should_scan(&user, KERNEL_SPACE_START));
    assert!(!should_scan(&kernel, KERNEL_SPACE_START));
    assert!(!should_scan(&above, KERNEL_SPACE_START));
}

#[test]
fn totals_accumulate_and_saturate() {
    let mut totals = ScanTotals::new();
    totals.add_region((1, 2));
    totals.add_region((3, 5));
    assert_eq!(totals, ScanTotals { active: 4, walked: 7 });
    let mut full = ScanTotals { active: u64::MAX - 1, walked: u64::MAX - 1 };
    full.add_region((5, 5));
    assert_eq!(full, ScanTotals { active: u64::MAX, walked: u64::MAX });
}

#[test]
fn scan_adds_regions_and_reports_failures() {
    let entries = [PRESENT_MASK | 10, 0, PRESENT_MASK | 20, PRESENT_MASK | 21];
    let bytes: Vec<u8> = entries.iter().flat_map(|e| e.to_le_bytes()).collect();
    let mut map = MmapMut::map_anon(bytes.len()).unwrap();
    map.copy_from_slice(&bytes);
    let pagemap = Pagemap::from_mmap(map.make_read_only().unwrap(), 3);
    // Frame 10 idle; frames 20 and 21 active.
    let idle = IdleMap::from_bytes(vec![0x00, 0x04, 0x00]);
    let regions = vec![
        MemoryRegion { start: 0, end: 3 * PAGE_SIZE },
        MemoryRegion { start: 3 * PAGE_SIZE, end: 4 * PAGE_SIZE },
        MemoryRegion { start: 4 * PAGE_SIZE, end: 6 * PAGE_SIZE },
        MemoryRegion { start: KERNEL_SPACE_START, end: u64::MAX },
    ];
    let (totals, failed) = scan_regions(&pagemap, &regions, &idle, KERNEL_SPACE_START);
    assert_eq!(totals, ScanTotals { active: 2, walked: 3 });
    assert_eq!(failed, vec![MemoryRegion { start: 4 * PAGE_SIZE, end: 6 * PAGE_SIZE }]);
    let (none, none_failed) = scan_regions(&pagemap, &regions[3..].to_vec(), &idle, KERNEL_SPACE_START);
    assert_eq!(none, ScanTotals { active: 0, walked: 0 });
    assert!(none_failed.is_empty());
}

#[test]
fn scan_table_sums_holds_and_lists_failures() {
    let entries = [PRESENT_MASK | 10, 0, PRESENT_MASK | 20, PRESENT_MASK | 21];
    let table: Vec<u8> = entries.iter().flat_map(|e| e.to_le_bytes()).collect();
    let idle = IdleMap::from_bytes(vec![0x00, 0x04, 0x00]);
    let regions = vec![
        MemoryRegion { start: 9 * PAGE_SIZE, end: 9 * PAGE_SIZE + 10 },
        MemoryRegion { start: 0, end: 3 * PAGE_SIZE },
        MemoryRegion { start: 5 * PAGE_SIZE, end: 7 * PAGE_SIZE },
        MemoryRegion { start: 3 * PAGE_SIZE, end: 4 * PAGE_SIZE },
        MemoryRegion { start: 2 * PAGE_SIZE, end: PAGE_SIZE },
        MemoryRegion { start: 8 * PAGE_SIZE, end: 9 * PAGE_SIZE },
        MemoryRegion { start: KERNEL_SPACE_START, end: u64::MAX },
    ];
    let (totals, failed) = scan_table(&table, &regions, &idle, KERNEL_SPACE_START);
    assert_eq!(totals, ScanTotals { active: 2, walked: 3 });
    assert_eq!(
        failed,
        vec![
            MemoryRegion { start: 5 * PAGE_SIZE, end: 7 * PAGE_SIZE },
            MemoryRegion { start: 8 * PAGE_SIZE, end: 9 * PAGE_SIZE },
        ]
    );
    let (empty, none) = scan_table(&table, &Vec::new(), &idle, KERNEL_SPACE_START);
    assert_eq!(empty, ScanTotals { active: 0, walked: 0 });
    assert!(none.is_empty());
}
