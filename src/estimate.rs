use vstd::prelude::*;

use crate::idlemap::IdleMap;
use crate::pagemap::{
    lemma_region_active_le_walked, region_counts, region_in_table, walk_region, Pagemap, PAGE_SIZE,
};
use crate::scanner::MemoryRegion;

verus! {

/// Shortest sampling interval accepted, in microseconds (10 ms).
pub const MIN_INTERVAL_MICROS: u64 = 10_000;

/// Lowest kernel-space address on x86-64 with 4-level paging; regions that
/// start at or above it are not scanned. Other architectures pass their own
/// boundary to `should_scan`.
pub const KERNEL_SPACE_START: u64 = 0xffff_8800_0000_0000;

/// Bytes in one megabyte.
pub const BYTES_PER_MB: u64 = 1024 * 1024;

/// A sampling interval that is too short to measure anything.
#[derive(Debug, Clone, Copy, PartialEq, Eq, Structural)]
pub enum UsageError {
    IntervalTooShort,
}

/// The elapsed time corrected for half the cost of the reset and half the
/// cost of the reload and scan: `total - set / 2 - reload_scan / 2`.
pub open spec fn estimate(total: int, set: int, reload_scan: int) -> int {
    total - set / 2 - reload_scan / 2
}

/// Accepts a sampling interval of at least `MIN_INTERVAL_MICROS`.
pub fn check_interval(micros: u64) -> (r: Result<u64, UsageError>)
    ensures
        micros >= MIN_INTERVAL_MICROS ==> r == Ok::<u64, UsageError>(micros),
        micros < MIN_INTERVAL_MICROS ==> r == Err::<u64, UsageError>(UsageError::IntervalTooShort),
{
    if micros < MIN_INTERVAL_MICROS {
        Err(UsageError::IntervalTooShort)
    } else {
        Ok(micros)
    }
}

/// Whether a region lies below the kernel-space boundary and is scanned.
pub fn should_scan(region: &MemoryRegion, kernel_start: u64) -> (r: bool)
    ensures
        r == (region.start < kernel_start),
{
    region.start < kernel_start
}

/// The bias-corrected duration of the sampling window, in microseconds, from
/// the whole elapsed time, the cost of the reset and the cost of the reload
/// and scan.
pub fn estimate_micros(total: u64, set: u64, reload_scan: u64) -> (r: i128)
    ensures
        r == estimate(total as int, set as int, reload_scan as int),
{
    total as i128 - (set / 2) as i128 - (reload_scan / 2) as i128
}

/// Size in bytes of the referenced pages.
pub fn referenced_bytes(active_pages: u64) -> (r: u128)
    ensures
        r == active_pages * PAGE_SIZE,
{
    assert(active_pages as u128 * 4096 <= u128::MAX) by (nonlinear_arith)
        requires
            active_pages <= u64::MAX,
    ;
    active_pages as u128 * PAGE_SIZE as u128
}

/// The corrected estimate never exceeds the elapsed time, since both
/// overheads are non-negative, and equals it when both overheads are zero.
pub proof fn lemma_estimate_within_elapsed(total: int, set: int, reload_scan: int)
    requires
        set >= 0,
        reload_scan >= 0,
    ensures
        estimate(total, set, reload_scan) <= total,
        set == 0 && reload_scan == 0 ==> estimate(total, set, reload_scan) == total,
{
}

/// Page counts accumulated over the regions of one scan.
#[derive(Debug, Clone, Copy, PartialEq, Eq, Structural)]
pub struct ScanTotals {
    pub active: u64,
    pub walked: u64,
}

impl ScanTotals {
    pub open spec fn wf(&self) -> bool {
        self.active <= self.walked
    }

    pub fn new() -> (r: ScanTotals)
        ensures
            r.active == 0,
            r.walked == 0,
            r.wf(),
    {
        ScanTotals { active: 0, walked: 0 }
    }

    /// Adds one region's `(active, walked)` counts; each total stops at
    /// `u64::MAX` rather than wrapping.
    pub fn add_region(&mut self, counts: (usize, usize))
        requires
            old(self).wf(),
            counts.0 <= counts.1,
        ensures
            final(self).wf(),
            final(self).active == if old(self).active + counts.0 <= u64::MAX {
                old(self).active + counts.0
            } else {
                u64::MAX as int
            },
            final(self).walked == if old(self).walked + counts.1 <= u64::MAX {
                old(self).walked + counts.1
            } else {
                u64::MAX as int
            },
    {
        let a = counts.0 as u64;
        let w = counts.1 as u64;
        self.active = if self.active <= u64::MAX - a {
            self.active + a
        } else {
            u64::MAX
        };
        self.walked = if self.walked <= u64::MAX - w {
            self.walked + w
        } else {
            u64::MAX
        };
    }
}

/// A total held in 64 bits: the sum itself, or `u64::MAX` once it would
/// exceed that.
pub open spec fn capped(x: nat) -> nat {
    if x <= u64::MAX {
        x
    } else {
        u64::MAX as nat
    }
}

/// Whether a region is walked: it starts below the kernel-space boundary and
/// its range is not reversed.
pub open spec fn scanned(region: MemoryRegion, kernel_start: u64) -> bool {
    region.start < kernel_start && region.start <= region.end
}

/// The outcome of scanning the regions in order over one table: the summed
/// `(active, walked)` counts of the scanned regions that the table holds,
/// and the scanned regions that it does not hold, in listing order.
pub open spec fn scan_of(table: Seq<u8>, regions: Seq<MemoryRegion>, bitmap: Seq<u8>, kernel_start: u64) -> (nat, nat, Seq<MemoryRegion>)
    decreases regions.len(),
{
    if regions.len() == 0 {
        (0, 0, Seq::empty())
    } else {
        let prev = scan_of(table, regions.drop_last(), bitmap, kernel_start);
        let g = regions.last();
        if !scanned(g, kernel_start) {
            prev
        } else if region_in_table(table, g.start, g.end) {
            let c = region_counts(table, g.start, g.end, bitmap);
            (prev.0 + c.0, prev.1 + c.1, prev.2)
        } else {
            (prev.0, prev.1, prev.2.push(g))
        }
    }
}

/// Walks, over the table's bytes, every region that starts below
/// `kernel_start` and adds up its `(active, walked)` counts, each total
/// stopping at `u64::MAX`. A region that the table does not hold contributes
/// nothing and is returned among the failures, in listing order; the scan
/// goes on with the next region. Regions above the boundary, and reversed
/// ranges, are skipped.
pub fn scan_table(table: &[u8], regions: &Vec<MemoryRegion>, idle: &IdleMap, kernel_start: u64) -> (r: (ScanTotals, Vec<MemoryRegion>))
    ensures
        r.0.wf(),
        r.0.active == capped(scan_of(table@, regions@, idle@, kernel_start).0),
        r.0.walked == capped(scan_of(table@, regions@, idle@, kernel_start).1),
        r.1@ == scan_of(table@, regions@, idle@, kernel_start).2,
{
    let mut totals = ScanTotals::new();
    let mut failed: Vec<MemoryRegion> = Vec::new();
    let mut i: usize = 0;
    while i < regions.len()
        invariant
            i <= regions@.len(),
            totals.wf(),
            totals.active == capped(scan_of(table@, regions@.take(i as int), idle@, kernel_start).0),
            totals.walked == capped(scan_of(table@, regions@.take(i as int), idle@, kernel_start).1),
            failed@ == scan_of(table@, regions@.take(i as int), idle@, kernel_start).2,
        decreases regions@.len() - i,
    {
        let region = regions[i];
        proof {
            assert(regions@.take(i + 1).drop_last() =~= regions@.take(i as int));
            assert(regions@.take(i + 1).last() == region);
        }
        if should_scan(&region, kernel_start) && region.start <= region.end {
            match walk_region(table, region.start, region.end, idle) {
                Ok(counts) => {
                    proof {
                        lemma_region_active_le_walked(table@, region.start, region.end, idle@);
                    }
                    totals.add_region(counts);
                },
                Err(_) => {
                    failed.push(region);
                },
            }
        }
        i = i + 1;
    }
    assert(regions@.take(i as int) =~= regions@);
    (totals, failed)
}

/// Walks the regions over the mapped translation table, as `scan_table` does
/// on the table's bytes, whatever the kernel has put there.
pub fn scan_regions(
    pagemap: &Pagemap,
    regions: &Vec<MemoryRegion>,
    idle: &IdleMap,
    kernel_start: u64,
) -> (r: (ScanTotals, Vec<MemoryRegion>))
    ensures
        r.0.wf(),
        exists|t: Seq<u8>|
            r.0.active == capped(#[trigger] scan_of(t, regions@, idle@, kernel_start).0)
                && r.0.walked == capped(scan_of(t, regions@, idle@, kernel_start).1) && r.1@
                == scan_of(t, regions@, idle@, kernel_start).2,
{
    let table = pagemap.table_bytes();
    let r = scan_table(table, regions, idle, kernel_start);
    assert(r.0.active == capped(scan_of(table@, regions@, idle@, kernel_start).0));
    r
}

} // verus!
