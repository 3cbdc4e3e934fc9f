use vstd::prelude::*;

use crate::idlemap::{page_active, IdleMap};

verus! {

/// Size of a base page in bytes.
pub const PAGE_SIZE: u64 = 4096;

/// Size of one translation-table record in bytes.
pub const PAGEMAP_ENTRY_SIZE: usize = 8;

/// Largest number of records examined per read of the translation table.
pub const CHUNK_ENTRIES: usize = 4096;

/// Bit 63 of a record: the page is resident.
pub const PRESENT_MASK: u64 = 0x8000_0000_0000_0000;

/// Bits 0 to 54 of a record: the physical frame number of a resident page.
pub const PFN_MASK: u64 = 0x007f_ffff_ffff_ffff;

/// The 64-bit record stored little-endian at byte `at` of `bytes`. The kernel
/// writes records in the host's byte order; this assumes a little-endian host
/// (x86-64, little-endian AArch64 and RISC-V).
pub open spec fn le_u64(bytes: Seq<u8>, at: int) -> u64 {
    (bytes[at] as u64)
        | ((bytes[at + 1] as u64) << 8u64)
        | ((bytes[at + 2] as u64) << 16u64)
        | ((bytes[at + 3] as u64) << 24u64)
        | ((bytes[at + 4] as u64) << 32u64)
        | ((bytes[at + 5] as u64) << 40u64)
        | ((bytes[at + 6] as u64) << 48u64)
        | ((bytes[at + 7] as u64) << 56u64)
}

/// The `n` consecutive records that start at byte `off` of the table.
pub open spec fn entries_from(table: Seq<u8>, off: int, n: nat) -> Seq<u64> {
    Seq::new(n, |i: int| le_u64(table, off + 8 * i))
}

pub open spec fn entry_present(entry: u64) -> bool {
    entry & PRESENT_MASK != 0
}

pub open spec fn entry_pfn(entry: u64) -> u64 {
    entry & PFN_MASK
}

/// A record is walked when its page is resident and it names a real frame.
pub open spec fn entry_walked(entry: u64) -> bool {
    entry_present(entry) && entry_pfn(entry) != 0
}

/// A walked record whose frame the bitmap reports as accessed.
pub open spec fn entry_active(entry: u64, bitmap: Seq<u8>) -> bool {
    entry_walked(entry) && page_active(bitmap, entry_pfn(entry))
}

/// How many of the records are walked.
pub open spec fn walked_count(entries: Seq<u64>) -> nat
    decreases entries.len(),
{
    if entries.len() == 0 {
        0
    } else {
        walked_count(entries.drop_last()) + if entry_walked(entries.last()) {
            1nat
        } else {
            0nat
        }
    }
}

/// How many of the records are walked and active in the bitmap.
pub open spec fn active_count(entries: Seq<u64>, bitmap: Seq<u8>) -> nat
    decreases entries.len(),
{
    if entries.len() == 0 {
        0
    } else {
        active_count(entries.drop_last(), bitmap) + if entry_active(entries.last(), bitmap) {
            1nat
        } else {
            0nat
        }
    }
}

/// Number of pages in the virtual range `[start, end)`.
pub open spec fn region_pages(start: u64, end: u64) -> nat {
    ((end - start) / PAGE_SIZE as int) as nat
}

/// Byte offset in the translation table of the record for address `start`.
pub open spec fn region_offset(start: u64) -> nat {
    ((start / PAGE_SIZE) * 8) as nat
}

/// Whether the table holds every record of the range `[start, end)`; a
/// range without a whole page needs no record.
pub open spec fn region_in_table(table: Seq<u8>, start: u64, end: u64) -> bool {
    region_pages(start, end) == 0 || region_offset(start) + 8 * region_pages(start, end)
        <= table.len()
}

/// The records of the range `[start, end)`.
pub open spec fn region_entries(table: Seq<u8>, start: u64, end: u64) -> Seq<u64> {
    entries_from(table, region_offset(start) as int, region_pages(start, end))
}

/// `(active, walked)` for the range `[start, end)` read in one piece.
pub open spec fn region_counts(table: Seq<u8>, start: u64, end: u64, bitmap: Seq<u8>) -> (nat, nat) {
    let entries = region_entries(table, start, end);
    (active_count(entries, bitmap), walked_count(entries))
}

/// `(active, walked)` summed over the `n` records at byte `off`, read in
/// pieces of `chunk` records.
pub open spec fn chunked_counts(table: Seq<u8>, off: int, n: nat, chunk: nat, bitmap: Seq<u8>) -> (nat, nat)
    decreases n,
{
    if n <= chunk || chunk == 0 {
        let entries = entries_from(table, off, n);
        (active_count(entries, bitmap), walked_count(entries))
    } else {
        let head = entries_from(table, off, chunk);
        let rest = chunked_counts(table, off + 8 * chunk, (n - chunk) as nat, chunk, bitmap);
        (active_count(head, bitmap) + rest.0, walked_count(head) + rest.1)
    }
}

/// Why a region of the translation table could not be read.
#[derive(Debug, Clone, Copy, PartialEq, Eq, Structural)]
pub enum RegionError {
    /// The table ends before the last record of the region.
    Truncated,
}


/// The record stored little-endian at byte `at` of the table.
pub fn read_entry(table: &[u8], at: usize) -> (r: u64)
    requires
        at + 8 <= table@.len(),
    ensures
        r == le_u64(table@, at as int),
{
    (table[at] as u64)
        | ((table[at + 1] as u64) << 8u64)
        | ((table[at + 2] as u64) << 16u64)
        | ((table[at + 3] as u64) << 24u64)
        | ((table[at + 4] as u64) << 32u64)
        | ((table[at + 5] as u64) << 40u64)
        | ((table[at + 6] as u64) << 48u64)
        | ((table[at + 7] as u64) << 56u64)
}

/// The physical frame of a record, when the record is walked: its page is
/// resident and its frame number is not zero.
pub fn entry_frame(entry: u64) -> (r: Option<u64>)
    ensures
        r == (if entry_walked(entry) {
            Some(entry_pfn(entry))
        } else {
            None::<u64>
        }),
{
    if entry & PRESENT_MASK == 0 {
        return None;
    }
    let pfn = entry & PFN_MASK;
    if pfn == 0 {
        None
    } else {
        Some(pfn)
    }
}

/// Adds to the counters the walked and the active records among the `n`
/// records at byte `off` of the table.
pub fn count_entries(
    table: &[u8],
    off: usize,
    n: usize,
    idle: &IdleMap,
    active: &mut usize,
    walked: &mut usize,
)
    requires
        off + 8 * n <= table@.len(),
        *old(walked) + n <= usize::MAX,
        *old(active) <= *old(walked),
    ensures
        *final(walked) == *old(walked) + walked_count(entries_from(table@, off as int, n as nat)),
        *final(active) == *old(active) + active_count(
            entries_from(table@, off as int, n as nat),
            idle@,
        ),
        *final(active) <= *final(walked),
{
    let ghost active0 = *active;
    let ghost walked0 = *walked;
    let table_len = table.len();
    let mut i: usize = 0;
    while i < n
        invariant
            i <= n,
            off + 8 * n <= table@.len(),
            table_len == table@.len(),
            walked0 + n <= usize::MAX,
            active0 <= walked0,
            *walked == walked0 + walked_count(entries_from(table@, off as int, i as nat)),
            *active == active0 + active_count(entries_from(table@, off as int, i as nat), idle@),
        decreases n - i,
    {
        let ghost before = entries_from(table@, off as int, i as nat);
        let ghost after = entries_from(table@, off as int, (i + 1) as nat);
        proof {
            lemma_active_le_walked(before, idle@);
            assert(after.drop_last() =~= before);
        }
        let entry = read_entry(table, off + 8 * i);
        assert(after.last() == entry);
        match entry_frame(entry) {
            Some(pfn) => {
                if idle.is_page_active(pfn) {
                    *active = *active + 1;
                }
                *walked = *walked + 1;
            },
            None => {},
        }
        i = i + 1;
    }
    proof {
        lemma_active_le_walked(entries_from(table@, off as int, n as nat), idle@);
    }
}

/// Counts `(active, walked)` over the records of the virtual range
/// `[start, end)`, reading the table in pieces of at most `CHUNK_ENTRIES`
/// records. Fails when the table ends before the last record of the range.
pub fn walk_region(table: &[u8], start: u64, end: u64, idle: &IdleMap) -> (r: Result<
    (usize, usize),
    RegionError,
>)
    requires
        start <= end,
    ensures
        match r {
            Ok(c) => region_in_table(table@, start, end) && c.0 == region_counts(
                table@,
                start,
                end,
                idle@,
            ).0 && c.1 == region_counts(table@, start, end, idle@).1,
            Err(e) => !region_in_table(table@, start, end) && e == RegionError::Truncated,
        },
{
    let n64: u64 = (end - start) / PAGE_SIZE;
    let off64: u64 = (start / PAGE_SIZE) * 8;
    if n64 == 0 {
        proof {
            assert(entries_from(table@, region_offset(start) as int, 0) =~= Seq::<u64>::empty());
        }
        return Ok((0, 0));
    }
    if off64 + 8 * n64 > table.len() as u64 {
        return Err(RegionError::Truncated);
    }
    let n = n64 as usize;
    let off = off64 as usize;
    let mut active: usize = 0;
    let mut walked: usize = 0;
    let mut pos: usize = 0;
    while pos < n
        invariant
            pos <= n,
            n == region_pages(start, end),
            off == region_offset(start),
            off + 8 * n <= table@.len(),
            table.len() == table@.len(),
            walked == walked_count(entries_from(table@, off as int, pos as nat)),
            active == active_count(entries_from(table@, off as int, pos as nat), idle@),
            walked <= pos,
            active <= walked,
        decreases n - pos,
    {
        let len: usize = if n - pos < CHUNK_ENTRIES {
            n - pos
        } else {
            CHUNK_ENTRIES
        };
        proof {
            lemma_entries_split(table@, off as int, pos as nat, len as nat);
            lemma_counts_append(
                entries_from(table@, off as int, pos as nat),
                entries_from(table@, off + 8 * pos, len as nat),
                idle@,
            );
            lemma_active_le_walked(entries_from(table@, off + 8 * pos, len as nat), idle@);
        }
        count_entries(table, off + 8 * pos, len, idle, &mut active, &mut walked);
        pos = pos + len;
    }
    Ok((active, walked))
}

proof fn lemma_counts_append(a: Seq<u64>, b: Seq<u64>, bitmap: Seq<u8>)
    ensures
        walked_count(a + b) == walked_count(a) + walked_count(b),
        active_count(a + b, bitmap) == active_count(a, bitmap) + active_count(b, bitmap),
    decreases b.len(),
{
    if b.len() == 0 {
        assert(a + b =~= a);
    } else {
        lemma_counts_append(a, b.drop_last(), bitmap);
        assert((a + b).drop_last() =~= a + b.drop_last());
        assert((a + b).last() == b.last());
    }
}

proof fn lemma_entries_split(table: Seq<u8>, off: int, m: nat, k: nat)
    ensures
        entries_from(table, off, m + k) =~= entries_from(table, off, m) + entries_from(
            table,
            off + 8 * m,
            k,
        ),
{
    let whole = entries_from(table, off, m + k);
    let parts = entries_from(table, off, m) + entries_from(table, off + 8 * m, k);
    assert forall|i: int| 0 <= i < m + k implies #[trigger] whole[i] == parts[i] by {
        if i >= m {
            assert(off + 8 * i == off + 8 * m + 8 * (i - m));
        }
    }
}

proof fn lemma_active_le_walked(entries: Seq<u64>, bitmap: Seq<u8>)
    ensures
        active_count(entries, bitmap) <= walked_count(entries),
        walked_count(entries) <= entries.len(),
    decreases entries.len(),
{
    if entries.len() > 0 {
        lemma_active_le_walked(entries.drop_last(), bitmap);
    }
}

/// A record whose present bit is clear adds nothing to either count.
pub proof fn lemma_absent_entry_ignored(entries: Seq<u64>, entry: u64, bitmap: Seq<u8>)
    requires
        !entry_present(entry),
    ensures
        walked_count(entries.push(entry)) == walked_count(entries),
        active_count(entries.push(entry), bitmap) == active_count(entries, bitmap),
{
    assert(entries.push(entry).drop_last() =~= entries);
}

/// A record whose frame number is zero adds nothing to either count, even
/// when its present bit is set.
pub proof fn lemma_zero_frame_ignored(entries: Seq<u64>, entry: u64, bitmap: Seq<u8>)
    requires
        entry_pfn(entry) == 0,
    ensures
        walked_count(entries.push(entry)) == walked_count(entries),
        active_count(entries.push(entry), bitmap) == active_count(entries, bitmap),
{
    assert(entries.push(entry).drop_last() =~= entries);
}

/// For any region and any bitmap, the active pages are among the walked ones.
pub proof fn lemma_region_active_le_walked(table: Seq<u8>, start: u64, end: u64, bitmap: Seq<u8>)
    ensures
        region_counts(table, start, end, bitmap).0 <= region_counts(table, start, end, bitmap).1,
{
    lemma_active_le_walked(region_entries(table, start, end), bitmap);
}

/// The counts of a region depend only on the region's records and on the
/// bitmap: scanning it again, over a table whose records there are unchanged
/// and with the same bitmap, gives the same `(active, walked)`.
pub proof fn lemma_rescan_same_counts(
    table: Seq<u8>,
    again: Seq<u8>,
    start: u64,
    end: u64,
    bitmap: Seq<u8>,
)
    requires
        region_in_table(table, start, end),
        region_in_table(again, start, end),
        table.subrange(
            region_offset(start) as int,
            (region_offset(start) + 8 * region_pages(start, end)) as int,
        ) == again.subrange(
            region_offset(start) as int,
            (region_offset(start) + 8 * region_pages(start, end)) as int,
        ),
    ensures
        region_counts(table, start, end, bitmap) == region_counts(again, start, end, bitmap),
{
    let off = region_offset(start) as int;
    let n = region_pages(start, end);
    let a = region_entries(table, start, end);
    let b = region_entries(again, start, end);
    assert forall|i: int| 0 <= i < n implies #[trigger] a[i] == b[i] by {
        let lo = off + 8 * i;
        assert forall|k: int| lo <= k < lo + 8 implies table[k] == again[k] by {
            assert(table[k] == table.subrange(off, off + 8 * n)[k - off]);
            assert(again[k] == again.subrange(off, off + 8 * n)[k - off]);
        }
    }
    assert(a =~= b);
}

/// Reading the records in pieces of any positive number of records (a
/// positive multiple of 8 bytes) gives the counts of one read of them all.
pub proof fn lemma_chunked_equals_whole(table: Seq<u8>, off: int, n: nat, chunk: nat, bitmap: Seq<u8>)
    requires
        chunk > 0,
    ensures
        chunked_counts(table, off, n, chunk, bitmap) == (
            active_count(entries_from(table, off, n), bitmap),
            walked_count(entries_from(table, off, n)),
        ),
    decreases n,
{
    if n > chunk {
        let rest = (n - chunk) as nat;
        lemma_chunked_equals_whole(table, off + 8 * chunk, rest, chunk, bitmap);
        lemma_entries_split(table, off, chunk, rest);
        lemma_counts_append(
            entries_from(table, off, chunk),
            entries_from(table, off + 8 * chunk, rest),
            bitmap,
        );
        assert(chunk + rest == n);
    }
}

/// memmap2's read-only mapping, carried through opaque: nothing inside it is
/// relied on.
#[verifier::external_type_specification]
#[verifier::external_body]
pub struct ExMmap(memmap2::Mmap);

/// Relies on memmap2's `Deref` for `Mmap`: the mapped bytes as a slice.
/// Nothing is assumed of their contents, which come from the kernel.
#[verifier::external_body]
fn mapped_bytes(map: &memmap2::Mmap) -> (r: &[u8]) {
    std::ops::Deref::deref(map)
}

/// A process's translation table, mapped into memory.
pub struct Pagemap {
    mmap: memmap2::Mmap,
    pid: i32,
}

impl Pagemap {
    /// Takes the mapping of the translation table of process `pid`.
    pub fn from_mmap(mmap: memmap2::Mmap, pid: i32) -> (r: Pagemap)
        ensures
            r.pid() == pid,
    {
        Pagemap { mmap, pid }
    }

    pub closed spec fn pid(&self) -> i32 {
        self.pid
    }

    /// The process whose table this is.
    pub fn process_id(&self) -> (r: i32)
        ensures
            r == self.pid(),
    {
        self.pid
    }

    /// The mapped table's bytes, as the kernel provides them.
    pub(crate) fn table_bytes(&self) -> &[u8] {
        mapped_bytes(&self.mmap)
    }

    /// Counts `(active_pages, walked_pages)` over the virtual range
    /// `[start_addr, end_addr)`, as `walk_region` does on the mapped table.
    /// A range without a whole page reads nothing and gives `(0, 0)`;
    /// otherwise the counts are those of the table's bytes, whatever they
    /// are: the active pages are among the walked ones, and no more pages
    /// are walked than the range has.
    pub fn process_region(&self, start_addr: u64, end_addr: u64, idle_map: &IdleMap) -> (r: Result<
        (usize, usize),
        RegionError,
    >)
        requires
            start_addr <= end_addr,
        ensures
            region_pages(start_addr, end_addr) == 0 ==> r == Ok::<(usize, usize), RegionError>(
                (0, 0),
            ),
            r matches Ok(c) ==> c.0 <= c.1 && c.1 <= region_pages(start_addr, end_addr),
            r matches Ok(c) ==> exists|t: Seq<u8>|
                #[trigger] region_in_table(t, start_addr, end_addr) && c.0 == region_counts(
                    t,
                    start_addr,
                    end_addr,
                    idle_map@,
                ).0 && c.1 == region_counts(t, start_addr, end_addr, idle_map@).1,
            r matches Err(e) ==> e == RegionError::Truncated && region_pages(start_addr, end_addr)
                > 0,
    {
        let table = self.table_bytes();
        let r = walk_region(table, start_addr, end_addr, idle_map);
        proof {
            lemma_active_le_walked(region_entries(table@, start_addr, end_addr), idle_map@);
        }
        r
    }
}

} // verus!
