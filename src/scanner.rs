use vstd::prelude::*;

verus! {

/// Whether `c` separates fields of a listing line (Unicode white space, as
/// `char::is_whitespace` classifies it).
pub open spec fn is_space(c: char) -> bool {
    c == ' ' || ('\u{9}' <= c && c <= '\u{d}') || c == '\u{85}' || c == '\u{a0}' || c
        == '\u{1680}' || ('\u{2000}' <= c && c <= '\u{200a}') || c == '\u{2028}' || c
        == '\u{2029}' || c == '\u{202f}' || c == '\u{205f}' || c == '\u{3000}'
}

pub open spec fn is_hex_digit(c: char) -> bool {
    ('0' <= c && c <= '9') || ('a' <= c && c <= 'f') || ('A' <= c && c <= 'F')
}

/// The value of a hexadecimal digit.
pub open spec fn hex_digit_value(c: char) -> nat {
    if '0' <= c && c <= '9' {
        (c as u32 - '0' as u32) as nat
    } else if 'a' <= c && c <= 'f' {
        (c as u32 - 'a' as u32 + 10) as nat
    } else if 'A' <= c && c <= 'F' {
        (c as u32 - 'A' as u32 + 10) as nat
    } else {
        0
    }
}

/// The number that the digits spell in base 16.
pub open spec fn hex_value(s: Seq<char>) -> nat
    decreases s.len(),
{
    if s.len() == 0 {
        0
    } else {
        hex_value(s.drop_last()) * 16 + hex_digit_value(s.last())
    }
}

/// A non-empty run of hexadecimal digits whose value fits in 64 bits.
pub open spec fn parse_hex(s: Seq<char>) -> Option<u64> {
    if s.len() > 0 && (forall|i: int| 0 <= i < s.len() ==> is_hex_digit(#[trigger] s[i]))
        && hex_value(s) <= u64::MAX {
        Some(hex_value(s) as u64)
    } else {
        None
    }
}

/// Index of the first character at or after `i` that is not white space.
pub open spec fn skip_spaces(s: Seq<char>, i: int) -> int
    decreases s.len() - i,
{
    if 0 <= i < s.len() && is_space(s[i]) {
        skip_spaces(s, i + 1)
    } else {
        i
    }
}

/// Index of the first white-space character at or after `i`, or the length.
pub open spec fn field_end(s: Seq<char>, i: int) -> int
    decreases s.len() - i,
{
    if 0 <= i < s.len() && !is_space(s[i]) {
        field_end(s, i + 1)
    } else {
        i
    }
}

/// The first white-space-separated field of a line (empty when there is none).
pub open spec fn first_field(s: Seq<char>) -> Seq<char> {
    s.subrange(skip_spaces(s, 0), field_end(s, skip_spaces(s, 0)))
}

/// A field holds exactly one hyphen, at index `d`.
pub open spec fn single_hyphen_at(f: Seq<char>, d: int) -> bool {
    0 <= d < f.len() && f[d] == '-' && forall|i: int|
        0 <= i < f.len() && i != d ==> #[trigger] f[i] != '-'
}

/// The address range that a listing line names: its first field is
/// `start-end`, two hexadecimal addresses around a single hyphen, with
/// `start <= end`. `None` for any other line.
pub open spec fn line_range(line: Seq<char>) -> Option<(u64, u64)> {
    let f = first_field(line);
    if exists|d: int| single_hyphen_at(f, d) {
        let d = choose|d: int| single_hyphen_at(f, d);
        match (parse_hex(f.subrange(0, d)), parse_hex(f.subrange(d + 1, f.len() as int))) {
            (Some(start), Some(end)) => if start <= end {
                Some((start, end))
            } else {
                None
            },
            _ => None,
        }
    } else {
        None
    }
}

proof fn lemma_hex_prefix_le(s: Seq<char>, k: int)
    requires
        0 <= k <= s.len(),
    ensures
        hex_value(s.take(k)) <= hex_value(s),
    decreases s.len(),
{
    if k < s.len() {
        lemma_hex_prefix_le(s.drop_last(), k);
        assert(s.drop_last().take(k) =~= s.take(k));
    } else {
        assert(s.take(k) =~= s);
    }
}

fn is_space_char(c: char) -> (r: bool)
    ensures
        r == is_space(c),
{
    c == ' ' || ('\u{9}' <= c && c <= '\u{d}') || c == '\u{85}' || c == '\u{a0}' || c
        == '\u{1680}' || ('\u{2000}' <= c && c <= '\u{200a}') || c == '\u{2028}' || c
        == '\u{2029}' || c == '\u{202f}' || c == '\u{205f}' || c == '\u{3000}'
}

/// The value of `c` as a hexadecimal digit, or `None` when it is not one.
fn hex_digit(c: char) -> (r: Option<u64>)
    ensures
        r == (if is_hex_digit(c) {
            Some(hex_digit_value(c) as u64)
        } else {
            None::<u64>
        }),
        r matches Some(d) ==> d < 16,
{
    if '0' <= c && c <= '9' {
        Some((c as u32 - '0' as u32) as u64)
    } else if 'a' <= c && c <= 'f' {
        Some((c as u32 - 'a' as u32 + 10) as u64)
    } else if 'A' <= c && c <= 'F' {
        Some((c as u32 - 'A' as u32 + 10) as u64)
    } else {
        None
    }
}

/// The characters of a line, in order.
fn line_chars(line: &str) -> (r: Vec<char>)
    ensures
        r@ == line@,
{
    let n = line.unicode_len();
    let mut out: Vec<char> = Vec::new();
    let mut i: usize = 0;
    while i < n
        invariant
            i <= n,
            n == line@.len(),
            out@ == line@.subrange(0, i as int),
        decreases n - i,
    {
        out.push(line.get_char(i));
        i = i + 1;
    }
    assert(out@ =~= line@);
    out
}

/// Parses `chars[lo..hi]` as a hexadecimal number that fits in 64 bits.
fn parse_hex_run(chars: &Vec<char>, lo: usize, hi: usize) -> (r: Option<u64>)
    requires
        lo <= hi <= chars@.len(),
    ensures
        r == parse_hex(chars@.subrange(lo as int, hi as int)),
{
    let ghost s = chars@.subrange(lo as int, hi as int);
    let mut v: u64 = 0;
    let mut i: usize = lo;
    while i < hi
        invariant
            lo <= i <= hi <= chars@.len(),
            s == chars@.subrange(lo as int, hi as int),
            forall|t: int| 0 <= t < i - lo ==> is_hex_digit(#[trigger] s[t]),
            v == hex_value(chars@.subrange(lo as int, i as int)),
        decreases hi - i,
    {
        let c = chars[i];
        let ghost before = chars@.subrange(lo as int, i as int);
        let ghost after = chars@.subrange(lo as int, i + 1);
        assert(after.drop_last() =~= before);
        assert(s[i - lo] == c);
        match hex_digit(c) {
            None => {
                return None;
            },
            Some(d) => {
                if v > (u64::MAX - d) / 16 {
                    proof {
                        assert(v * 16 + d > u64::MAX) by (nonlinear_arith)
                            requires
                                v > (u64::MAX - d) / 16,
                                d < 16,
                        ;
                        assert(s.take(i + 1 - lo) =~= after);
                        lemma_hex_prefix_le(s, i + 1 - lo);
                    }
                    return None;
                }
                assert(v * 16 + d <= u64::MAX) by (nonlinear_arith)
                    requires
                        v <= (u64::MAX - d) / 16,
                        d < 16,
                ;
                v = v * 16 + d;
            },
        }
        i = i + 1;
    }
    assert(chars@.subrange(lo as int, i as int) =~= s);
    if i == lo {
        None
    } else {
        Some(v)
    }
}

/// Parses one line of a process's memory-map listing. Its first
/// white-space-separated field must be `start-end`: two hexadecimal addresses
/// around a single hyphen, with `start <= end`. Any other line gives `None`.
pub fn parse_map_line(line: &str) -> (r: Option<MemoryRegion>)
    ensures
        r == (match line_range(line@) {
            Some((start, end)) => Some(MemoryRegion { start, end }),
            None => None::<MemoryRegion>,
        }),
{
    let chars = line_chars(line);
    let ghost s = chars@;
    let n = chars.len();
    let mut j: usize = 0;
    while j < n && is_space_char(chars[j])
        invariant
            j <= n,
            n == s.len(),
            s == chars@,
            skip_spaces(s, 0) == skip_spaces(s, j as int),
        decreases n - j,
    {
        j = j + 1;
    }
    let mut k: usize = j;
    while k < n && !is_space_char(chars[k])
        invariant
            j <= k <= n,
            n == s.len(),
            s == chars@,
            skip_spaces(s, 0) == j,
            field_end(s, j as int) == field_end(s, k as int),
        decreases n - k,
    {
        k = k + 1;
    }
    let ghost f = first_field(s);
    assert(f =~= s.subrange(j as int, k as int));
    let mut hyphen: Option<usize> = None;
    let mut p: usize = j;
    while p < k
        invariant
            j <= p <= k <= n,
            n == s.len(),
            s == chars@,
            f == s.subrange(j as int, k as int),
            f == first_field(s),
            s == line@,
            hyphen matches None ==> forall|i: int| j <= i < p ==> s[i] != '-',
            hyphen matches Some(d) ==> j <= d < p && s[d as int] == '-' && forall|i: int|
                j <= i < p && i != d ==> s[i] != '-',
        decreases k - p,
    {
        if chars[p] == '-' {
            match hyphen {
                Some(d) => {
                    proof {
                        assert forall|e: int| !single_hyphen_at(f, e) by {
                            if single_hyphen_at(f, e) {
                                if e == d - j {
                                    assert(f[p - j] == '-');
                                } else {
                                    assert(f[d - j] == '-');
                                }
                            }
                        }
                    }
                    return None;
                },
                None => {
                    hyphen = Some(p);
                },
            }
        }
        p = p + 1;
    }
    match hyphen {
        None => {
            proof {
                assert forall|e: int| !single_hyphen_at(f, e) by {
                    if single_hyphen_at(f, e) {
                        assert(s[j + e] == '-');
                    }
                }
            }
            None
        },
        Some(d) => {
            proof {
                assert(single_hyphen_at(f, d - j));
                let e = choose|e: int| single_hyphen_at(f, e);
                if e != d - j {
                    assert(f[e] == '-');
                    assert(s[j + e] == '-');
                }
                assert(f.subrange(0, d - j) =~= s.subrange(j as int, d as int));
                assert(f.subrange(d - j + 1, f.len() as int) =~= s.subrange(d + 1, k as int));
            }
            let start = parse_hex_run(&chars, j, d);
            let end = parse_hex_run(&chars, d + 1, k);
            match (start, end) {
                (Some(start), Some(end)) => {
                    if start <= end {
                        Some(MemoryRegion { start, end })
                    } else {
                        None
                    }
                },
                _ => None,
            }
        },
    }
}

/// The regions named by the lines of a memory-map listing, in the order of
/// the lines; lines that name no region are skipped.
pub open spec fn listing_regions(lines: Seq<Seq<char>>) -> Seq<MemoryRegion>
    decreases lines.len(),
{
    if lines.len() == 0 {
        Seq::empty()
    } else {
        let rest = listing_regions(lines.drop_last());
        match line_range(lines.last()) {
            Some((start, end)) => rest.push(MemoryRegion { start, end }),
            None => rest,
        }
    }
}

/// One mapping of the target process: the virtual range `[start, end)`.
#[derive(Debug, Clone, Copy, PartialEq, Eq, Structural)]
pub struct MemoryRegion {
    pub start: u64,
    pub end: u64,
}

/// Reads the regions of one process.
#[derive(Debug, Clone, Copy, PartialEq, Eq, Structural)]
pub struct Scanner {
    pub pid: i32,
}

impl Scanner {
    pub fn new(pid: i32) -> (r: Scanner)
        ensures
            r.pid == pid,
    {
        Scanner { pid }
    }

    /// The regions named by the lines of this process's memory-map listing,
    /// in the order of the lines.
    pub fn parse_maps(&self, lines: &Vec<String>) -> (r: Vec<MemoryRegion>)
        ensures
            r@ == listing_regions(lines@.map_values(|l: String| l@)),
    {
        let ghost texts = lines@.map_values(|l: String| l@);
        let mut regions: Vec<MemoryRegion> = Vec::new();
        let mut i: usize = 0;
        while i < lines.len()
            invariant
                i <= lines@.len(),
                texts == lines@.map_values(|l: String| l@),
                regions@ == listing_regions(texts.take(i as int)),
            decreases lines@.len() - i,
        {
            proof {
                assert(texts.take(i + 1).drop_last() =~= texts.take(i as int));
            }
            let line: &str = lines[i].as_str();
            match parse_map_line(line) {
                Some(region) => {
                    regions.push(region);
                },
                None => {},
            }
            i = i + 1;
        }
        assert(texts.take(i as int) =~= texts);
        regions
    }
}

} // verus!
