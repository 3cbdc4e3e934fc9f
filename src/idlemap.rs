use vstd::prelude::*;

verus! {

/// Number of bytes written per call while marking every tracked frame idle.
pub const IDLEMAP_BUF_SIZE: usize = 4096;

/// The byte value that marks all eight frames of a bitmap byte as idle.
pub const ALL_IDLE: u8 = 0xff;

/// Whether the bitmap records frame `pfn` as accessed since the last reset:
/// its bit (byte `pfn / 8`, bit `pfn % 8`) lies inside the snapshot and is clear.
pub open spec fn page_active(bitmap: Seq<u8>, pfn: u64) -> bool {
    let byte_idx = (pfn / 8) as int;
    byte_idx < bitmap.len() && bitmap[byte_idx] & (1u8 << ((pfn % 8) as u8)) == 0
}

/// The bitmap after marking frame `pfn` idle (its bit set); `pfn` must lie
/// inside the snapshot.
pub open spec fn mark_idle(bitmap: Seq<u8>, pfn: u64) -> Seq<u8> {
    let byte_idx = (pfn / 8) as int;
    bitmap.update(byte_idx, bitmap[byte_idx] | (1u8 << ((pfn % 8) as u8)))
}

/// The bitmap after marking frame `pfn` accessed (its bit cleared); `pfn` must
/// lie inside the snapshot.
pub open spec fn mark_accessed(bitmap: Seq<u8>, pfn: u64) -> Seq<u8> {
    let byte_idx = (pfn / 8) as int;
    bitmap.update(byte_idx, bitmap[byte_idx] & !(1u8 << ((pfn % 8) as u8)))
}

/// What the reset does after one write of the all-idle buffer.
#[derive(Debug, Clone, Copy, PartialEq, Eq, Structural)]
pub enum ResetStep {
    /// The kernel took some bytes: write the buffer again.
    WriteAgain,
    /// The kernel took nothing: every tracked frame is marked idle.
    Done,
    /// The write failed: the reset fails with that error.
    Failed,
}

/// Decides the next step of the reset from the outcome of a write: the
/// number of bytes written, or `None` when the write failed. The reset polls
/// without backoff until a zero-length write or an error.
pub fn reset_step(written: Option<usize>) -> (r: ResetStep)
    ensures
        written == Some(0usize) ==> r == ResetStep::Done,
        written matches Some(n) && n > 0 ==> r == ResetStep::WriteAgain,
        written is None ==> r == ResetStep::Failed,
{
    match written {
        Some(0) => ResetStep::Done,
        Some(_) => ResetStep::WriteAgain,
        None => ResetStep::Failed,
    }
}

/// A snapshot of the kernel's idle-page bitmap: one bit per physical frame,
/// 0 when the frame was accessed since the last reset, 1 when it stayed idle.
pub struct IdleMap {
    pub data: Vec<u8>,
}

impl IdleMap {
    pub open spec fn view(&self) -> Seq<u8> {
        self.data@
    }

    /// Wraps the bytes of a bitmap snapshot.
    pub fn from_bytes(data: Vec<u8>) -> (r: IdleMap)
        ensures
            r@ == data@,
    {
        IdleMap { data }
    }

    /// The buffer that is written repeatedly to the control file to mark
    /// every tracked frame idle.
    pub fn reset_buffer() -> (r: Vec<u8>)
        ensures
            r@.len() == IDLEMAP_BUF_SIZE,
            forall|i: int| 0 <= i < r@.len() ==> r@[i] == ALL_IDLE,
    {
        let mut buf: Vec<u8> = Vec::new();
        let mut i: usize = 0;
        while i < IDLEMAP_BUF_SIZE
            invariant
                i <= IDLEMAP_BUF_SIZE,
                buf@.len() == i,
                forall|k: int| 0 <= k < buf@.len() ==> buf@[k] == ALL_IDLE,
            decreases IDLEMAP_BUF_SIZE - i,
        {
            buf.push(ALL_IDLE);
            i = i + 1;
        }
        buf
    }

    /// Whether frame `pfn` was accessed since the last reset. A frame whose
    /// byte lies beyond the snapshot is reported as not active.
    pub fn is_page_active(&self, pfn: u64) -> (r: bool)
        ensures
            r == page_active(self@, pfn),
    {
        if pfn / 8 >= self.data.len() as u64 {
            return false;
        }
        let byte = self.data[(pfn / 8) as usize];
        let bit = (pfn % 8) as u8;
        byte & (1u8 << bit) == 0
    }
}

/// A frame whose byte lies at or beyond the end of the snapshot is never active.
pub proof fn lemma_beyond_snapshot_inactive(bitmap: Seq<u8>, pfn: u64)
    requires
        pfn / 8 >= bitmap.len(),
    ensures
        !page_active(bitmap, pfn),
{
}

/// Inside the snapshot, a frame is active exactly when its bit is clear;
/// clearing its bit makes it active and setting its bit makes it inactive,
/// and neither touches the state of any other frame.
pub proof fn lemma_bit_round_trip(bitmap: Seq<u8>, pfn: u64, other: u64)
    requires
        pfn / 8 < bitmap.len(),
        other != pfn,
    ensures
        page_active(mark_accessed(bitmap, pfn), pfn),
        !page_active(mark_idle(bitmap, pfn), pfn),
        page_active(mark_accessed(bitmap, pfn), other) == page_active(bitmap, other),
        page_active(mark_idle(bitmap, pfn), other) == page_active(bitmap, other),
{
    let b = bitmap[(pfn / 8) as int];
    let s = (pfn % 8) as u8;
    assert(s < 8);
    assert((b & !(1u8 << s)) & (1u8 << s) == 0) by (bit_vector)
        requires s < 8u8;
    assert((b | (1u8 << s)) & (1u8 << s) != 0) by (bit_vector)
        requires s < 8u8;
    if other / 8 == pfn / 8 {
        let t = (other % 8) as u8;
        assert(t < 8);
        assert(t != s) by {
            assert(other == (other / 8) * 8 + other % 8);
            assert(pfn == (pfn / 8) * 8 + pfn % 8);
        }
        assert((b & !(1u8 << s)) & (1u8 << t) == b & (1u8 << t)) by (bit_vector)
            requires s < 8u8, t < 8u8, s != t;
        assert((b | (1u8 << s)) & (1u8 << t) == b & (1u8 << t)) by (bit_vector)
            requires s < 8u8, t < 8u8, s != t;
    }
}

/// A snapshot taken right after a reset, with nothing touched in between,
/// is all ones: no frame in it is active.
pub proof fn lemma_reset_snapshot_all_inactive(bitmap: Seq<u8>, pfn: u64)
    requires
        forall|i: int| 0 <= i < bitmap.len() ==> bitmap[i] == ALL_IDLE,
    ensures
        !page_active(bitmap, pfn),
{
    let s = (pfn % 8) as u8;
    assert(0xffu8 & (1u8 << s) != 0) by (bit_vector)
        requires s < 8u8;
}

} // verus!
