use wss::idlemap::{reset_step, IdleMap, ResetStep, ALL_IDLE, IDLEMAP_BUF_SIZE};

#[test]
fn frame_beyond_bitmap_is_inactive() {
    let map = IdleMap::from_bytes(vec![0x00, 0x00]);
    assert!(!map.is_page_active(16));
    assert!(!map.is_page_active(17));
    assert!(!map.is_page_active(u64::MAX));
    let empty = IdleMap::from_bytes(Vec::new());
    assert!(!empty.is_page_active(0));
}

#[test]
fn cleared_bit_is_active_and_set_bit_is_not() {
    // Byte 1 has bit 2 set (frame 10 idle) and every other bit clear.
    let mut map = IdleMap::from_bytes(vec![0x00, 0x04]);
    assert!(map.is_page_active(9));
    assert!(!map.is_page_active(10));
    assert!(map.is_page_active(11));
    assert!(map.is_page_active(0));
    map.data[1] |= 1 << 1;
    assert!(!map.is_page_active(9));
    map.data[1] &= !(1 << 2);
    assert!(map.is_page_active(10));
}

#[test]
fn reset_buffer_marks_every_frame_idle() {
    let buf = IdleMap::reset_buffer();
    assert_eq!(buf.len(), IDLEMAP_BUF_SIZE);
    assert!(buf.iter().all(|&b| b == ALL_IDLE));
    let map = IdleMap::from_bytes(buf);
    for pfn in 0..(IDLEMAP_BUF_SIZE as u64 * 8) {
        assert!(!map.is_page_active(pfn));
    }
}

#[test]
fn bit_position_within_byte() {
    let map = IdleMap::from_bytes(vec![0xff, 0x7f]);
    assert!(!map.is_page_active(14));
    assert!(map.is_page_active(15));
}

#[test]
fn reset_polls_until_zero_length_write_or_error() {
    assert_eq!(reset_step(Some(4096)), ResetStep::WriteAgain);
    assert_eq!(reset_step(Some(1)), ResetStep::WriteAgain);
    assert_eq!(reset_step(Some(0)), ResetStep::Done);
    assert_eq!(reset_step(None), ResetStep::Failed);
}
