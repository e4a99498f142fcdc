use ranim::readback::{aligned_bytes_per_row, copy_rows, try_finish_step, ReadbackPoll, ReadbackStep};

#[test]
fn rows_are_padded_to_256_bytes() {
    assert_eq!(aligned_bytes_per_row(100, 4), 512);
    assert_eq!(aligned_bytes_per_row(64, 4), 256);
    assert_eq!(aligned_bytes_per_row(65, 4), 512);
    assert_eq!(aligned_bytes_per_row(1, 1), 256);
    assert_eq!(aligned_bytes_per_row(0, 4), 0);
    assert_eq!(aligned_bytes_per_row(1920, 4), 7680);
}

#[test]
fn padded_rows_are_packed_tightly() {
    let view = vec![1, 2, 9, 9, 3, 4, 9, 9, 5, 6, 9, 9];
    let mut bytes = vec![0u8; 6];
    copy_rows(&view, 4, 2, 3, &mut bytes);
    assert_eq!(bytes, vec![1, 2, 3, 4, 5, 6]);
    let mut none: Vec<u8> = vec![];
    copy_rows(&[], 4, 2, 0, &mut none);
    assert!(none.is_empty());
}

#[test]
fn readback_poll_steps() {
    let step = |copy_bytes, still_pending, finished| ReadbackStep { copy_bytes, still_pending, finished };
    assert_eq!(try_finish_step(ReadbackPoll::NonePending), step(false, false, true));
    assert_eq!(try_finish_step(ReadbackPoll::Mapped), step(true, false, true));
    assert_eq!(try_finish_step(ReadbackPoll::NotYet), step(false, true, false));
    assert_eq!(try_finish_step(ReadbackPoll::Closed), step(false, false, true));
}
