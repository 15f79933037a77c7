use encoder_protocol::{DecodeError, LineOutcome, ReaderCore};

const FRAME_A: &str = "$123:1,-2,3,-4,5,-6,7,-8*2E\n";
const FRAME_B: &str = "$42:1,-2,3,-4,5,-6,7,-8*18\n";

#[test]
fn reader_starts_with_zero_snapshot() {
    let r = ReaderCore::new();
    assert_eq!(r.get_sequence(), 0);
    assert_eq!(r.get_counts(), [0; 8]);
    assert!(r.is_running());
}

#[test]
fn reader_publishes_valid_frame() {
    let mut r = ReaderCore::new();
    assert_eq!(r.on_line(FRAME_A), LineOutcome::Published);
    assert_eq!(r.get_sequence(), 123);
    assert_eq!(r.get_counts(), [1, -2, 3, -4, 5, -6, 7, -8]);
}

#[test]
fn republishing_same_frame_is_idempotent() {
    let mut r = ReaderCore::new();
    r.on_line(FRAME_A);
    let first = r.snapshot();
    r.on_line(FRAME_A);
    assert_eq!(r.snapshot(), first);
    assert_eq!(r.get_sequence(), 123);
}

#[test]
fn malformed_line_between_frames_is_skipped() {
    let mut r = ReaderCore::new();
    r.on_line(FRAME_A);
    assert_eq!(
        r.on_line("$123:0,1,2,3,4,5,6,7*00"),
        LineOutcome::Rejected(DecodeError::ChecksumMismatch)
    );
    assert_eq!(r.get_sequence(), 123);
    assert_eq!(r.on_line(FRAME_B), LineOutcome::Published);
    assert_eq!(r.get_sequence(), 42);
}

#[test]
fn timeout_changes_nothing() {
    let mut r = ReaderCore::new();
    r.on_line(FRAME_B);
    r.on_timeout();
    assert!(r.is_running());
    assert_eq!(r.get_sequence(), 42);
}

#[test]
fn disconnect_freezes_snapshot() {
    let mut r = ReaderCore::new();
    r.on_line(FRAME_B);
    r.on_disconnect();
    assert!(!r.is_running());
    assert_eq!(r.on_line(FRAME_A), LineOutcome::Stopped);
    r.on_timeout();
    for _ in 0..3 {
        assert_eq!(r.get_sequence(), 42);
        assert_eq!(r.get_counts(), [1, -2, 3, -4, 5, -6, 7, -8]);
    }
}

#[test]
fn non_sensor_message_is_ignored() {
    let mut r = ReaderCore::new();
    r.on_line(FRAME_B);
    assert_eq!(r.on_line("$RST:3*5C\n"), LineOutcome::Ignored);
    assert_eq!(r.get_sequence(), 42);
}
