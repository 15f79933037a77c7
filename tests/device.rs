use encoder_protocol::device::step_count;
use encoder_protocol::{Accumulator, Direction, Telemetry};

#[test]
fn priming_sweeps_are_discarded() {
    let mut a = Accumulator::new();
    let cw = [Direction::Clockwise; 8];
    for _ in 0..4 {
        a.on_sweep(&cw);
    }
    assert_eq!(a.counts(), [0; 8]);
    a.on_sweep(&cw);
    assert_eq!(a.counts(), [1; 8]);
    let mut mixed = [Direction::Stationary; 8];
    mixed[2] = Direction::Anticlockwise;
    a.on_sweep(&mixed);
    assert_eq!(a.counts(), [1, 1, 0, 1, 1, 1, 1, 1]);
}

#[test]
fn counts_wrap_at_i32_bounds() {
    assert_eq!(step_count(i32::MAX, Direction::Clockwise), i32::MIN);
    assert_eq!(step_count(i32::MIN, Direction::Anticlockwise), i32::MAX);
    assert_eq!(step_count(5, Direction::Stationary), 5);
}

#[test]
fn telemetry_numbers_frames_from_zero() {
    let mut t = Telemetry::new();
    let f0 = t.next_frame([0; 8]);
    assert_eq!(f0.as_str(), "$0:0,0,0,0,0,0,0,0*26\n");
    let f1 = t.next_frame([1, -2, 3, -4, 5, -6, 7, -8]);
    assert!(f1.as_str().starts_with("$1:1,-2,3,-4,5,-6,7,-8*"));
}
