use encoder_protocol::{ResetCommand, SensorDataPacket};

#[test]
fn total_movement_sums_absolute_values() {
    let p = SensorDataPacket::new(1, [1, -2, 3, -4, 5, -6, 7, -8]);
    assert_eq!(p.total_movement(), 36);
}

#[test]
fn has_movement_detects_change() {
    let a = SensorDataPacket::new(1, [0; 8]);
    let b = SensorDataPacket::new(2, [0, 0, 0, 0, 0, 0, 0, 1]);
    assert!(b.has_movement(&a));
    assert!(!a.has_movement(&SensorDataPacket::new(9, [0; 8])));
}

#[test]
fn reset_single_and_all() {
    assert!(ResetCommand::all().resets_all());
    assert_eq!(ResetCommand::all().encoder_id, 255);
    assert!(!ResetCommand::single(3).resets_all());
    assert_eq!(ResetCommand::single(3).encoder_id, 3);
}
