use maze_arena::flags::{capture_targets, pickup_target, FlagSlot, FlagStatus};

fn slot(x: i64, z: i64, status: FlagStatus) -> FlagSlot {
    FlagSlot { x, z, status }
}

#[test]
fn agent_picks_the_first_dropped_flag_in_reach() {
    let flags = vec![
        slot(0, 3_000, FlagStatus::Dropped),
        slot(1_000, 0, FlagStatus::Captured),
        slot(2_000, 0, FlagStatus::Dropped),
        slot(-1_000, 0, FlagStatus::Dropped),
    ];
    assert_eq!(pickup_target((0, 0), 3_000, false, &flags), Some(2));
    assert_eq!(pickup_target((0, 0), 3_000, true, &flags), None);
    assert_eq!(pickup_target((50_000, 0), 3_000, false, &flags), None);
    assert_eq!(pickup_target((i64::MIN, i64::MAX), u32::MAX, false, &flags), None);
}

#[test]
fn capture_point_claims_dropped_flags_in_reach() {
    let flags = vec![
        slot(100, 100, FlagStatus::Dropped),
        slot(200, 0, FlagStatus::PickedUp),
        slot(2_999, 0, FlagStatus::Dropped),
        slot(3_000, 0, FlagStatus::Dropped),
    ];
    assert_eq!(capture_targets((0, 0), 3_000, false, &flags), vec![0, 2]);
    assert!(capture_targets((0, 0), 3_000, true, &flags).is_empty());
}
