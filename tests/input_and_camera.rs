use gloom::camera::{CameraPose, MOVE_RATE, TURN_RATE};
use gloom::control::{apply_key_event, next_flow, Flow, WindowEvent};
use gloom::input::{HeldKeys, Key};

fn pose(x: i64, y: i64, z: i64, pitch: i64, yaw: i64) -> CameraPose {
    CameraPose { x, y, z, pitch, yaw }
}

#[test]
fn pressing_a_held_key_is_idempotent() {
    let mut keys = HeldKeys::new();
    keys.press(Key::W);
    keys.press(Key::W);
    assert_eq!(keys.len(), 1);
    keys.press(Key::Other(42));
    assert_eq!(keys.len(), 2);
    assert_eq!(keys.snapshot(), vec![Key::W, Key::Other(42)]);
}

#[test]
fn releasing_an_absent_key_is_idempotent() {
    let mut keys = HeldKeys::new();
    keys.release(Key::A);
    assert_eq!(keys.len(), 0);
    keys.press(Key::D);
    keys.release(Key::A);
    assert_eq!(keys.snapshot(), vec![Key::D]);
}

#[test]
fn releasing_keeps_the_order_of_the_rest() {
    let mut keys = HeldKeys::new();
    keys.press(Key::A);
    keys.press(Key::W);
    keys.press(Key::Up);
    keys.release(Key::W);
    assert_eq!(keys.snapshot(), vec![Key::A, Key::Up]);
    assert!(keys.contains(Key::A));
    assert!(!keys.contains(Key::W));
}

#[test]
fn initial_pose_is_two_units_back() {
    assert_eq!(CameraPose::initial(), pose(0, 0, -2_000_000, 0, 0));
}

#[test]
fn each_key_moves_its_component() {
    let p = pose(0, 0, 0, 0, 0);
    let cases = [
        (Key::A, pose(20_000, 0, 0, 0, 0)),
        (Key::D, pose(-20_000, 0, 0, 0, 0)),
        (Key::LShift, pose(0, 20_000, 0, 0, 0)),
        (Key::Space, pose(0, -20_000, 0, 0, 0)),
        (Key::W, pose(0, 0, 20_000, 0, 0)),
        (Key::S, pose(0, 0, -20_000, 0, 0)),
        (Key::Down, pose(0, 0, 0, 1_000, 0)),
        (Key::Up, pose(0, 0, 0, -1_000, 0)),
        (Key::Right, pose(0, 0, 0, 0, 1_000)),
        (Key::Left, pose(0, 0, 0, 0, -1_000)),
        (Key::Escape, pose(0, 0, 0, 0, 0)),
        (Key::Other(7), pose(0, 0, 0, 0, 0)),
    ];
    for (k, expected) in cases {
        let mut keys = HeldKeys::new();
        keys.press(k);
        assert_eq!(p.advance(&keys, 1_000), Some(expected), "{:?}", k);
    }
    assert_eq!(MOVE_RATE, 20);
    assert_eq!(TURN_RATE, 1);
}

#[test]
fn opposite_keys_cancel() {
    let mut keys = HeldKeys::new();
    keys.press(Key::A);
    keys.press(Key::D);
    keys.press(Key::W);
    let p = pose(5, 6, 7, 8, 9);
    assert_eq!(p.advance(&keys, 10), Some(pose(5, 6, 207, 8, 9)));
}

#[test]
fn doubling_frame_time_doubles_the_change() {
    let mut keys = HeldKeys::new();
    keys.press(Key::W);
    keys.press(Key::Left);
    let p = pose(100, -100, 50, 3, 4);
    let one = p.advance(&keys, 16_667).unwrap();
    let two = p.advance(&keys, 33_334).unwrap();
    assert_eq!(two.z - p.z, 2 * (one.z - p.z));
    assert_eq!(two.yaw - p.yaw, 2 * (one.yaw - p.yaw));
    assert_eq!(one.z - p.z, 333_340);
    assert_eq!(one.yaw - p.yaw, -16_667);
    assert_eq!((one.x, one.y, one.pitch), (p.x, p.y, p.pitch));
}

#[test]
fn releasing_the_only_movement_key_stops_the_camera() {
    let mut keys = HeldKeys::new();
    keys.press(Key::S);
    keys.press(Key::Other(3));
    let p = pose(1, 2, 3, 4, 5);
    assert_ne!(p.advance(&keys, 500), Some(p));
    keys.release(Key::S);
    for dt in [0, 1, 16_000, 1_000_000_000, u64::MAX] {
        assert_eq!(p.advance(&keys, dt), Some(p));
    }
}

#[test]
fn leaving_the_i64_range_gives_none() {
    let mut keys = HeldKeys::new();
    keys.press(Key::A);
    assert_eq!(pose(i64::MAX - 19, 0, 0, 0, 0).advance(&keys, 1), None);
    assert_eq!(
        pose(i64::MAX - 20, 0, 0, 0, 0).advance(&keys, 1),
        Some(pose(i64::MAX, 0, 0, 0, 0))
    );
    assert_eq!(pose(0, 0, 0, 0, 0).advance(&keys, u64::MAX), None);
}

#[test]
fn event_loop_exits_on_close_escape_or_dead_renderer() {
    assert_eq!(next_flow(WindowEvent::CloseRequested, true), Flow::Exit);
    assert_eq!(next_flow(WindowEvent::KeyPressed(Key::Escape), true), Flow::Exit);
    assert_eq!(next_flow(WindowEvent::KeyReleased(Key::Escape), true), Flow::Wait);
    assert_eq!(next_flow(WindowEvent::KeyPressed(Key::W), true), Flow::Wait);
    assert_eq!(next_flow(WindowEvent::Other, true), Flow::Wait);
    assert_eq!(next_flow(WindowEvent::Other, false), Flow::Exit);
}

#[test]
fn key_events_update_the_held_keys() {
    let mut keys = HeldKeys::new();
    apply_key_event(&mut keys, WindowEvent::KeyPressed(Key::W));
    apply_key_event(&mut keys, WindowEvent::KeyPressed(Key::A));
    apply_key_event(&mut keys, WindowEvent::KeyPressed(Key::W));
    apply_key_event(&mut keys, WindowEvent::CloseRequested);
    assert_eq!(keys.snapshot(), vec![Key::W, Key::A]);
    apply_key_event(&mut keys, WindowEvent::KeyReleased(Key::W));
    apply_key_event(&mut keys, WindowEvent::KeyReleased(Key::S));
    assert_eq!(keys.snapshot(), vec![Key::A]);
}

#[test]
fn next_pose_keeps_the_pose_without_keys_or_on_overflow() {
    let mut keys = HeldKeys::new();
    keys.press(Key::Right);
    let p = pose(0, 0, 0, 0, i64::MAX - 5);
    assert_eq!(p.next_pose(None, 1_000), p);
    assert_eq!(p.next_pose(Some(&keys), 1_000), p);
    assert_eq!(p.next_pose(Some(&keys), 5), pose(0, 0, 0, 0, i64::MAX));
}
