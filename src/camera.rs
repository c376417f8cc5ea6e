//! The free-fly camera pose and how held keys move it from one frame to the next.
//!
//! The pose is kept in fixed point: translations in millionths of a scene unit,
//! angles in microradians, and frame time in microseconds. A held movement key
//! moves the camera by `MOVE_RATE` millionths of a unit per microsecond (twenty
//! units a second) and a held turning key turns it by `TURN_RATE` microradian per
//! microsecond (one radian a second), so a frame's change is exact and linear in
//! its duration.
use vstd::prelude::*;
use crate::input::{HeldKeys, Key};

verus! {

/// Translation speed, in millionths of a unit per microsecond.
pub const MOVE_RATE: i64 = 20;

/// Turning speed, in microradians per microsecond.
pub const TURN_RATE: i64 = 1;

/// The camera's translation and its two angles.
#[derive(Debug, Clone, Copy, PartialEq, Eq, Structural)]
pub struct CameraPose {
    pub x: i64,
    pub y: i64,
    pub z: i64,
    /// Rotation about the x axis.
    pub pitch: i64,
    /// Rotation about the y axis.
    pub yaw: i64,
}

/// The components of a pose, numbered 0 to 4: x, y, z, pitch, yaw.
pub open spec fn component(p: CameraPose, axis: int) -> int {
    if axis == 0 {
        p.x as int
    } else if axis == 1 {
        p.y as int
    } else if axis == 2 {
        p.z as int
    } else if axis == 3 {
        p.pitch as int
    } else {
        p.yaw as int
    }
}

/// `speed` when `plus` alone of the two keys is held, `-speed` when `minus`
/// alone is, 0 otherwise.
pub open spec fn pair(keys: Seq<Key>, plus: Key, minus: Key, speed: int) -> int {
    (if keys.contains(plus) {
        speed
    } else {
        0
    }) - (if keys.contains(minus) {
        speed
    } else {
        0
    })
}

/// How fast the held keys move component `axis`, per microsecond. A and D move
/// along x, left shift and space along y, W and S along z; the arrow keys turn
/// the camera, up and down about the x axis, left and right about the y axis.
/// Two keys of one pair that are held together cancel.
pub open spec fn rate(keys: Seq<Key>, axis: int) -> int {
    if axis == 0 {
        pair(keys, Key::A, Key::D, MOVE_RATE as int)
    } else if axis == 1 {
        pair(keys, Key::LShift, Key::Space, MOVE_RATE as int)
    } else if axis == 2 {
        pair(keys, Key::W, Key::S, MOVE_RATE as int)
    } else if axis == 3 {
        pair(keys, Key::Down, Key::Up, TURN_RATE as int)
    } else {
        pair(keys, Key::Right, Key::Left, TURN_RATE as int)
    }
}

/// How far a frame of `dt` microseconds moves component `axis`.
pub open spec fn frame_delta(keys: Seq<Key>, dt: int, axis: int) -> int {
    rate(keys, axis) * dt
}

/// The keys that move or turn the camera.
pub open spec fn is_movement_key(k: Key) -> bool {
    match k {
        Key::Escape | Key::Other(_) => false,
        _ => true,
    }
}

/// Every component of the pose after the frame fits in an `i64`.
pub open spec fn frame_fits(p: CameraPose, keys: Seq<Key>, dt: int) -> bool {
    forall|axis: int|
        0 <= axis < 5 ==> i64::MIN <= #[trigger] component(p, axis) + frame_delta(keys, dt, axis) <= i64::MAX
}

/// The rate that a pair of opposite keys gives.
fn pair_rate(keys: &HeldKeys, plus: Key, minus: Key, speed: i64) -> (r: i64)
    requires
        0 <= speed <= MOVE_RATE,
    ensures
        r == pair(keys@, plus, minus, speed as int),
{
    let p: i64 = if keys.contains(plus) { speed } else { 0 };
    let m: i64 = if keys.contains(minus) { speed } else { 0 };
    p - m
}

/// `v + speed * dt`, when it fits in an `i64`.
fn shifted(v: i64, speed: i64, dt: u64) -> (r: Option<i64>)
    requires
        -MOVE_RATE <= speed <= MOVE_RATE,
    ensures
        r.is_some() <==> i64::MIN <= v + speed * dt <= i64::MAX,
        r.is_some() ==> r.unwrap() == v + speed * dt,
{
    assert(-(MOVE_RATE as int) * (u64::MAX as int) <= speed * dt <= (MOVE_RATE as int) * (u64::MAX as int))
        by (nonlinear_arith)
        requires
            -MOVE_RATE <= speed <= MOVE_RATE,
            0 <= dt <= u64::MAX,
    ;
    let s: i128 = v as i128 + (speed as i128) * (dt as i128);
    if s < i64::MIN as i128 || s > i64::MAX as i128 {
        None
    } else {
        Some(s as i64)
    }
}

impl CameraPose {
    /// The pose a frame starts from: two units back along z, looking ahead.
    pub fn initial() -> (r: Self)
        ensures
            r.x == 0 && r.y == 0 && r.z == -2_000_000 && r.pitch == 0 && r.yaw == 0,
    {
        CameraPose { x: 0, y: 0, z: -2_000_000, pitch: 0, yaw: 0 }
    }

    /// The pose after a frame of `dt` microseconds with `keys` held: each
    /// component moves by its rate times `dt`; keys that neither move nor turn
    /// the camera change nothing. `None` when a component would leave the `i64`
    /// range.
    pub fn advance(&self, keys: &HeldKeys, dt: u64) -> (r: Option<CameraPose>)
        ensures
            r.is_some() <==> frame_fits(*self, keys@, dt as int),
            r.is_some() ==> forall|axis: int|
                0 <= axis < 5 ==> #[trigger] component(r.unwrap(), axis) == component(*self, axis)
                    + frame_delta(keys@, dt as int, axis),
    {
        let rx = pair_rate(keys, Key::A, Key::D, MOVE_RATE);
        let ry = pair_rate(keys, Key::LShift, Key::Space, MOVE_RATE);
        let rz = pair_rate(keys, Key::W, Key::S, MOVE_RATE);
        let rp = pair_rate(keys, Key::Down, Key::Up, TURN_RATE);
        let rw = pair_rate(keys, Key::Right, Key::Left, TURN_RATE);
        let ghost ks = keys@;
        let ghost d = dt as int;
        assert(rx * d == frame_delta(ks, d, 0));
        assert(ry * d == frame_delta(ks, d, 1));
        assert(rz * d == frame_delta(ks, d, 2));
        assert(rp * d == frame_delta(ks, d, 3));
        assert(rw * d == frame_delta(ks, d, 4));
        let ox = shifted(self.x, rx, dt);
        let oy = shifted(self.y, ry, dt);
        let oz = shifted(self.z, rz, dt);
        let op = shifted(self.pitch, rp, dt);
        let ow = shifted(self.yaw, rw, dt);
        assert(frame_fits(*self, ks, d) <==> ox.is_some() && oy.is_some() && oz.is_some() && op.is_some()
            && ow.is_some()) by {
            assert(component(*self, 0) == self.x);
            assert(component(*self, 1) == self.y);
            assert(component(*self, 2) == self.z);
            assert(component(*self, 3) == self.pitch);
            assert(component(*self, 4) == self.yaw);
        }
        match (ox, oy, oz, op, ow) {
            (Some(x), Some(y), Some(z), Some(pitch), Some(yaw)) => Some(CameraPose { x, y, z, pitch, yaw }),
            _ => None,
        }
    }

    /// The pose the render loop carries into the next frame. Without a snapshot
    /// of the held keys (the input lock was busy) the pose stays as it is; it
    /// also stays when the frame would carry a component out of the `i64` range.
    pub fn next_pose(&self, keys: Option<&HeldKeys>, dt: u64) -> (r: CameraPose)
        ensures
            match keys {
                Some(k) => if frame_fits(*self, k@, dt as int) {
                    forall|axis: int|
                        0 <= axis < 5 ==> #[trigger] component(r, axis) == component(*self, axis) + frame_delta(
                            k@,
                            dt as int,
                            axis,
                        )
                } else {
                    r == *self
                },
                None => r == *self,
            },
    {
        match keys {
            Some(k) => match self.advance(k, dt) {
                Some(p) => p,
                None => *self,
            },
            None => *self,
        }
    }
}

/// A frame's change of pose grows linearly with its duration: twice the time,
/// twice the change; and two frames with the same keys held move the camera as
/// far as one frame as long as both.
pub proof fn lemma_frame_delta_linear(keys: Seq<Key>, dt: int, dt2: int, axis: int)
    ensures
        frame_delta(keys, 2 * dt, axis) == 2 * frame_delta(keys, dt, axis),
        frame_delta(keys, dt + dt2, axis) == frame_delta(keys, dt, axis) + frame_delta(keys, dt2, axis),
{
    let r = rate(keys, axis);
    assert(r * (2 * dt) == 2 * (r * dt)) by (nonlinear_arith);
    assert(r * (dt + dt2) == r * dt + r * dt2) by (nonlinear_arith);
}

/// With no movement key held, a frame of any length leaves the pose as it was.
pub proof fn lemma_no_movement_key_no_change(p: CameraPose, keys: Seq<Key>, dt: int)
    requires
        forall|k: Key| #[trigger] keys.contains(k) ==> !is_movement_key(k),
    ensures
        frame_fits(p, keys, dt),
        forall|axis: int| 0 <= axis < 5 ==> #[trigger] frame_delta(keys, dt, axis) == 0,
{
    assert(!keys.contains(Key::A) && !keys.contains(Key::D) && !keys.contains(Key::W) && !keys.contains(Key::S));
    assert(!keys.contains(Key::Space) && !keys.contains(Key::LShift));
    assert(!keys.contains(Key::Up) && !keys.contains(Key::Down));
    assert(!keys.contains(Key::Left) && !keys.contains(Key::Right));
    assert forall|axis: int| 0 <= axis < 5 implies #[trigger] frame_delta(keys, dt, axis) == 0 by {
        assert(rate(keys, axis) == 0);
    }
    assert forall|axis: int| 0 <= axis < 5 implies i64::MIN <= #[trigger] component(p, axis) + frame_delta(
        keys,
        dt,
        axis,
    ) <= i64::MAX by {
        assert(frame_delta(keys, dt, axis) == 0);
    }
}

/// Once the only movement key held is released, the next frame leaves the pose
/// as it was, however long the frame: `after` is what `HeldKeys::release(k)`
/// leaves of `before`.
pub proof fn lemma_release_last_movement_key(before: Seq<Key>, after: Seq<Key>, k: Key, p: CameraPose, dt: int)
    requires
        after.to_set() == before.to_set().remove(k),
        forall|m: Key| #[trigger] before.contains(m) && is_movement_key(m) ==> m == k,
    ensures
        frame_fits(p, after, dt),
        forall|axis: int| 0 <= axis < 5 ==> #[trigger] frame_delta(after, dt, axis) == 0,
{
    assert forall|m: Key| after.contains(m) implies !is_movement_key(m) by {
        assert(after.to_set().contains(m));
        assert(before.to_set().contains(m));
    }
    lemma_no_movement_key_no_change(p, after, dt);
}

} // verus!
