//! The decisions of one control cycle: from the scaled difference of the two
//! channel estimates to the steering duty, and from the enable switch to
//! what is written to the enable output and the two wheels.

use vstd::prelude::*;
use crate::limit::{data_limit, limited};
use crate::window::Window;

verus! {

/// The number of samples of each channel that enter an estimate.
pub const WINDOW_SIZE: usize = 16;

/// The steering duty that holds the wheels straight.
pub const STEER_CENTER: u16 = 745;

/// The least steering duty.
pub const STEER_MIN: u16 = 685;

/// The greatest steering duty.
pub const STEER_MAX: u16 = 805;

/// The target speed of both wheels while the drive is enabled.
pub const WHEEL_SPEED: i32 = 800;

/// The wheel level that stands for full power.
pub const WHEEL_FULL_SCALE: i32 = 4800;

/// The steering duty for a scaled difference: the centre, moved against the
/// difference by no more than the steering range allows.
pub open spec fn steer_duty_of(scaled_diff: int) -> int {
    STEER_CENTER - limited(scaled_diff, STEER_MIN - STEER_CENTER, STEER_MAX - STEER_CENTER)
}

/// The target speed of each wheel: `WHEEL_SPEED` while the drive is enabled,
/// zero otherwise.
pub open spec fn wheel_target_of(enabled: bool) -> int {
    if enabled {
        WHEEL_SPEED as int
    } else {
        0
    }
}

/// The level of a wheel at a target speed: the speed itself forward, and
/// counted down from full scale in reverse.
pub open spec fn wheel_level(speed: int) -> int {
    if speed >= 0 {
        speed
    } else {
        WHEEL_FULL_SCALE + speed
    }
}

/// The duty of a wheel at a target speed: the whole number of full scales in
/// its level, times the greatest duty of the channel. A level below full
/// scale gives no duty.
pub open spec fn wheel_duty_of(speed: int, max_duty: int) -> int {
    (wheel_level(speed) / (WHEEL_FULL_SCALE as int)) * max_duty
}

/// What is written to one wheel.
#[derive(Clone, Copy, Debug, PartialEq, Eq, Structural)]
pub struct WheelCommand {
    /// The state of the direction pin: set for reverse.
    pub reverse: bool,
    /// The duty of the wheel's channel.
    pub duty: u16,
}

/// What is written to the drive in one cycle.
#[derive(Clone, Copy, Debug, PartialEq, Eq, Structural)]
pub struct DriveCommand {
    /// The state of the enable output.
    pub enable: bool,
    /// The left wheel.
    pub left: WheelCommand,
    /// The right wheel.
    pub right: WheelCommand,
}

/// The window of one channel before its first sample: `WINDOW_SIZE` entries,
/// all zero.
pub fn channel_window() -> (w: Window)
    ensures
        w@ == Seq::new(WINDOW_SIZE as nat, |i: int| 0i32),
{
    Window::new(WINDOW_SIZE).unwrap()
}

/// The steering duty for the scaled difference of the two estimates.
///
/// The offset from the centre is the difference bounded into the steering
/// range, and the duty never leaves `[STEER_MIN, STEER_MAX]`.
pub fn steer_duty(scaled_diff: i32) -> (duty: u16)
    ensures
        duty == steer_duty_of(scaled_diff as int),
        STEER_MIN <= duty <= STEER_MAX,
{
    let center: i32 = STEER_CENTER as i32;
    let offset: i32 = data_limit(scaled_diff, STEER_MIN as i32 - center, STEER_MAX as i32 - center);
    (center - offset) as u16
}

/// The target speed of each wheel: `WHEEL_SPEED` while the drive is enabled,
/// zero otherwise.
pub fn wheel_target(enabled: bool) -> (speed: i32)
    ensures
        speed == wheel_target_of(enabled),
{
    if enabled {
        WHEEL_SPEED
    } else {
        0
    }
}

/// What is written to a wheel for a target speed, on a channel whose
/// greatest duty is `max_duty`.
///
/// The level and the duty must fit the 16 bits of a duty value.
pub fn wheel_command(speed: i32, max_duty: u16) -> (r: WheelCommand)
    requires
        0 <= wheel_level(speed as int) <= u16::MAX,
        wheel_duty_of(speed as int, max_duty as int) <= u16::MAX,
    ensures
        r.reverse == (speed < 0),
        r.duty == wheel_duty_of(speed as int, max_duty as int),
{
    let reverse: bool = speed < 0;
    let level: u16 = if reverse {
        (WHEEL_FULL_SCALE + speed) as u16
    } else {
        speed as u16
    };
    let scales: u16 = level / (WHEEL_FULL_SCALE as u16);
    assert(scales as int * max_duty as int == wheel_duty_of(speed as int, max_duty as int));
    WheelCommand { reverse, duty: scales * max_duty }
}

/// What is written to the drive for a state of the enable switch, on wheel
/// channels whose greatest duty is `max_duty`.
///
/// The enable output follows the switch, and both wheels get the command
/// for the target speed that goes with it.
pub fn drive(enabled: bool, max_duty: u16) -> (r: DriveCommand)
    ensures
        r.enable == enabled,
        r.left == r.right,
        r.left.reverse == (wheel_target_of(enabled) < 0),
        r.left.duty == wheel_duty_of(wheel_target_of(enabled), max_duty as int),
{
    let speed: i32 = wheel_target(enabled);
    assert(wheel_level(speed as int) / (WHEEL_FULL_SCALE as int) == 0);
    let wheel: WheelCommand = wheel_command(speed, max_duty);
    DriveCommand { enable: enabled, left: wheel, right: wheel }
}

} // verus!
