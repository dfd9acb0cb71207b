use line_follower::control::{
    drive, steer_duty, wheel_command, wheel_target, DriveCommand, WheelCommand, STEER_CENTER,
    STEER_MAX, STEER_MIN, WHEEL_FULL_SCALE, WHEEL_SPEED, WINDOW_SIZE,
};
use line_follower::window::MAX_WINDOW;

#[test]
fn configuration_values() {
    assert_eq!(STEER_CENTER, 745);
    assert_eq!(STEER_MIN, 685);
    assert_eq!(STEER_MAX, 805);
    assert_eq!(WHEEL_SPEED, 800);
    assert_eq!(WHEEL_FULL_SCALE, 4800);
    assert_eq!(WINDOW_SIZE, 16);
    assert!(WINDOW_SIZE <= MAX_WINDOW);
}

#[test]
fn no_difference_steers_straight() {
    assert_eq!(steer_duty(0), 745);
}

#[test]
fn steering_moves_against_the_difference() {
    assert_eq!(steer_duty(10), 735);
    assert_eq!(steer_duty(-10), 755);
    assert_eq!(steer_duty(60), 685);
    assert_eq!(steer_duty(-60), 805);
}

#[test]
fn steering_is_bounded() {
    assert_eq!(steer_duty(61), 685);
    assert_eq!(steer_duty(-61), 805);
    assert_eq!(steer_duty(i32::MAX), 685);
    assert_eq!(steer_duty(i32::MIN), 805);
    for d in -200..200 {
        let duty = steer_duty(d);
        assert!(STEER_MIN <= duty && duty <= STEER_MAX);
    }
}

#[test]
fn wheel_targets_follow_the_switch() {
    assert_eq!(wheel_target(true), 800);
    assert_eq!(wheel_target(false), 0);
}

#[test]
fn forward_wheel_below_full_scale_has_no_duty() {
    assert_eq!(wheel_command(800, 1000), WheelCommand { reverse: false, duty: 0 });
    assert_eq!(wheel_command(0, 1000), WheelCommand { reverse: false, duty: 0 });
    assert_eq!(wheel_command(4799, 1000), WheelCommand { reverse: false, duty: 0 });
}

#[test]
fn forward_wheel_at_full_scale_has_full_duty() {
    assert_eq!(wheel_command(4800, 1000), WheelCommand { reverse: false, duty: 1000 });
    assert_eq!(wheel_command(4800, u16::MAX), WheelCommand { reverse: false, duty: u16::MAX });
    assert_eq!(wheel_command(9600, 1000), WheelCommand { reverse: false, duty: 2000 });
}

#[test]
fn reverse_wheel_counts_down_from_full_scale() {
    assert_eq!(wheel_command(-800, 1000), WheelCommand { reverse: true, duty: 0 });
    assert_eq!(wheel_command(-4800, 1000), WheelCommand { reverse: true, duty: 0 });
    assert_eq!(wheel_command(-1, 1000), WheelCommand { reverse: true, duty: 0 });
}

#[test]
fn drive_follows_the_switch() {
    let on = drive(true, 1000);
    assert!(on.enable);
    assert_eq!(on.left, on.right);
    assert_eq!(on.left, wheel_command(800, 1000));
    let off = drive(false, 1000);
    assert_eq!(
        off,
        DriveCommand {
            enable: false,
            left: WheelCommand { reverse: false, duty: 0 },
            right: WheelCommand { reverse: false, duty: 0 },
        }
    );
}

#[test]
fn channel_window_starts_empty_of_samples() {
    let w = line_follower::control::channel_window();
    assert_eq!(w.capacity(), 16);
    assert_eq!(w.samples(), &[0; 16]);
}
