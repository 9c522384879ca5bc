use stm32_utils::controls::{
    breathing_ramp_down, breathing_ramp_up, buzzer_level, count_event, next_speed,
    on_channel_a_falling, on_channel_b_falling, read_button_step, set_speed_direction, turn_led,
    turn_off_led, ButtonState, ButtonStep,
};

fn run(samples: &[bool]) -> ButtonStep {
    let mut step = ButtonStep::Pending(ButtonState::Idle);
    for &s in samples {
        if let ButtonStep::Pending(state) = step {
            step = read_button_step(state, s);
        }
    }
    step
}

#[test]
fn button_not_pressed_reads_zero() {
    assert_eq!(run(&[true]), ButtonStep::Done(0));
    assert_eq!(run(&[true, false, true]), ButtonStep::Done(0));
}

#[test]
fn button_press_and_release_reads_one() {
    assert_eq!(run(&[false, false, false, true]), ButtonStep::Done(1));
    assert_eq!(run(&[false, true]), ButtonStep::Done(1));
}

#[test]
fn button_held_keeps_waiting() {
    assert_eq!(run(&[false, false]), ButtonStep::Pending(ButtonState::Held));
    assert_eq!(run(&[]), ButtonStep::Pending(ButtonState::Idle));
}

#[test]
fn led_toggles_and_turns_off_high() {
    assert!(!turn_led(true));
    assert!(turn_led(false));
    assert!(turn_led(turn_led(true)));
    assert!(turn_off_led());
}

#[test]
fn buzzer_follows_inverted_sensor() {
    assert!(!buzzer_level(true));
    assert!(buzzer_level(false));
}

#[test]
fn motor_direction_pins() {
    assert_eq!(set_speed_direction(0), (true, false));
    assert_eq!(set_speed_direction(100), (true, false));
    assert_eq!(set_speed_direction(-20), (false, true));
}

#[test]
fn motor_speed_cycle() {
    let mut s: i8 = 0;
    let mut seen = Vec::new();
    for _ in 0..11 {
        s = next_speed(s);
        seen.push(s);
    }
    assert_eq!(seen, vec![20, 40, 60, 80, 100, -100, -80, -60, -40, -20, 0]);
}

#[test]
fn counters_wrap() {
    assert_eq!(count_event(0), 1);
    assert_eq!(count_event(u32::MAX), 0);
    assert_eq!(on_channel_a_falling(5, true), 4);
    assert_eq!(on_channel_a_falling(5, false), 5);
    assert_eq!(on_channel_b_falling(5, true), 6);
    assert_eq!(on_channel_b_falling(5, false), 5);
    assert_eq!(on_channel_a_falling(i32::MIN, true), i32::MAX);
    assert_eq!(on_channel_b_falling(i32::MAX, true), i32::MIN);
    assert_eq!(on_channel_a_falling(on_channel_b_falling(-3, true), true), -3);
}

#[test]
fn breathing_ramps() {
    let up = breathing_ramp_up(1000);
    assert_eq!(up.len(), 101);
    assert_eq!(up[0], 0);
    assert_eq!(up[1], 10);
    assert_eq!(up[100], 1000);
    let down = breathing_ramp_down(1000);
    assert_eq!(down.len(), 101);
    assert_eq!(down[0], 1000);
    assert_eq!(down[100], 0);
    let up = breathing_ramp_up(1099);
    assert_eq!(up.len(), 110);
    assert_eq!(*up.last().unwrap(), 1090);
    let down = breathing_ramp_down(1099);
    assert_eq!(down.len(), 110);
    assert_eq!(*down.last().unwrap(), 9);
    let up = breathing_ramp_up(100);
    assert_eq!(up, (0..=100).collect::<Vec<u16>>());
}
