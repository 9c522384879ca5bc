//! The decision rules of the demo programs, apart from the pins and timers
//! they drive: reading a push button, toggling an LED, stepping and steering
//! a DC motor, counting encoder and sensor pulses, following a light sensor,
//! and the duty cycles of a breathing LED.
use vstd::prelude::*;

verus! {

// ---------------------------------------------------------------------------
// Push button
// ---------------------------------------------------------------------------

/// Where a button read stands: no sample taken yet, or the button was seen
/// pressed (pulled low) and the read waits for its release.
#[derive(Clone, Copy, PartialEq, Eq, Structural, Debug)]
pub enum ButtonState {
    Idle,
    Held,
}

/// The outcome of one sample: keep sampling from the given state, or the
/// read is over with the key number (1 for a press and release, 0 for none).
#[derive(Clone, Copy, PartialEq, Eq, Structural, Debug)]
pub enum ButtonStep {
    Pending(ButtonState),
    Done(i32),
}

/// One step of reading a pull-up button: `pin_high` is the level just sampled.
/// The first sample decides whether the button is pressed (low); if it is,
/// the read waits for the first high sample, the release, and then reports 1.
pub fn read_button_step(state: ButtonState, pin_high: bool) -> (step: ButtonStep)
    ensures
        step == (match state {
            ButtonState::Idle => if pin_high {
                ButtonStep::Done(0)
            } else {
                ButtonStep::Pending(ButtonState::Held)
            },
            ButtonState::Held => if pin_high {
                ButtonStep::Done(1)
            } else {
                ButtonStep::Pending(ButtonState::Held)
            },
        }),
{
    match state {
        ButtonState::Idle => {
            if pin_high {
                ButtonStep::Done(0)
            } else {
                ButtonStep::Pending(ButtonState::Held)
            }
        },
        ButtonState::Held => {
            if pin_high {
                ButtonStep::Done(1)
            } else {
                ButtonStep::Pending(ButtonState::Held)
            }
        },
    }
}

/// Where a button read stands after the samples `samples` (oldest first);
/// samples taken after the read is over change nothing.
pub open spec fn run_button(samples: Seq<bool>) -> ButtonStep
    decreases samples.len(),
{
    if samples.len() == 0 {
        ButtonStep::Pending(ButtonState::Idle)
    } else {
        match run_button(samples.drop_last()) {
            ButtonStep::Done(k) => ButtonStep::Done(k),
            ButtonStep::Pending(ButtonState::Idle) => if samples.last() {
                ButtonStep::Done(0)
            } else {
                ButtonStep::Pending(ButtonState::Held)
            },
            ButtonStep::Pending(ButtonState::Held) => if samples.last() {
                ButtonStep::Done(1)
            } else {
                ButtonStep::Pending(ButtonState::Held)
            },
        }
    }
}

/// A button read reports 0 when the first sample is high (not pressed), and
/// 1 when the first sample is low (pressed) and some later sample is high
/// (released); while the button stays pressed the read keeps waiting.
pub proof fn lemma_button_read(samples: Seq<bool>)
    requires
        samples.len() > 0,
    ensures
        run_button(samples) == (if samples[0] {
            ButtonStep::Done(0)
        } else if exists|k: int| 1 <= k < samples.len() && samples[k] {
            ButtonStep::Done(1)
        } else {
            ButtonStep::Pending(ButtonState::Held)
        }),
    decreases samples.len(),
{
    if samples.len() == 1 {
        assert(samples.drop_last() =~= Seq::<bool>::empty());
    } else {
        let init = samples.drop_last();
        lemma_button_read(init);
        if !samples[0] && !(exists|k: int| 1 <= k < init.len() && init[k]) && samples.last() {
            assert(1 <= samples.len() - 1 < samples.len() && samples[samples.len() - 1]);
        }
        if exists|k: int| 1 <= k < samples.len() && samples[k] {
            let k = choose|k: int| 1 <= k < samples.len() && samples[k];
            if k < init.len() {
                assert(init[k]);
            }
        }
    }
}

// ---------------------------------------------------------------------------
// LED, light sensor
// ---------------------------------------------------------------------------

/// The pin level after toggling a pin now at `level`.
pub open spec fn toggled(level: bool) -> bool {
    !level
}

/// The level that toggles an LED whose pin is now set to `is_set_high`.
pub fn turn_led(is_set_high: bool) -> (set_high: bool)
    ensures
        set_high == toggled(is_set_high),
{
    if is_set_high {
        false
    } else {
        true
    }
}

/// The level that turns the LED off: it is wired to light when its pin is low.
pub fn turn_off_led() -> (set_high: bool)
    ensures
        set_high,
{
    true
}

/// Toggling the LED twice leaves its pin as it was.
pub proof fn lemma_toggle_twice(level: bool)
    ensures
        toggled(level) != level,
        toggled(toggled(level)) == level,
{
}

/// The buzzer level for a light sensor reading: the buzzer pin goes low
/// (sounding) while the sensor output is high, and high otherwise.
pub fn buzzer_level(sensor_high: bool) -> (buzzer_high: bool)
    ensures
        buzzer_high == !sensor_high,
{
    if sensor_high {
        false
    } else {
        true
    }
}

// ---------------------------------------------------------------------------
// DC motor
// ---------------------------------------------------------------------------

/// The levels of the two direction pins (`(pin4_high, pin5_high)`) for a
/// signed speed: forward (high, low) for zero and above, backward
/// (low, high) below zero. The two pins are never at the same level.
pub fn set_speed_direction(speed: i8) -> (levels: (bool, bool))
    ensures
        levels.0 == (speed >= 0),
        levels.1 == !levels.0,
{
    if speed >= 0 {
        (true, false)
    } else {
        (false, true)
    }
}

/// A motor speed that the speed button can reach from rest: a multiple of 20
/// between -100 and 100.
pub open spec fn valid_speed(speed: int) -> bool {
    -100 <= speed <= 100 && speed % 20 == 0
}

/// The speed after one press of the speed button: 20 more, and past 100 it
/// wraps round to full speed backward, -100.
pub open spec fn spec_next_speed(speed: int) -> int {
    if speed + 20 > 100 {
        -100
    } else {
        speed + 20
    }
}

/// The speed after one press of the speed button (see `spec_next_speed`).
pub fn next_speed(speed: i8) -> (next: i8)
    requires
        speed <= 107,
    ensures
        next == spec_next_speed(speed as int),
{
    let mut s = speed + 20;
    if s > 100 {
        s = -100;
    }
    s
}

/// Pressing `n` times from `speed`.
pub open spec fn speed_after(speed: int, n: nat) -> int
    decreases n,
{
    if n == 0 {
        speed
    } else {
        spec_next_speed(speed_after(speed, (n - 1) as nat))
    }
}

/// The speed button adds 20 up to 100 and goes from 100 to -100; it keeps
/// the speed valid, and eleven presses bring any
/// valid speed back to itself: the speeds cycle through
/// 0, 20, .., 100, -100, -80, .., -20.
pub proof fn lemma_speed_cycle(speed: int)
    requires
        valid_speed(speed),
    ensures
        valid_speed(spec_next_speed(speed)),
        speed < 100 ==> spec_next_speed(speed) == speed + 20,
        speed == 100 ==> spec_next_speed(speed) == -100,
        speed_after(speed, 11) == speed,
{
    reveal_with_fuel(speed_after, 12);
}

// ---------------------------------------------------------------------------
// Pulse counters
// ---------------------------------------------------------------------------

/// The counter after one more event (a timer tick or a sensor edge); it
/// wraps round from `u32::MAX` to 0.
pub fn count_event(count: u32) -> (next: u32)
    ensures
        next == (if count == u32::MAX {
            0
        } else {
            count + 1
        }),
{
    count.wrapping_add(1)
}

/// The count one encoder step back, wrapping round at the ends of `i32`.
pub open spec fn step_back(count: int) -> int {
    if count == i32::MIN {
        i32::MAX as int
    } else {
        count - 1
    }
}

/// The count one encoder step forward, wrapping round at the ends of `i32`.
pub open spec fn step_forward(count: int) -> int {
    if count == i32::MAX {
        i32::MIN as int
    } else {
        count + 1
    }
}

/// The encoder count after a falling edge on channel A: one step back when
/// channel B is low, unchanged otherwise.
pub fn on_channel_a_falling(count: i32, b_is_low: bool) -> (next: i32)
    ensures
        next == (if b_is_low {
            step_back(count as int)
        } else {
            count as int
        }),
{
    if b_is_low {
        count.wrapping_sub(1)
    } else {
        count
    }
}

/// The encoder count after a falling edge on channel B: one step forward
/// when channel A is low, unchanged otherwise.
pub fn on_channel_b_falling(count: i32, a_is_low: bool) -> (next: i32)
    ensures
        next == (if a_is_low {
            step_forward(count as int)
        } else {
            count as int
        }),
{
    if a_is_low {
        count.wrapping_add(1)
    } else {
        count
    }
}

/// One detent forward and one back leave the count where it was, in either
/// order, also at the ends of `i32`.
pub proof fn lemma_encoder_round_trip(count: i32)
    ensures
        step_back(step_forward(count as int)) == count,
        step_forward(step_back(count as int)) == count,
        count > i32::MIN ==> step_back(count as int) == count - 1,
        count < i32::MAX ==> step_forward(count as int) == count + 1,
{
}

// ---------------------------------------------------------------------------
// Breathing LED
// ---------------------------------------------------------------------------

/// The duty step of the breathing LED: a hundredth of the full duty.
pub open spec fn spec_breathing_step(max_duty: int) -> int {
    max_duty / 100
}

/// The number of duty values in one ramp.
pub open spec fn ramp_len(max_duty: int) -> int {
    max_duty / spec_breathing_step(max_duty) + 1
}

/// The breathing step is a hundredth of the full duty, so each half of a
/// breath has between 101 and 200 duty values, the first ramp starting at 0
/// and stepping by `max_duty / 100`, never past `max_duty`.
pub proof fn lemma_breathing_shape(max_duty: int)
    requires
        max_duty >= 100,
    ensures
        spec_breathing_step(max_duty) == max_duty / 100,
        1 <= spec_breathing_step(max_duty),
        101 <= ramp_len(max_duty) <= 200,
        (ramp_len(max_duty) - 1) * (max_duty / 100) <= max_duty,
        max_duty < ramp_len(max_duty) * (max_duty / 100),
{
    let q = max_duty / 100;
    let n = max_duty / q;
    assert(q >= 1 && 100 * q <= max_duty < 100 * q + 100) by (nonlinear_arith)
        requires
            max_duty >= 100,
            q == max_duty / 100,
    ;
    assert(100 <= n < 200 && n * q <= max_duty < n * q + q) by (nonlinear_arith)
        requires
            q >= 1,
            100 * q <= max_duty < 100 * q + 100,
            n == max_duty / q,
    ;
    assert((n + 1) * q == n * q + q) by (nonlinear_arith);
}

/// The duty values of the rising half of a breath: 0, step, 2*step, .., up
/// to the last multiple of the step that is at most `max_duty`. The step is
/// `max_duty / 100`, so `max_duty` must be at least 100.
pub fn breathing_ramp_up(max_duty: u16) -> (duties: Vec<u16>)
    requires
        max_duty >= 100,
    ensures
        duties@.len() == max_duty as int / (max_duty as int / 100) + 1,
        forall|k: int| 0 <= k < duties@.len() ==> #[trigger] duties@[k] == k * (max_duty as int / 100),
{
    let step: u32 = (max_duty / 100) as u32;
    let mut duties: Vec<u16> = Vec::new();
    let mut d: u32 = 0;
    proof {
        assert(duties@.len() * step == 0) by (nonlinear_arith)
            requires
                duties@.len() == 0,
        ;
    }
    while d <= max_duty as u32
        invariant
            step == spec_breathing_step(max_duty as int),
            step >= 1,
            d == duties@.len() * step,
            d <= max_duty as u32 + step,
            duties@.len() == 0 || (duties@.len() - 1) * step <= max_duty,
            forall|k: int| 0 <= k < duties@.len() ==> #[trigger] duties@[k] == k * step,
        decreases max_duty as u32 + step - d,
    {
        duties.push(d as u16);
        proof {
            assert((duties@.len() as int) * step == d + step) by (nonlinear_arith)
                requires
                    d == (duties@.len() - 1) * step,
            ;
        }
        d = d + step;
    }
    proof {
        let n = duties@.len() as int;
        assert(n >= 1);
        assert(n - 1 == (max_duty as int) / (step as int)) by (nonlinear_arith)
            requires
                (n - 1) * step <= max_duty,
                n * step > max_duty,
                step >= 1,
        ;
    }
    duties
}

/// The duty values of the falling half of a breath: `max_duty`,
/// `max_duty - step`, .., down to the last value that is at least 0, with the
/// same step and as many values as the rising half.
pub fn breathing_ramp_down(max_duty: u16) -> (duties: Vec<u16>)
    requires
        max_duty >= 100,
    ensures
        duties@.len() == max_duty as int / (max_duty as int / 100) + 1,
        forall|k: int| 0 <= k < duties@.len() ==> #[trigger] duties@[k] == max_duty - k * (max_duty as int / 100),
{
    let step: u32 = (max_duty / 100) as u32;
    let mut duties: Vec<u16> = Vec::new();
    let mut taken: u32 = 0;
    proof {
        assert(duties@.len() * step == 0) by (nonlinear_arith)
            requires
                duties@.len() == 0,
        ;
    }
    while taken <= max_duty as u32
        invariant
            step == spec_breathing_step(max_duty as int),
            step >= 1,
            taken == duties@.len() * step,
            taken <= max_duty as u32 + step,
            duties@.len() == 0 || (duties@.len() - 1) * step <= max_duty,
            forall|k: int| 0 <= k < duties@.len() ==> #[trigger] duties@[k] == max_duty - k * step,
        decreases max_duty as u32 + step - taken,
    {
        duties.push((max_duty as u32 - taken) as u16);
        proof {
            assert((duties@.len() as int) * step == taken + step) by (nonlinear_arith)
                requires
                    taken == (duties@.len() - 1) * step,
            ;
        }
        taken = taken + step;
    }
    proof {
        let n = duties@.len() as int;
        assert(n >= 1);
        assert(n - 1 == (max_duty as int) / (step as int)) by (nonlinear_arith)
            requires
                (n - 1) * step <= max_duty,
                n * step > max_duty,
                step >= 1,
        ;
    }
    duties
}

} // verus!
