use gimbal_motion::gimbal::Axis;
use gimbal_motion::motor::{
    num_steps, pulse_half_period_us, steps_per_degree, steps_per_second,
    MOTOR_MICRO_STEPS_PER_REVOLUTION,
};
use gimbal_motion::mv::Move;

#[test]
fn test_num_steps() {
    let move_instance = Move { axis: Axis::Pan, degrees: 180_000 };

    let drive_teeth = 10;
    let driven_teeth = 20;

    // half a turn of the axis is a whole turn of the motor: 3200 microsteps
    let expected_output = 3200;
    assert_eq!(move_instance.num_steps(drive_teeth, driven_teeth), expected_output);
}

#[test]
fn steps_per_degree_of_a_ten_to_one_train() {
    let s = steps_per_degree(16, 160);
    assert_eq!(MOTOR_MICRO_STEPS_PER_REVOLUTION, 3200);
    assert_eq!(s.numerator(), 3200 * 160);
    assert_eq!(s.denominator(), 360 * 16);
    let v = s.numerator() as f64 / s.denominator() as f64;
    assert!((v - 88.8888).abs() < 0.001);
}

#[test]
fn num_steps_is_the_floor_of_the_magnitude() {
    let s = steps_per_degree(16, 160);
    assert_eq!(num_steps(1_000, s), 88);
    assert_eq!(num_steps(-1_000, s), 88);
    assert_eq!(num_steps(4_000, s), 355);
    assert_eq!(num_steps(-200, s), 17);
    assert_eq!(num_steps(0, s), 0);
    assert_eq!(num_steps(50_000, s), 4444);
    assert_eq!(num_steps(i32::MIN, s), 190_887_435);
}

#[test]
fn step_rate_and_pulse_timing() {
    let s = steps_per_degree(16, 160);
    assert_eq!(steps_per_second(30_000, s), 2666);
    assert_eq!(steps_per_second(6_000, s), 533);
    assert_eq!(steps_per_second(-30_000, s), 0);
    assert_eq!(steps_per_second(0, s), 0);
    assert_eq!(pulse_half_period_us(2666), 187);
    assert_eq!(pulse_half_period_us(533), 938);
    assert_eq!(pulse_half_period_us(1), 500_000);
}
