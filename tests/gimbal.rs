use gimbal_motion::gcode::Gcode;
use gimbal_motion::gimbal::{AxisIo, Axis, Gimbal, GimbalError, Level, Phase};

/// Pins of a bench rig: each pulse moves the axis one step in the direction
/// last set, and an endstop reads low once the axis is `endstop` steps back.
#[derive(Default)]
struct SimIo {
    forward: [bool; 2],
    position: [i64; 2],
    endstop: [Option<i64>; 2],
    pulses: [u64; 2],
    reads: [u64; 2],
    step_high: [bool; 2],
    delays: Vec<u32>,
}

fn index(axis: Axis) -> usize {
    match axis {
        Axis::Pan => 0,
        Axis::Tilt => 1,
    }
}

impl AxisIo for SimIo {
    fn set_direction(&mut self, axis: Axis, level: Level) {
        self.forward[index(axis)] = level == Level::High;
    }

    fn set_step(&mut self, axis: Axis, level: Level) {
        let i = index(axis);
        if level == Level::Low && self.step_high[i] {
            self.pulses[i] += 1;
            self.position[i] += if self.forward[i] { 1 } else { -1 };
        }
        self.step_high[i] = level == Level::High;
    }

    fn delay_us(&mut self, us: u32) {
        if self.delays.last() != Some(&us) {
            self.delays.push(us);
        }
    }

    fn read_endstop(&mut self, axis: Axis) -> Level {
        let i = index(axis);
        self.reads[i] += 1;
        match self.endstop[i] {
            Some(back) if self.position[i] <= -back => Level::Low,
            _ => Level::High,
        }
    }
}

/// 16-tooth motor gears, 160-tooth axis gears: 88.9 steps per degree, so a
/// coarse round is 88 steps, the backoff 355 and a fine round 17.
fn gimbal(endstop: [Option<i64>; 2]) -> Gimbal<SimIo> {
    let io = SimIo { endstop, ..SimIo::default() };
    Gimbal::new(io, 160, 16, 160, 16, 30_000, 30_000)
}

#[test]
fn homing_finds_an_endstop_some_degrees_back() {
    for n in [1i64, 37, 360] {
        let mut g = gimbal([Some(88 * n), Some(88 * n)]);
        assert_eq!(g.home_axis(Axis::Pan), Ok(()));
        // first reading, n coarse rounds, 21 fine rounds
        assert_eq!(g.io.reads[0], 1 + n as u64 + 21);
        assert!(g.is_home(Axis::Pan));
        assert_eq!(g.axis_velocity(Axis::Pan), 30_000);
        assert_eq!(g.pos_steps(), (88 * n as u64 + 355 + 21 * 17, 0));
        // full speed, then a fifth of it
        assert_eq!(g.io.delays, vec![187, 938]);
    }
}

#[test]
fn homing_an_axis_already_home_does_nothing() {
    let mut g = gimbal([Some(0), Some(0)]);
    assert_eq!(g.home_axis(Axis::Tilt), Ok(()));
    assert_eq!(g.io.reads, [0, 1]);
    assert_eq!(g.pos_steps(), (0, 0));
}

#[test]
fn homing_without_endstop_fails_in_the_coarse_pass() {
    let mut g = gimbal([None, None]);
    assert_eq!(
        g.home_axis(Axis::Pan),
        Err(GimbalError::Homing { axis: Axis::Pan, phase: Phase::Coarse })
    );
    assert_eq!(g.io.reads[0], 361);
    assert_eq!(g.io.pulses[0], 360 * 88);
    assert_eq!(g.axis_velocity(Axis::Pan), 30_000);
    assert_eq!(
        g.process_gcode(Gcode::G28Home),
        Err(GimbalError::Homing { axis: Axis::Pan, phase: Phase::Coarse })
    );
    assert!(!g.is_home_referenced());
    assert!(!g.is_homing());
    assert_eq!(g.io.reads[1], 0);
}

#[test]
fn homing_fails_in_the_fine_pass_when_the_endstop_moves_away() {
    // the endstop reads active during the coarse pass only
    struct Flaky(SimIo);
    impl AxisIo for Flaky {
        fn set_direction(&mut self, axis: Axis, level: Level) {
            self.0.set_direction(axis, level)
        }
        fn set_step(&mut self, axis: Axis, level: Level) {
            self.0.set_step(axis, level)
        }
        fn delay_us(&mut self, us: u32) {
            self.0.delay_us(us)
        }
        fn read_endstop(&mut self, axis: Axis) -> Level {
            let level = self.0.read_endstop(axis);
            if self.0.reads[index(axis)] == 4 { Level::Low } else { let _ = level; Level::High }
        }
    }
    let io = Flaky(SimIo::default());
    let mut g = Gimbal::new(io, 160, 16, 160, 16, 30_000, 20_000);
    assert_eq!(
        g.home_axis(Axis::Tilt),
        Err(GimbalError::Homing { axis: Axis::Tilt, phase: Phase::Fine })
    );
    assert_eq!(g.io.0.reads[1], 4 + 22);
    assert_eq!(g.axis_velocity(Axis::Tilt), 20_000);
    assert_eq!(
        GimbalError::Homing { axis: Axis::Tilt, phase: Phase::Fine }.message(),
        "failed to home Tilt (fine pass)"
    );
}

#[test]
fn moves_need_homing() {
    let mut g = gimbal([Some(88 * 10), Some(88 * 20)]);
    let err = g.process_gcode(Gcode::G1Move(Some(50_000), Some(60_000))).unwrap_err();
    assert_eq!(err, GimbalError::NotHomed);
    assert_eq!(err.message(), "gimbal not homed");
    assert_eq!(g.pos_steps(), (0, 0));

    assert_eq!(g.process_gcode(Gcode::G28Home), Ok(()));
    assert!(g.is_home_referenced());
    assert!(!g.is_homing());
    // tilt reads its own endstop
    assert_eq!(g.io.reads, [1 + 10 + 21, 1 + 20 + 21]);
    let before = g.pos_steps();
    assert_eq!(g.process_gcode(Gcode::G1Move(Some(50_000), Some(60_000))), Ok(()));
    assert_eq!(g.pos_steps(), (before.0 + 4444, before.1 + 5333));
}

#[test]
fn the_step_counter_keeps_no_direction() {
    let mut g = gimbal([None, None]);
    g.move_axis(Axis::Pan, 2_000);
    g.move_axis(Axis::Pan, -2_000);
    assert_eq!(g.pos_steps(), (2 * 177, 0));
    assert_eq!(g.io.position, [0, 0]);
    g.move_axis(Axis::Tilt, 0);
    assert_eq!(g.io.pulses, [2 * 177, 0]);
    assert!(g.io.forward[1]);
}

#[test]
fn velocity_is_set_per_axis() {
    let mut g = gimbal([None, None]);
    assert_eq!(g.process_gcode(Gcode::M1SetVelocity(None, Some(6_000))), Ok(()));
    assert_eq!(g.axis_velocity(Axis::Pan), 30_000);
    assert_eq!(g.axis_velocity(Axis::Tilt), 6_000);
    g.move_axis(Axis::Tilt, 1_000);
    assert_eq!(g.io.delays, vec![938]);
    // too slow for one step per second: one step per second
    assert_eq!(g.process_gcode(Gcode::M1SetVelocity(Some(-5_000), None)), Ok(()));
    g.move_axis(Axis::Pan, 1_000);
    assert_eq!(g.io.delays, vec![938, 500_000]);
}

#[test]
fn coordinate_modes_change_nothing() {
    let mut g = gimbal([None, None]);
    assert_eq!(g.process_gcode(Gcode::G90SetAbsolute), Ok(()));
    assert_eq!(g.process_gcode(Gcode::G91SetRelative), Ok(()));
    assert_eq!(g.pos_steps(), (0, 0));
    assert_eq!(g.io.reads, [0, 0]);
}

#[test]
fn a_failure_stops_later_commands() {
    let mut g = gimbal([None, None]);
    assert_eq!(g.run_queued(Gcode::M1SetVelocity(Some(10_000), None)), Some(Ok(())));
    assert_eq!(g.last_error_message(), None);
    assert_eq!(
        g.run_queued(Gcode::G1Move(Some(1_000), None)),
        Some(Err(GimbalError::NotHomed))
    );
    assert_eq!(g.last_error_message(), Some("gimbal not homed".to_string()));
    assert_eq!(g.run_queued(Gcode::M1SetVelocity(Some(20_000), None)), None);
    assert_eq!(g.axis_velocity(Axis::Pan), 10_000);
}
