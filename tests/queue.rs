use gimbal_motion::cmd::{dispatch_next, Cmd, CommandQueue};
use gimbal_motion::gcode::Gcode;
use gimbal_motion::gimbal::{AxisIo, Axis, Gimbal, GimbalError, Level};

/// Pins that never move and an endstop that always reads active.
struct AtHome;

impl AxisIo for AtHome {
    fn set_direction(&mut self, _axis: Axis, _level: Level) {}
    fn set_step(&mut self, _axis: Axis, _level: Level) {}
    fn delay_us(&mut self, _us: u32) {}
    fn read_endstop(&mut self, _axis: Axis) -> Level {
        Level::Low
    }
}

fn gimbal() -> Gimbal<AtHome> {
    Gimbal::new(AtHome, 160, 16, 128, 16, 30_000, 30_000)
}

#[test]
fn commands_are_applied_in_queue_order() {
    let mut q = CommandQueue::new();
    let mut g = gimbal();
    q.push_back(Cmd::ProcessGcode(Gcode::M1SetVelocity(Some(1_000), None)));
    q.push_back(Cmd::ProcessGcode(Gcode::M1SetVelocity(Some(2_000), None)));
    assert_eq!(dispatch_next(&mut q, &mut g), Some(Ok(())));
    assert_eq!(g.axis_velocity(Axis::Pan), 1_000);
    assert_eq!(q.len(), 1);
    assert_eq!(dispatch_next(&mut q, &mut g), Some(Ok(())));
    assert_eq!(g.axis_velocity(Axis::Pan), 2_000);
    assert_eq!(q.len(), 0);
    assert_eq!(dispatch_next(&mut q, &mut g), None);
}

#[test]
fn a_clear_drops_pending_commands() {
    let mut q = CommandQueue::new();
    let mut g = gimbal();
    q.push_back(Cmd::ClearCmdQueue);
    q.push_back(Cmd::ProcessGcode(Gcode::M1SetVelocity(Some(1_000), None)));
    q.push_back(Cmd::ProcessGcode(Gcode::M1SetVelocity(Some(2_000), None)));
    assert_eq!(dispatch_next(&mut q, &mut g), None);
    assert_eq!(q.len(), 0);
    assert_eq!(g.axis_velocity(Axis::Pan), 30_000);
}

#[test]
fn take_next_hands_out_the_oldest() {
    let mut q = CommandQueue::new();
    q.push_back(Cmd::ProcessGcode(Gcode::G28Home));
    q.push_back(Cmd::ProcessGcode(Gcode::G90SetAbsolute));
    assert_eq!(q.take_next(), Some(Gcode::G28Home));
    assert_eq!(q.pop_front(), Some(Cmd::ProcessGcode(Gcode::G90SetAbsolute)));
    assert_eq!(q.pop_front(), None);
    q.push_back(Cmd::ProcessGcode(Gcode::G28Home));
    q.clear();
    assert_eq!(q.take_next(), None);
}

#[test]
fn lines_are_parsed_before_they_are_queued() {
    let mut q = CommandQueue::new();
    assert_eq!(q.push_gcode("G1 P50 T60"), Ok(()));
    assert_eq!(q.push_gcode("Q1"), Err("invalid gcode: Q1".to_string()));
    assert_eq!(q.len(), 1);
    assert_eq!(q.pop_front(), Some(Cmd::ProcessGcode(Gcode::G1Move(Some(50_000), Some(60_000)))));
}

#[test]
fn the_queue_runs_homing_then_moves() {
    let mut q = CommandQueue::new();
    let mut g = gimbal();
    q.push_gcode("G1 P1").unwrap();
    q.push_gcode("G28").unwrap();
    q.push_gcode("G1 P1").unwrap();
    assert_eq!(dispatch_next(&mut q, &mut g), Some(Err(GimbalError::NotHomed)));
    // fail-stop: the rest is skipped
    assert_eq!(dispatch_next(&mut q, &mut g), None);
    assert_eq!(dispatch_next(&mut q, &mut g), None);
    assert!(!g.is_home_referenced());

    let mut g = gimbal();
    q.push_gcode("G28").unwrap();
    q.push_gcode("G1 P1 T1").unwrap();
    assert_eq!(dispatch_next(&mut q, &mut g), Some(Ok(())));
    assert_eq!(dispatch_next(&mut q, &mut g), Some(Ok(())));
    assert_eq!(g.pos_steps(), (88, 71));
}
