//! Motion control for a two-axis (pan/tilt) stepper gimbal: a small gcode
//! dialect, exact step arithmetic, a homing state machine and the command
//! queue that feeds the control loop.
//!
//! Angles and velocities are fixed-point numbers in thousandths of a degree
//! (and thousandths of a degree per second).

pub mod motor;
pub mod gcode;
pub mod gimbal;
pub mod cmd;
pub mod mv;
