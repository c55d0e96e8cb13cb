use vstd::prelude::*;
use vstd::string::*;

use crate::gcode::Gcode;
use crate::motor::{
    num_steps, pulse_half_period_us, steps_for, steps_per_second, steps_per_second_for,
    StepsPerDegree,
};

verus! {

#[derive(Clone, Copy, Debug, PartialEq, Eq, Structural)]
pub enum Axis {
    Pan,
    Tilt,
}

/// Logic level of a digital pin.
#[derive(Clone, Copy, Debug, PartialEq, Eq, Structural)]
pub enum Level {
    High,
    Low,
}

/// The pins and the timer that a gimbal drives: a direction and a step
/// output and an endstop input per axis, and a blocking delay. Each call
/// appends what it did to `trace`.
pub trait AxisIo {
    /// Everything driven on and read from these pins so far, in order. An
    /// impl keeps it as ghost state; impls built without verification (on
    /// hardware, in tests) keep none and leave the default.
    closed spec fn trace(&self) -> Seq<IoEvent> {
        Seq::empty()
    }

    /// Drives the direction output of `axis`.
    fn set_direction(&mut self, axis: Axis, level: Level)
        ensures
            final(self).trace() == old(self).trace().push(IoEvent::Direction { axis, level }),
    ;

    /// Drives the step output of `axis`.
    fn set_step(&mut self, axis: Axis, level: Level)
        ensures
            final(self).trace() == old(self).trace().push(IoEvent::Step { axis, level }),
    ;

    /// Blocks for `us` microseconds.
    fn delay_us(&mut self, us: u32)
        ensures
            final(self).trace() == old(self).trace().push(IoEvent::Delay { us }),
    ;

    /// Reads the endstop input of `axis`; low is the active level.
    fn read_endstop(&mut self, axis: Axis) -> (r: Level)
        ensures
            final(self).trace() == old(self).trace().push(
                IoEvent::Probe { axis, active: r == Level::Low },
            ),
    ;
}

/// One call on the pins of a gimbal.
pub enum IoEvent {
    /// The direction output of `axis` was driven to `level` (high for forward).
    Direction { axis: Axis, level: Level },
    /// The step output of `axis` was driven to `level`.
    Step { axis: Axis, level: Level },
    /// A blocking wait of `us` microseconds.
    Delay { us: u32 },
    /// The endstop of `axis` was read; `active` when it read low.
    Probe { axis: Axis, active: bool },
}

/// Which pass of homing gave up.
#[derive(Clone, Copy, Debug, PartialEq, Eq, Structural)]
pub enum Phase {
    Coarse,
    Fine,
}

#[derive(Clone, Copy, Debug, PartialEq, Eq, Structural)]
pub enum GimbalError {
    /// A move was asked for before homing.
    NotHomed,
    /// Homing `axis` found no endstop in `phase`.
    Homing { axis: Axis, phase: Phase },
}

pub open spec fn other(axis: Axis) -> Axis {
    match axis {
        Axis::Pan => Axis::Tilt,
        Axis::Tilt => Axis::Pan,
    }
}

pub open spec fn axis_name(axis: Axis) -> Seq<char> {
    match axis {
        Axis::Pan => "Pan"@,
        Axis::Tilt => "Tilt"@,
    }
}

pub open spec fn message_of(e: GimbalError) -> Seq<char> {
    match e {
        GimbalError::NotHomed => "gimbal not homed"@,
        GimbalError::Homing { axis, phase } => "failed to home "@ + axis_name(axis) + match phase {
            Phase::Coarse => " (coarse pass)"@,
            Phase::Fine => " (fine pass)"@,
        },
    }
}

impl GimbalError {
    /// The text of the error.
    pub fn message(&self) -> (r: String)
        ensures
            r@ == message_of(*self),
    {
        match self {
            GimbalError::NotHomed => String::from_str("gimbal not homed"),
            GimbalError::Homing { axis, phase } => {
                let mut r = String::from_str("failed to home ");
                match axis {
                    Axis::Pan => r.append("Pan"),
                    Axis::Tilt => r.append("Tilt"),
                }
                match phase {
                    Phase::Coarse => r.append(" (coarse pass)"),
                    Phase::Fine => r.append(" (fine pass)"),
                }
                r
            },
        }
    }
}

// ---------------------------------------------------------------- moves

/// Half period of the pulses for a step rate; a rate below one step per
/// second runs at one step per second.
pub open spec fn half_period_for(steps_per_second: int) -> u32 {
    if steps_per_second <= 0 {
        500_000
    } else {
        (1_000_000int / steps_per_second / 2) as u32
    }
}

/// One step pulse: step output high, wait, low, wait.
pub open spec fn pulse(axis: Axis, half_period_us: u32) -> Seq<IoEvent> {
    seq![
        IoEvent::Step { axis, level: Level::High },
        IoEvent::Delay { us: half_period_us },
        IoEvent::Step { axis, level: Level::Low },
        IoEvent::Delay { us: half_period_us },
    ]
}

/// `n` step pulses.
pub open spec fn pulses(axis: Axis, n: nat, half_period_us: u32) -> Seq<IoEvent>
    decreases n,
{
    if n == 0 {
        Seq::empty()
    } else {
        pulses(axis, (n - 1) as nat, half_period_us) + pulse(axis, half_period_us)
    }
}

/// The level of the direction output for a turn of `degrees`.
pub open spec fn direction_level(degrees: int) -> Level {
    if degrees >= 0 {
        Level::High
    } else {
        Level::Low
    }
}

/// What a turn of `degrees` at `velocity` drives: the direction, then one
/// pulse per step.
pub open spec fn move_events(
    axis: Axis,
    degrees: int,
    velocity: int,
    s: StepsPerDegree,
) -> Seq<IoEvent> {
    seq![IoEvent::Direction { axis, level: direction_level(degrees) }] + pulses(
        axis,
        steps_for(degrees, s) as nat,
        half_period_for(steps_per_second_for(velocity, s)),
    )
}

/// A step counter advanced by `n`, held at its maximum.
pub open spec fn add_steps(pos: u64, n: int) -> u64 {
    if pos + n > u64::MAX {
        u64::MAX
    } else {
        (pos + n) as u64
    }
}

// ---------------------------------------------------------------- homing

/// One degree: the step of the coarse pass.
pub const COARSE_STEP: i32 = 1000;

/// Coarse steps tried before giving up: one turn.
pub const COARSE_ITERATIONS: u32 = 360;

/// Coarse steps backed off before the fine pass.
pub const BACKOFF_STEPS: i32 = 4;

/// How much finer, and slower, the fine pass is.
pub const FINER_BY: i32 = 5;

/// Step of the fine pass, `COARSE_STEP / FINER_BY`: 0.2 degrees.
pub const FINE_STEP: i32 = 200;

/// Fine steps tried before giving up: `floor(4 * 5 * 1.1)`.
pub const FINE_ITERATIONS: u32 = 4 * 5 * 11 / 10;

/// The velocity of the fine pass: `velocity / 5`, rounded toward zero.
pub open spec fn fine_velocity(velocity: int) -> int {
    if velocity >= 0 {
        velocity / 5
    } else {
        -((-velocity) / 5)
    }
}

/// The last endstop reading of a search was active.
pub open spec fn found(p: Seq<bool>) -> bool {
    p.len() > 0 && p.last()
}

/// `p` are the readings of a search that reads after each step and stops at
/// the first active reading, or after `budget` steps.
pub open spec fn search_answers(p: Seq<bool>, budget: nat) -> bool {
    &&& p.len() <= budget
    &&& forall|i: int| 0 <= i < p.len() - 1 ==> !#[trigger] p[i]
    &&& p.len() < budget ==> found(p)
}

/// The events of the rounds of a search: each the events of one step, then
/// the reading.
pub open spec fn rounds(step: Seq<IoEvent>, axis: Axis, p: Seq<bool>) -> Seq<IoEvent>
    decreases p.len(),
{
    if p.len() == 0 {
        Seq::empty()
    } else {
        rounds(step, axis, p.drop_last()) + step + seq![IoEvent::Probe { axis, active: p.last() }]
    }
}

/// The readings of one homing: the first reading, those of the coarse pass
/// and those of the fine pass.
pub open spec fn homing_answers(initial: bool, coarse: Seq<bool>, fine: Seq<bool>) -> bool {
    if initial {
        coarse.len() == 0 && fine.len() == 0
    } else {
        &&& search_answers(coarse, COARSE_ITERATIONS as nat)
        &&& if found(coarse) {
            search_answers(fine, FINE_ITERATIONS as nat)
        } else {
            fine.len() == 0
        }
    }
}

/// How homing `axis` ends, given its readings.
pub open spec fn homing_result(
    axis: Axis,
    initial: bool,
    coarse: Seq<bool>,
    fine: Seq<bool>,
) -> Result<(), GimbalError> {
    if initial {
        Ok(())
    } else if !found(coarse) {
        Err(GimbalError::Homing { axis, phase: Phase::Coarse })
    } else if !found(fine) {
        Err(GimbalError::Homing { axis, phase: Phase::Fine })
    } else {
        Ok(())
    }
}

/// What homing `axis` drives and reads, given its readings: a first
/// reading; when inactive, coarse rounds of one degree back; when one was
/// active, four degrees forward and fine rounds of 0.2 degrees back at a
/// fifth of the velocity.
pub open spec fn homing_events(
    axis: Axis,
    velocity: int,
    s: StepsPerDegree,
    initial: bool,
    coarse: Seq<bool>,
    fine: Seq<bool>,
) -> Seq<IoEvent> {
    seq![IoEvent::Probe { axis, active: initial }] + if initial {
        Seq::empty()
    } else {
        rounds(move_events(axis, -COARSE_STEP, velocity, s), axis, coarse) + if found(coarse) {
            move_events(axis, BACKOFF_STEPS * COARSE_STEP, velocity, s) + rounds(
                move_events(axis, -FINE_STEP, fine_velocity(velocity), s),
                axis,
                fine,
            )
        } else {
            Seq::empty()
        }
    }
}

/// Steps driven while homing, given the readings.
pub open spec fn homing_steps(
    s: StepsPerDegree,
    initial: bool,
    coarse: Seq<bool>,
    fine: Seq<bool>,
) -> int {
    if initial {
        0
    } else {
        coarse.len() * steps_for(-COARSE_STEP as int, s) + if found(coarse) {
            steps_for((BACKOFF_STEPS * COARSE_STEP) as int, s) + fine.len() * steps_for(
                -FINE_STEP as int,
                s,
            )
        } else {
            0
        }
    }
}

/// The value given, or `default`.
pub open spec fn or_default(o: Option<i32>, default: i32) -> i32 {
    match o {
        Some(v) => v,
        None => default,
    }
}

/// The error text that a result leaves behind.
pub open spec fn error_text(r: Result<(), GimbalError>) -> Option<Seq<char>> {
    match r {
        Ok(_) => None,
        Err(e) => Some(message_of(e)),
    }
}

/// The pan/tilt mechanism: gear ratios, velocities, step counters and the
/// homing state, over the pins of `io`.
pub struct Gimbal<Io> {
    pub io: Io,
    pos_steps: (u64, u64),
    pan_teeth: u16,
    tilt_teeth: u16,
    pan_drive_teeth: u16,
    tilt_drive_teeth: u16,
    pan_velocity: i32,
    tilt_velocity: i32,
    is_home_referenced: bool,
    is_homing: bool,
    last_error_message: Option<String>,
}

impl<Io: AxisIo> Gimbal<Io> {
    pub closed spec fn wf(self) -> bool {
        self.pan_drive_teeth > 0 && self.tilt_drive_teeth > 0
    }

    /// Steps the axis has been driven, in either direction.
    pub closed spec fn pos(self, axis: Axis) -> u64 {
        match axis {
            Axis::Pan => self.pos_steps.0,
            Axis::Tilt => self.pos_steps.1,
        }
    }

    /// Velocity of the axis, thousandths of a degree per second.
    pub closed spec fn velocity(self, axis: Axis) -> i32 {
        match axis {
            Axis::Pan => self.pan_velocity,
            Axis::Tilt => self.tilt_velocity,
        }
    }

    pub closed spec fn ratio(self, axis: Axis) -> StepsPerDegree {
        match axis {
            Axis::Pan => StepsPerDegree {
                drive_teeth: self.pan_drive_teeth,
                driven_teeth: self.pan_teeth,
            },
            Axis::Tilt => StepsPerDegree {
                drive_teeth: self.tilt_drive_teeth,
                driven_teeth: self.tilt_teeth,
            },
        }
    }

    pub closed spec fn home_referenced(self) -> bool {
        self.is_home_referenced
    }

    pub closed spec fn homing(self) -> bool {
        self.is_homing
    }

    pub closed spec fn last_error(self) -> Option<Seq<char>> {
        match self.last_error_message {
            Some(m) => Some(m@),
            None => None,
        }
    }

    /// Everything driven on and read from the pins so far.
    pub closed spec fn io_trace(self) -> Seq<IoEvent> {
        self.io.trace()
    }

    /// Gear ratios and validity are the same.
    pub open spec fn same_config(self, other: Self) -> bool {
        &&& other.wf() == self.wf()
        &&& other.ratio(Axis::Pan) == self.ratio(Axis::Pan)
        &&& other.ratio(Axis::Tilt) == self.ratio(Axis::Tilt)
    }

    /// Configuration, velocities, homing flags and last error are the same.
    pub open spec fn same_settings(self, other: Self) -> bool {
        &&& self.same_config(other)
        &&& other.velocity(Axis::Pan) == self.velocity(Axis::Pan)
        &&& other.velocity(Axis::Tilt) == self.velocity(Axis::Tilt)
        &&& other.home_referenced() == self.home_referenced()
        &&& other.homing() == self.homing()
        &&& other.last_error() == self.last_error()
    }

    /// The events of a turn of `degrees` on `axis` at its current velocity.
    pub open spec fn move_events_of(self, axis: Axis, degrees: int) -> Seq<IoEvent> {
        move_events(axis, degrees, self.velocity(axis) as int, self.ratio(axis))
    }

    /// `after` is `self` with `axis` turned by `degrees`.
    pub open spec fn moved(self, after: Self, axis: Axis, degrees: int) -> bool {
        &&& self.same_settings(after)
        &&& after.pos(axis) == add_steps(self.pos(axis), steps_for(degrees, self.ratio(axis)))
        &&& after.pos(other(axis)) == self.pos(other(axis))
        &&& after.io_trace() == self.io_trace() + self.move_events_of(axis, degrees)
    }

    /// `after` is `self` after homing `axis` with the given readings and result.
    pub open spec fn homing_run(
        self,
        after: Self,
        axis: Axis,
        r: Result<(), GimbalError>,
        initial: bool,
        coarse: Seq<bool>,
        fine: Seq<bool>,
    ) -> bool {
        &&& homing_answers(initial, coarse, fine)
        &&& r == homing_result(axis, initial, coarse, fine)
        &&& after.io_trace() == self.io_trace() + homing_events(
            axis,
            self.velocity(axis) as int,
            self.ratio(axis),
            initial,
            coarse,
            fine,
        )
        &&& after.pos(axis) == add_steps(
            self.pos(axis),
            homing_steps(self.ratio(axis), initial, coarse, fine),
        )
    }

    /// `after` is `self` after homing `axis`, whatever the endstop read.
    pub open spec fn homed_axis(self, after: Self, axis: Axis, r: Result<(), GimbalError>) -> bool {
        &&& self.same_settings(after)
        &&& after.pos(other(axis)) == self.pos(other(axis))
        &&& exists|initial: bool, coarse: Seq<bool>, fine: Seq<bool>|
            #[trigger] self.homing_run(after, axis, r, initial, coarse, fine)
    }

    /// `after` is `self` after homing pan, then tilt if pan succeeded.
    pub open spec fn homed(self, after: Self, r: Result<(), GimbalError>) -> bool {
        &&& self.same_config(after)
        &&& after.velocity(Axis::Pan) == self.velocity(Axis::Pan)
        &&& after.velocity(Axis::Tilt) == self.velocity(Axis::Tilt)
        &&& after.last_error() == self.last_error()
        &&& !after.homing()
        &&& after.home_referenced() == (r is Ok)
        &&& exists|ip: bool, cp: Seq<bool>, fp: Seq<bool>|
            #[trigger] self.homed_with(after, r, ip, cp, fp)
    }

    /// `homed`, with `ip`, `cp`, `fp` the readings of the pan homing.
    pub open spec fn homed_with(
        self,
        after: Self,
        r: Result<(), GimbalError>,
        ip: bool,
        cp: Seq<bool>,
        fp: Seq<bool>,
    ) -> bool {
        let rp = homing_result(Axis::Pan, ip, cp, fp);
        let ev = self.io_trace() + homing_events(
            Axis::Pan,
            self.velocity(Axis::Pan) as int,
            self.ratio(Axis::Pan),
            ip,
            cp,
            fp,
        );
        &&& homing_answers(ip, cp, fp)
        &&& after.pos(Axis::Pan) == add_steps(
            self.pos(Axis::Pan),
            homing_steps(self.ratio(Axis::Pan), ip, cp, fp),
        )
        &&& if rp is Err {
            &&& r == rp
            &&& after.io_trace() == ev
            &&& after.pos(Axis::Tilt) == self.pos(Axis::Tilt)
        } else {
            exists|it: bool, ct: Seq<bool>, ft: Seq<bool>|
                {
                    &&& #[trigger] homing_answers(it, ct, ft)
                    &&& r == homing_result(Axis::Tilt, it, ct, ft)
                    &&& after.io_trace() == ev + homing_events(
                        Axis::Tilt,
                        self.velocity(Axis::Tilt) as int,
                        self.ratio(Axis::Tilt),
                        it,
                        ct,
                        ft,
                    )
                    &&& after.pos(Axis::Tilt) == add_steps(
                        self.pos(Axis::Tilt),
                        homing_steps(self.ratio(Axis::Tilt), it, ct, ft),
                    )
                }
        }
    }

    /// `after` is `self` after applying `gcode` with result `r`.
    pub open spec fn processed(self, after: Self, gcode: Gcode, r: Result<(), GimbalError>) -> bool {
        match gcode {
            Gcode::G1Move(pan, tilt) => if !self.home_referenced() && !self.homing() {
                r == Err::<(), GimbalError>(GimbalError::NotHomed) && after == self
            } else {
                let p = or_default(pan, 0) as int;
                let t = or_default(tilt, 0) as int;
                &&& r is Ok
                &&& self.same_settings(after)
                &&& after.pos(Axis::Pan) == add_steps(
                    self.pos(Axis::Pan),
                    steps_for(p, self.ratio(Axis::Pan)),
                )
                &&& after.pos(Axis::Tilt) == add_steps(
                    self.pos(Axis::Tilt),
                    steps_for(t, self.ratio(Axis::Tilt)),
                )
                &&& after.io_trace() == self.io_trace() + self.move_events_of(Axis::Pan, p)
                    + self.move_events_of(Axis::Tilt, t)
            },
            Gcode::G28Home => self.homed(after, r),
            Gcode::G90SetAbsolute => r is Ok && after == self,
            Gcode::G91SetRelative => r is Ok && after == self,
            Gcode::M1SetVelocity(pan, tilt) => {
                &&& r is Ok
                &&& self.same_config(after)
                &&& after.velocity(Axis::Pan) == or_default(pan, self.velocity(Axis::Pan))
                &&& after.velocity(Axis::Tilt) == or_default(tilt, self.velocity(Axis::Tilt))
                &&& after.home_referenced() == self.home_referenced()
                &&& after.homing() == self.homing()
                &&& after.last_error() == self.last_error()
                &&& after.pos(Axis::Pan) == self.pos(Axis::Pan)
                &&& after.pos(Axis::Tilt) == self.pos(Axis::Tilt)
                &&& after.io_trace() == self.io_trace()
            },
        }
    }

    /// Everything but the last error is the same.
    pub open spec fn same_but_error(self, other: Self) -> bool {
        &&& self.same_config(other)
        &&& other.velocity(Axis::Pan) == self.velocity(Axis::Pan)
        &&& other.velocity(Axis::Tilt) == self.velocity(Axis::Tilt)
        &&& other.home_referenced() == self.home_referenced()
        &&& other.homing() == self.homing()
        &&& other.pos(Axis::Pan) == self.pos(Axis::Pan)
        &&& other.pos(Axis::Tilt) == self.pos(Axis::Tilt)
        &&& other.io_trace() == self.io_trace()
    }

    /// `after` is `self` after the queue handed it `gcode`: skipped (`None`)
    /// once an error was kept, else applied with its error kept.
    pub open spec fn ran_queued(
        self,
        after: Self,
        gcode: Gcode,
        r: Option<Result<(), GimbalError>>,
    ) -> bool {
        match r {
            None => self.last_error() is Some && after == self,
            Some(res) => self.last_error() is None && exists|mid: Self|
                {
                    &&& #[trigger] self.processed(mid, gcode, res)
                    &&& after.same_but_error(mid)
                    &&& after.last_error() == error_text(res)
                },
        }
    }

    /// A gimbal at rest: counters at zero, not homed, no error.
    pub fn new(
        io: Io,
        pan_teeth: u16,
        pan_drive_teeth: u16,
        tilt_teeth: u16,
        tilt_drive_teeth: u16,
        pan_velocity: i32,
        tilt_velocity: i32,
    ) -> (r: Self)
        requires
            pan_drive_teeth > 0,
            tilt_drive_teeth > 0,
        ensures
            r.wf(),
            r.ratio(Axis::Pan) == (StepsPerDegree {
                drive_teeth: pan_drive_teeth,
                driven_teeth: pan_teeth,
            }),
            r.ratio(Axis::Tilt) == (StepsPerDegree {
                drive_teeth: tilt_drive_teeth,
                driven_teeth: tilt_teeth,
            }),
            r.velocity(Axis::Pan) == pan_velocity,
            r.velocity(Axis::Tilt) == tilt_velocity,
            r.pos(Axis::Pan) == 0,
            r.pos(Axis::Tilt) == 0,
            !r.home_referenced(),
            !r.homing(),
            r.last_error() is None,
            r.io_trace() == io.trace(),
    {
        Gimbal {
            io,
            pos_steps: (0, 0),
            pan_teeth,
            tilt_teeth,
            pan_drive_teeth,
            tilt_drive_teeth,
            pan_velocity,
            tilt_velocity,
            is_home_referenced: false,
            is_homing: false,
            last_error_message: None,
        }
    }

    /// Steps per degree of `axis`.
    pub fn steps_per_degree(&self, axis: Axis) -> (r: StepsPerDegree)
        ensures
            r == self.ratio(axis),
            self.wf() ==> r.wf(),
    {
        match axis {
            Axis::Pan => StepsPerDegree {
                drive_teeth: self.pan_drive_teeth,
                driven_teeth: self.pan_teeth,
            },
            Axis::Tilt => StepsPerDegree {
                drive_teeth: self.tilt_drive_teeth,
                driven_teeth: self.tilt_teeth,
            },
        }
    }

    /// Velocity of `axis`, thousandths of a degree per second.
    pub fn axis_velocity(&self, axis: Axis) -> (r: i32)
        ensures
            r == self.velocity(axis),
    {
        match axis {
            Axis::Pan => self.pan_velocity,
            Axis::Tilt => self.tilt_velocity,
        }
    }

    /// Turns `axis` by `degrees` (thousandths; forward when not negative):
    /// sets the direction output, then sends `floor(|degrees| * steps per
    /// degree)` pulses, each high then low for half the period that the
    /// axis velocity gives, and adds them to the axis step counter. The
    /// counter keeps no direction. A velocity too low for one step per
    /// second runs at one step per second. This blocks until the last pulse
    /// ends.
    pub fn move_axis(&mut self, axis: Axis, degrees: i32)
        requires
            old(self).wf(),
        ensures
            old(self).moved(*final(self), axis, degrees as int),
    {
        let s = self.steps_per_degree(axis);
        let n = num_steps(degrees, s);
        let sps = steps_per_second(self.axis_velocity(axis), s);
        let half = pulse_half_period_us(if sps == 0 { 1 } else { sps });
        let ghost before = *self;
        let level = if degrees >= 0 {
            Level::High
        } else {
            Level::Low
        };
        self.io.set_direction(axis, level);
        let mut i: u64 = 0;
        while i < n
            invariant
                i <= n,
                self.same_settings(before),
                self.pos_steps == before.pos_steps,
                self.io_trace() == before.io_trace() + seq![IoEvent::Direction { axis, level }]
                    + pulses(axis, i as nat, half),
            decreases n - i,
        {
            self.io.set_step(axis, Level::High);
            self.io.delay_us(half);
            self.io.set_step(axis, Level::Low);
            self.io.delay_us(half);
            assert(pulses(axis, (i + 1) as nat, half) == pulses(axis, i as nat, half) + pulse(
                axis,
                half,
            ));
            assert(self.io_trace() =~= before.io_trace() + seq![IoEvent::Direction { axis, level }]
                + pulses(axis, (i + 1) as nat, half));
            i = i + 1;
        }
        assert(self.io_trace() =~= before.io_trace() + before.move_events_of(axis, degrees as int));
        match axis {
            Axis::Pan => {
                self.pos_steps = (self.pos_steps.0.saturating_add(n), self.pos_steps.1);
            },
            Axis::Tilt => {
                self.pos_steps = (self.pos_steps.0, self.pos_steps.1.saturating_add(n));
            },
        }
    }

    fn set_velocity(&mut self, axis: Axis, velocity: i32)
        ensures
            final(self).same_config(*old(self)),
            final(self).velocity(axis) == velocity,
            final(self).velocity(other(axis)) == old(self).velocity(other(axis)),
            final(self).home_referenced() == old(self).home_referenced(),
            final(self).homing() == old(self).homing(),
            final(self).last_error() == old(self).last_error(),
            final(self).pos(Axis::Pan) == old(self).pos(Axis::Pan),
            final(self).pos(Axis::Tilt) == old(self).pos(Axis::Tilt),
            final(self).io_trace() == old(self).io_trace(),
    {
        match axis {
            Axis::Pan => self.pan_velocity = velocity,
            Axis::Tilt => self.tilt_velocity = velocity,
        }
    }

    /// Reads the endstop of `axis`: true when it is at the active (low)
    /// level. Each axis reads its own endstop input.
    pub fn is_home(&mut self, axis: Axis) -> (r: bool)
        ensures
            old(self).same_settings(*final(self)),
            final(self).pos(Axis::Pan) == old(self).pos(Axis::Pan),
            final(self).pos(Axis::Tilt) == old(self).pos(Axis::Tilt),
            final(self).io_trace() == old(self).io_trace().push(IoEvent::Probe { axis, active: r }),
    {
        let level = self.io.read_endstop(axis);
        let active = match level {
            Level::Low => true,
            Level::High => false,
        };
        active
    }

    /// Homes `axis` in two passes. Already home: done. Coarse pass: up to 360
    /// rounds of one degree back, then a reading; none active fails with
    /// `Phase::Coarse`. Then four degrees forward, off the endstop. Fine pass:
    /// at a fifth of the velocity, up to 22 rounds of 0.2 degrees back, then a
    /// reading; none active fails with `Phase::Fine`. The velocity is put back
    /// either way.
    pub fn home_axis(&mut self, axis: Axis) -> (r: Result<(), GimbalError>)
        requires
            old(self).wf(),
        ensures
            old(self).homed_axis(*final(self), axis, r),
    {
        let ghost start = *self;
        let s = self.steps_per_degree(axis);
        let v = self.axis_velocity(axis);
        let initial = self.is_home(axis);
        if initial {
            assert(self.io_trace() =~= start.io_trace() + homing_events(
                axis,
                v as int,
                s,
                true,
                Seq::empty(),
                Seq::empty(),
            ));
            assert(start.homing_run(*self, axis, Ok(()), true, Seq::empty(), Seq::empty()));
            return Ok(());
        }
        let ghost ev0 = self.io_trace();
        let ghost step = move_events(axis, -COARSE_STEP as int, v as int, s);
        let ghost n1 = steps_for(-COARSE_STEP as int, s);
        let ghost mut coarse: Seq<bool> = Seq::empty();
        let mut hit = false;
        let mut k: u32 = 0;
        assert(rounds(step, axis, coarse) =~= Seq::<IoEvent>::empty());
        while k < COARSE_ITERATIONS && !hit
            invariant
                self.wf(),
                start.same_settings(*self),
                self.pos(other(axis)) == start.pos(other(axis)),
                s == start.ratio(axis),
                v == start.velocity(axis),
                step == start.move_events_of(axis, -COARSE_STEP as int),
                n1 == steps_for(-COARSE_STEP as int, s),
                n1 >= 0,
                k <= COARSE_ITERATIONS,
                coarse.len() == k,
                hit == found(coarse),
                forall|i: int| 0 <= i < coarse.len() - 1 ==> !#[trigger] coarse[i],
                !hit ==> forall|i: int| 0 <= i < coarse.len() ==> !#[trigger] coarse[i],
                self.io_trace() == ev0 + rounds(step, axis, coarse),
                self.pos(axis) == add_steps(start.pos(axis), k * n1),
            decreases COARSE_ITERATIONS - k,
        {
            self.move_axis(axis, -COARSE_STEP);
            hit = self.is_home(axis);
            proof {
                let c2 = coarse.push(hit);
                assert(c2.drop_last() =~= coarse);
                assert(rounds(step, axis, c2) == rounds(step, axis, coarse) + step + seq![
                    IoEvent::Probe { axis, active: hit },
                ]);
                assert(self.io_trace() =~= ev0 + rounds(step, axis, c2));
                assert((k + 1) * n1 == k * n1 + n1) by (nonlinear_arith);
                assert(k * n1 >= 0) by (nonlinear_arith)
                    requires
                        n1 >= 0,
                ;
                coarse = c2;
            }
            k = k + 1;
        }
        if !hit {
            assert(start.io_trace() + homing_events(axis, v as int, s, false, coarse, Seq::empty())
                =~= ev0 + rounds(step, axis, coarse));
            assert(start.homing_run(
                *self,
                axis,
                Err(GimbalError::Homing { axis, phase: Phase::Coarse }),
                false,
                coarse,
                Seq::empty(),
            ));
            return Err(GimbalError::Homing { axis, phase: Phase::Coarse });
        }
        self.move_axis(axis, BACKOFF_STEPS * COARSE_STEP);
        let ghost ev1 = self.io_trace();
        let ghost n4 = steps_for((BACKOFF_STEPS * COARSE_STEP) as int, s);
        let ghost base = k * n1 + n4;
        // slower for the fine pass
        let mag: u64 = if v >= 0 {
            v as u64
        } else {
            (-(v as i64)) as u64
        };
        let slow: u64 = mag / (FINER_BY as u64);
        let fv: i32 = if v >= 0 {
            slow as i32
        } else {
            -(slow as i32)
        };
        assert(fv == fine_velocity(v as int));
        self.set_velocity(axis, fv);
        let ghost step2 = move_events(axis, -FINE_STEP as int, fv as int, s);
        let ghost n2 = steps_for(-FINE_STEP as int, s);
        let ghost mut fine: Seq<bool> = Seq::empty();
        let mut hit2 = false;
        let mut j: u32 = 0;
        assert(rounds(step2, axis, fine) =~= Seq::<IoEvent>::empty());
        assert(ev1 =~= ev1 + rounds(step2, axis, fine));
        while j < FINE_ITERATIONS && !hit2
            invariant
                self.wf(),
                self.same_config(start),
                self.velocity(axis) == fv,
                self.velocity(other(axis)) == start.velocity(other(axis)),
                self.home_referenced() == start.home_referenced(),
                self.homing() == start.homing(),
                self.last_error() == start.last_error(),
                self.pos(other(axis)) == start.pos(other(axis)),
                s == start.ratio(axis),
                step2 == move_events(axis, -FINE_STEP as int, fv as int, s),
                n2 == steps_for(-FINE_STEP as int, s),
                n2 >= 0,
                base >= 0,
                j <= FINE_ITERATIONS,
                fine.len() == j,
                hit2 == found(fine),
                forall|i: int| 0 <= i < fine.len() - 1 ==> !#[trigger] fine[i],
                self.io_trace() == ev1 + rounds(step2, axis, fine),
                self.pos(axis) == add_steps(start.pos(axis), base + j * n2),
            decreases FINE_ITERATIONS - j,
        {
            self.move_axis(axis, -FINE_STEP);
            hit2 = self.is_home(axis);
            proof {
                let f2 = fine.push(hit2);
                assert(f2.drop_last() =~= fine);
                assert(self.io_trace() =~= ev1 + rounds(step2, axis, f2));
                assert((j + 1) * n2 == j * n2 + n2) by (nonlinear_arith);
                assert(j * n2 >= 0) by (nonlinear_arith)
                    requires
                        n2 >= 0,
                ;
                fine = f2;
            }
            j = j + 1;
        }
        self.set_velocity(axis, v);
        let r = if hit2 {
            Ok(())
        } else {
            Err(GimbalError::Homing { axis, phase: Phase::Fine })
        };
        assert(self.io_trace() =~= start.io_trace() + homing_events(
            axis,
            v as int,
            s,
            false,
            coarse,
            fine,
        ));
        assert(start.homing_run(*self, axis, r, false, coarse, fine));
        r
    }

    /// Homes pan, then tilt if pan succeeded. Motion is allowed while this
    /// runs; afterwards the gimbal counts as homed exactly when both
    /// succeeded.
    pub fn home(&mut self) -> (r: Result<(), GimbalError>)
        requires
            old(self).wf(),
        ensures
            final(self).wf(),
            old(self).homed(*final(self), r),
    {
        let ghost start = *self;
        self.is_homing = true;
        let ghost s1 = *self;
        let rp = self.home_axis(Axis::Pan);
        let ghost mid = *self;
        let r = match rp {
            Ok(()) => self.home_axis(Axis::Tilt),
            Err(e) => Err(e),
        };
        let ghost fin = *self;
        self.is_homing = false;
        self.is_home_referenced = match r {
            Ok(()) => true,
            Err(_) => false,
        };
        proof {
            let (i, c, f) = choose|i: bool, c: Seq<bool>, f: Seq<bool>|
                #[trigger] s1.homing_run(mid, Axis::Pan, rp, i, c, f);
            if rp is Ok {
                let (i2, c2, f2) = choose|i: bool, c: Seq<bool>, f: Seq<bool>|
                    #[trigger] mid.homing_run(fin, Axis::Tilt, r, i, c, f);
                assert(homing_answers(i2, c2, f2));
            }
            assert(start.homed_with(*self, r, i, c, f));
        }
        r
    }

    /// Applies one command. `G1` turns pan, then tilt (a missing value is 0),
    /// and needs the gimbal homed or homing; `G28` homes; `M1` sets the
    /// velocities given and keeps the others; `G90` and `G91` are accepted
    /// and change nothing.
    pub fn process_gcode(&mut self, gcode: Gcode) -> (r: Result<(), GimbalError>)
        requires
            old(self).wf(),
        ensures
            final(self).wf(),
            final(self).last_error() == old(self).last_error(),
            old(self).processed(*final(self), gcode, r),
    {
        match gcode {
            Gcode::G1Move(opan, otilt) => {
                if !self.is_home_referenced && !self.is_homing {
                    return Err(GimbalError::NotHomed);
                }
                let pan = match opan {
                    Some(v) => v,
                    None => 0,
                };
                let tilt = match otilt {
                    Some(v) => v,
                    None => 0,
                };
                let ghost start = *self;
                self.move_axis(Axis::Pan, pan);
                let ghost mid = *self;
                self.move_axis(Axis::Tilt, tilt);
                assert(mid.move_events_of(Axis::Tilt, tilt as int) == start.move_events_of(
                    Axis::Tilt,
                    tilt as int,
                ));
                Ok(())
            },
            Gcode::G28Home => self.home(),
            Gcode::G90SetAbsolute => Ok(()),
            Gcode::G91SetRelative => Ok(()),
            Gcode::M1SetVelocity(opan, otilt) => {
                match opan {
                    Some(v) => self.pan_velocity = v,
                    None => {},
                }
                match otilt {
                    Some(v) => self.tilt_velocity = v,
                    None => {},
                }
                Ok(())
            },
        }
    }

    /// Applies a queued command unless an earlier one failed: after a
    /// failure the gimbal is in an unknown mechanical state, so its message
    /// is kept and every later command is skipped. `None` when skipped.
    pub fn run_queued(&mut self, gcode: Gcode) -> (r: Option<Result<(), GimbalError>>)
        requires
            old(self).wf(),
        ensures
            final(self).wf(),
            old(self).ran_queued(*final(self), gcode, r),
    {
        match self.last_error_message {
            Some(_) => {
                return None;
            },
            None => {},
        }
        let ghost start = *self;
        let res = self.process_gcode(gcode);
        let ghost mid = *self;
        assert(start.processed(mid, gcode, res));
        match res {
            Ok(()) => {},
            Err(e) => {
                self.last_error_message = Some(e.message());
            },
        }
        assert(self.same_but_error(mid));
        assert(self.last_error() == error_text(res));
        Some(res)
    }

    /// Step counters of pan and tilt.
    pub fn pos_steps(&self) -> (r: (u64, u64))
        ensures
            r == (self.pos(Axis::Pan), self.pos(Axis::Tilt)),
    {
        self.pos_steps
    }

    pub fn is_home_referenced(&self) -> (r: bool)
        ensures
            r == self.home_referenced(),
    {
        self.is_home_referenced
    }

    pub fn is_homing(&self) -> (r: bool)
        ensures
            r == self.homing(),
    {
        self.is_homing
    }

    /// The message of the command that stopped the queue, if any.
    pub fn last_error_message(&self) -> (r: Option<String>)
        ensures
            match r {
                Some(m) => self.last_error() == Some(m@),
                None => self.last_error() is None,
            },
    {
        match &self.last_error_message {
            Some(m) => Some(m.clone()),
            None => None,
        }
    }
}

// ---------------------------------------------------------------- laws

/// Whether an endstop that sits `distance` (thousandths of a degree) back
/// from where homing starts reads active once the axis went `travelled` back.
pub open spec fn switch_reads(distance: int, travelled: int) -> bool {
    travelled >= distance
}

/// Some reading of `events` found the endstop of `axis` active.
pub open spec fn reads_active(events: Seq<IoEvent>, axis: Axis) -> bool {
    exists|k: int| 0 <= k < events.len() && events[k] == (IoEvent::Probe { axis, active: true })
}

proof fn lemma_rounds_last(step: Seq<IoEvent>, axis: Axis, p: Seq<bool>)
    requires
        p.len() > 0,
    ensures
        rounds(step, axis, p).len() > 0,
        rounds(step, axis, p).last() == (IoEvent::Probe { axis, active: p.last() }),
{
}

proof fn lemma_rounds_probe(step: Seq<IoEvent>, axis: Axis, p: Seq<bool>, k: int)
    requires
        0 <= k < p.len(),
    ensures
        exists|j: int|
            0 <= j < rounds(step, axis, p).len() && #[trigger] rounds(step, axis, p)[j] == (
            IoEvent::Probe { axis, active: p[k] }),
    decreases p.len(),
{
    let r = rounds(step, axis, p);
    if k == p.len() - 1 {
        lemma_rounds_last(step, axis, p);
        assert(r[r.len() - 1] == (IoEvent::Probe { axis, active: p[k] }));
    } else {
        lemma_rounds_probe(step, axis, p.drop_last(), k);
        let r0 = rounds(step, axis, p.drop_last());
        let j = choose|j: int|
            0 <= j < r0.len() && #[trigger] r0[j] == (IoEvent::Probe {
                axis,
                active: p.drop_last()[k],
            });
        assert(r[j] == r0[j]);
    }
}

/// An endstop `n` degrees back (`1 <= n <= 360`) is found: the coarse pass
/// takes exactly `n` rounds and the fine pass 20, homing succeeds, and its
/// last reading is active.
pub proof fn lemma_switch_is_found(
    axis: Axis,
    velocity: int,
    s: StepsPerDegree,
    n: int,
    initial: bool,
    coarse: Seq<bool>,
    fine: Seq<bool>,
)
    requires
        1 <= n <= COARSE_ITERATIONS,
        homing_answers(initial, coarse, fine),
        initial == switch_reads(n * 1000, 0),
        forall|k: int|
            0 <= k < coarse.len() ==> #[trigger] coarse[k] == switch_reads(n * 1000, (k + 1) * 1000),
        forall|k: int|
            0 <= k < fine.len() ==> #[trigger] fine[k] == switch_reads(
                n * 1000,
                coarse.len() * 1000 - BACKOFF_STEPS * 1000 + (k + 1) * FINE_STEP,
            ),
    ensures
        coarse.len() == n,
        fine.len() == 20,
        homing_result(axis, initial, coarse, fine) == Ok::<(), GimbalError>(()),
        homing_events(axis, velocity, s, initial, coarse, fine).last() == (IoEvent::Probe {
            axis,
            active: true,
        }),
{
    if coarse.len() < n {
        if coarse.len() > 0 {
            assert(!coarse[coarse.len() - 1]);
        }
    }
    if coarse.len() > n {
        assert(coarse[n - 1]);
    }
    assert(coarse.len() == n);
    assert(coarse[n - 1]);
    if fine.len() < 20 {
        if fine.len() > 0 {
            assert(!fine[fine.len() - 1]);
        }
    }
    if fine.len() > 20 {
        assert(fine[19]);
    }
    assert(fine.len() == 20);
    assert(fine[19]);
    lemma_rounds_last(move_events(axis, -FINE_STEP as int, fine_velocity(velocity), s), axis, fine);
}

/// An endstop that never reads active fails homing in the coarse pass,
/// after exactly 360 rounds and with no fine pass.
pub proof fn lemma_no_switch(axis: Axis, initial: bool, coarse: Seq<bool>, fine: Seq<bool>)
    requires
        homing_answers(initial, coarse, fine),
        !initial,
        forall|k: int| 0 <= k < coarse.len() ==> !#[trigger] coarse[k],
    ensures
        coarse.len() == COARSE_ITERATIONS,
        fine.len() == 0,
        homing_result(axis, initial, coarse, fine) == Err::<(), GimbalError>(
            GimbalError::Homing { axis, phase: Phase::Coarse },
        ),
{
    if coarse.len() > 0 {
        assert(!coarse[coarse.len() - 1]);
    }
}

impl<Io: AxisIo> Gimbal<Io> {
    /// Homing with a pan endstop that never reads active fails in the coarse
    /// pass of pan, and leaves the gimbal not homed.
    pub proof fn lemma_home_without_endstop(self, after: Self, r: Result<(), GimbalError>)
        requires
            self.homed(after, r),
            !reads_active(after.io_trace().skip(self.io_trace().len() as int), Axis::Pan),
        ensures
            r == Err::<(), GimbalError>(GimbalError::Homing { axis: Axis::Pan, phase: Phase::Coarse }),
            !after.home_referenced(),
    {
        let (ip, cp, fp) = choose|ip: bool, cp: Seq<bool>, fp: Seq<bool>|
            #[trigger] self.homed_with(after, r, ip, cp, fp);
        let n0 = self.io_trace().len();
        let suffix = after.io_trace().skip(n0 as int);
        let pe = homing_events(
            Axis::Pan,
            self.velocity(Axis::Pan) as int,
            self.ratio(Axis::Pan),
            ip,
            cp,
            fp,
        );
        let rp = homing_result(Axis::Pan, ip, cp, fp);
        if rp is Err {
            assert(after.io_trace() == self.io_trace() + pe);
        } else {
            let (it, ct, ft) = choose|it: bool, ct: Seq<bool>, ft: Seq<bool>|
                {
                    &&& #[trigger] homing_answers(it, ct, ft)
                    &&& r == homing_result(Axis::Tilt, it, ct, ft)
                    &&& after.io_trace() == self.io_trace() + pe + homing_events(
                        Axis::Tilt,
                        self.velocity(Axis::Tilt) as int,
                        self.ratio(Axis::Tilt),
                        it,
                        ct,
                        ft,
                    )
                    &&& after.pos(Axis::Tilt) == add_steps(
                        self.pos(Axis::Tilt),
                        homing_steps(self.ratio(Axis::Tilt), it, ct, ft),
                    )
                };
        }
        // every index of the pan events stands at the same place in `suffix`
        assert(forall|j: int| 0 <= j < pe.len() ==> suffix[j] == #[trigger] pe[j]);
        if ip {
            assert(suffix[0] == pe[0]);
        }
        assert(!ip);
        assert forall|k: int| 0 <= k < cp.len() implies !#[trigger] cp[k] by {
            if cp[k] {
                let step = move_events(
                    Axis::Pan,
                    -COARSE_STEP as int,
                    self.velocity(Axis::Pan) as int,
                    self.ratio(Axis::Pan),
                );
                lemma_rounds_probe(step, Axis::Pan, cp, k);
                let rc = rounds(step, Axis::Pan, cp);
                let j = choose|j: int|
                    0 <= j < rc.len() && #[trigger] rc[j] == (IoEvent::Probe {
                        axis: Axis::Pan,
                        active: cp[k],
                    });
                assert(pe[1 + j] == rc[j]);
                assert(suffix[1 + j] == pe[1 + j]);
            }
        }
        lemma_no_switch(Axis::Pan, ip, cp, fp);
    }
}

impl<Io: AxisIo> Gimbal<Io> {
    /// A move is refused with "gimbal not homed" until homing succeeds; once
    /// `G28` has succeeded the same move runs, and each step counter advances
    /// by `floor(|degrees| * steps per degree)` of its own axis.
    pub proof fn lemma_move_needs_homing(
        self,
        homed: Self,
        moved: Self,
        refused: Self,
        pan: Option<i32>,
        tilt: Option<i32>,
        r_refused: Result<(), GimbalError>,
        r_home: Result<(), GimbalError>,
        r_move: Result<(), GimbalError>,
    )
        requires
            !self.home_referenced(),
            !self.homing(),
            self.processed(refused, Gcode::G1Move(pan, tilt), r_refused),
            self.processed(homed, Gcode::G28Home, r_home),
            r_home is Ok,
            homed.processed(moved, Gcode::G1Move(pan, tilt), r_move),
        ensures
            r_refused == Err::<(), GimbalError>(GimbalError::NotHomed),
            message_of(GimbalError::NotHomed) == "gimbal not homed"@,
            refused == self,
            homed.home_referenced(),
            r_move is Ok,
            moved.pos(Axis::Pan) == add_steps(
                homed.pos(Axis::Pan),
                steps_for(or_default(pan, 0) as int, self.ratio(Axis::Pan)),
            ),
            moved.pos(Axis::Tilt) == add_steps(
                homed.pos(Axis::Tilt),
                steps_for(or_default(tilt, 0) as int, self.ratio(Axis::Tilt)),
            ),
    {
    }
}

} // verus!
