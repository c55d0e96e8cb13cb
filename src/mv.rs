use vstd::prelude::*;

use crate::gimbal::Axis;
use crate::motor::{num_steps, steps_for, StepsPerDegree};

verus! {

/// A turn of one axis; the sign of `degrees` (thousandths of a degree) is the
/// direction, forward when not negative.
#[derive(Clone, Copy, Debug, PartialEq, Eq, Structural)]
pub struct Move {
    pub axis: Axis,
    pub degrees: i32,
}

impl Move {
    /// Steps for this turn through a gear train with `drive_teeth` on the
    /// motor and `driven_teeth` on the axis: `floor(|degrees| * steps per degree)`.
    pub fn num_steps(&self, drive_teeth: u16, driven_teeth: u16) -> (r: u64)
        requires
            drive_teeth > 0,
        ensures
            r == steps_for(self.degrees as int, StepsPerDegree { drive_teeth, driven_teeth }),
    {
        num_steps(self.degrees, StepsPerDegree { drive_teeth, driven_teeth })
    }
}

} // verus!
