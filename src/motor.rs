use vstd::prelude::*;

verus! {

/// Microsteps for one revolution of the motor shaft: 400 full steps, 8 microsteps each.
pub const MOTOR_MICRO_STEPS_PER_REVOLUTION: u64 = 400 * 8;

/// Fixed-point scale: angles are counted in thousandths of a degree.
pub const MILLI: u64 = 1000;

/// Absolute value of an integer.
pub open spec fn abs(x: int) -> nat {
    if x < 0 {
        (-x) as nat
    } else {
        x as nat
    }
}

/// Steps per degree of the driven axis, kept as the exact ratio
/// `MOTOR_MICRO_STEPS_PER_REVOLUTION * driven_teeth / (360 * drive_teeth)`.
#[derive(Clone, Copy, Debug, PartialEq, Eq, Structural)]
pub struct StepsPerDegree {
    pub drive_teeth: u16,
    pub driven_teeth: u16,
}

impl StepsPerDegree {
    pub open spec fn num(self) -> nat {
        (MOTOR_MICRO_STEPS_PER_REVOLUTION * self.driven_teeth) as nat
    }

    pub open spec fn den(self) -> nat {
        (360 * self.drive_teeth) as nat
    }

    /// A gear train with a drive gear.
    pub open spec fn wf(self) -> bool {
        self.drive_teeth > 0
    }

    /// Numerator of the ratio.
    pub fn numerator(&self) -> (r: u64)
        ensures
            r == self.num(),
    {
        MOTOR_MICRO_STEPS_PER_REVOLUTION * self.driven_teeth as u64
    }

    /// Denominator of the ratio.
    pub fn denominator(&self) -> (r: u64)
        ensures
            r == self.den(),
    {
        360 * self.drive_teeth as u64
    }
}

/// `floor(|degrees| * s)` for an angle in thousandths of a degree.
pub open spec fn steps_for(degrees: int, s: StepsPerDegree) -> int {
    (abs(degrees) * s.num()) as int / (MILLI * s.den()) as int
}

/// `floor(velocity * s)` for a velocity in thousandths of a degree per second;
/// a velocity below zero gives no steps.
pub open spec fn steps_per_second_for(velocity: int, s: StepsPerDegree) -> int {
    if velocity <= 0 {
        0
    } else {
        (velocity * s.num()) as int / (MILLI * s.den()) as int
    }
}

/// The ratio between the motor and an axis whose gear has `driven_teeth`
/// and whose motor gear has `drive_teeth`.
pub fn steps_per_degree(drive_teeth: u16, driven_teeth: u16) -> (r: StepsPerDegree)
    ensures
        r.num() == MOTOR_MICRO_STEPS_PER_REVOLUTION * driven_teeth,
        r.den() == 360 * drive_teeth,
{
    StepsPerDegree { drive_teeth, driven_teeth }
}

proof fn lemma_product_fits(m: nat, s: StepsPerDegree)
    requires
        m <= 0x8000_0000,
    ensures
        m * s.num() <= 0x8000_0000 * (3200 * 0xffff),
{
    let n = s.num();
    assert(n <= 3200 * 0xffff);
    assert(m * n <= 0x8000_0000 * (3200 * 0xffff)) by (nonlinear_arith)
        requires
            m <= 0x8000_0000,
            n <= 3200 * 0xffff,
    ;
}

/// Number of steps for a turn of `degrees` (thousandths of a degree):
/// `floor(|degrees| * s)`. The sign only selects the direction.
pub fn num_steps(degrees: i32, s: StepsPerDegree) -> (r: u64)
    requires
        s.wf(),
    ensures
        r == steps_for(degrees as int, s),
{
    let mag: u64 = if degrees < 0 {
        (-(degrees as i64)) as u64
    } else {
        degrees as u64
    };
    proof {
        lemma_product_fits(mag as nat, s);
    }
    let den = MILLI * s.denominator();
    assert(den > 0);
    mag * s.numerator() / den
}

/// Step rate for a velocity in thousandths of a degree per second:
/// `floor(velocity * s)`, and 0 for a velocity below zero.
pub fn steps_per_second(velocity: i32, s: StepsPerDegree) -> (r: u64)
    requires
        s.wf(),
    ensures
        r == steps_per_second_for(velocity as int, s),
{
    if velocity <= 0 {
        0
    } else {
        let v: u64 = velocity as u64;
        proof {
            lemma_product_fits(v as nat, s);
        }
        v * s.numerator() / (MILLI * s.denominator())
    }
}

/// Half the period of one step pulse, in microseconds:
/// `floor(1_000_000 / steps_per_second / 2)`.
pub fn pulse_half_period_us(steps_per_second: u64) -> (r: u32)
    requires
        steps_per_second > 0,
    ensures
        r == 1_000_000int / steps_per_second as int / 2,
{
    (1_000_000 / steps_per_second / 2) as u32
}

} // verus!
