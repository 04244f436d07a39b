//! Angles, and what the functions of a circle say of them.
//!
//! A sine, a cosine or an arc tangent is the machine's: a function that needs one
//! takes the function that finds it. What is stated then holds whatever that
//! function answers, of the angles that it was asked for.
use crate::arithmetic;
use crate::double::Double;
use vstd::prelude::*;

verus! {

/// A degree in radians.
pub const DEGREE: u64 = 0x3f91_df46_a252_9d39;

/// A radian in degrees.
pub const RADIAN: u64 = 0x404c_a5dc_1a63_c1f8;

/// A whole turn in degrees.
pub const WHOLE_TURN: u64 = 0x4076_8000_0000_0000;

/// Degrees as radians.
pub open spec fn in_radians(degrees: Double) -> Double {
    arithmetic::product(degrees, Double { bits: DEGREE })
}

/// Radians as degrees.
pub open spec fn in_degrees(radians: Double) -> Double {
    arithmetic::product(radians, Double { bits: RADIAN })
}

impl Double {
    /// Degrees as radians.
    pub fn to_radians(self) -> (result: Double)
        ensures
            result == in_radians(self),
    {
        self.times(Double::from_bits(DEGREE))
    }

    /// Radians as degrees.
    pub fn to_degrees(self) -> (result: Double)
        ensures
            result == in_degrees(self),
    {
        self.times(Double::from_bits(RADIAN))
    }
}

/// That a function has an answer for every angle.
pub open spec fn answers_angles<S: Fn(Double) -> (Double, Double)>(sine_cosine: S) -> bool {
    forall|angle: Double| #[trigger] call_requires(sine_cosine, (angle,))
}

/// That a function has an answer for every pair of legs, the one across from the
/// angle first.
pub open spec fn answers_legs<A: Fn(Double, Double) -> Double>(arc_tangent: A) -> bool {
    forall|across: Double, along: Double| #[trigger] call_requires(arc_tangent, (across, along))
}

/// That a function has an answer for every sine.
pub open spec fn answers_sines<B: Fn(Double) -> Double>(arc_sine: B) -> bool {
    forall|sine: Double| #[trigger] call_requires(arc_sine, (sine,))
}

/// An angle in radians, with its sine and cosine.
#[derive(Debug, Clone, Copy, PartialEq, Eq, Structural)]
pub struct Turn {
    pub angle: Double,
    pub sine: Double,
    pub cosine: Double,
}

/// That a turn is the given one, with the sine and the cosine that `sine_cosine`
/// answers for it.
pub open spec fn turned<S: Fn(Double) -> (Double, Double)>(
    sine_cosine: S,
    angle: Double,
    turn: Turn,
) -> bool {
    turn.angle == angle && call_ensures(sine_cosine, (angle,), (turn.sine, turn.cosine))
}

/// Asks for the sine and the cosine of an angle.
pub fn turn_by<S: Fn(Double) -> (Double, Double)>(sine_cosine: &S, angle: Double) -> (result: Turn)
    requires
        call_requires(*sine_cosine, (angle,)),
    ensures
        turned(*sine_cosine, angle, result),
{
    let (sine, cosine): (Double, Double) = sine_cosine(angle);
    Turn { angle, sine, cosine }
}

} // verus!
