//! The per-joint decision of cyclic coordinate descent.
//!
//! The geometry of one sub-step (distance from the end effector to the
//! target, the angle at the pivot, the sign of the cross product) is
//! measured elsewhere; what to do with those measurements is decided here.
use vstd::prelude::*;
use crate::ieee::{absolute, is_nan, less_than, negate, abs, lt, nan, neg, ZERO};

verus! {

/// Maximum number of passes over the chain in one solve.
pub const MAX_ITERATIONS: usize = 100;

/// Distance below which the end effector counts as on target (`0.01_f32`).
pub const CONVERGENCE_THRESHOLD: u32 = 0x3c23_d70a;

/// Rotations smaller than this are skipped (`f32::EPSILON`).
pub const ANGLE_EPSILON: u32 = 0x3400_0000;

/// What was measured at one pivot, each value as binary32 bits.
#[derive(Clone, Copy, PartialEq, Eq, Debug, Structural)]
pub struct Reading {
    /// Euclidean distance from the end effector to the target.
    pub distance: u32,
    /// Unsigned angle at the pivot between the end effector and the target.
    pub delta: u32,
    /// Cross product of pivot-to-end-effector and pivot-to-target.
    pub direction: u32,
}

/// What to do at one pivot.
#[derive(Clone, Copy, PartialEq, Eq, Debug, Structural)]
pub enum Step {
    /// The end effector is on target: the whole solve stops.
    Reached,
    /// The joint is already aligned: leave its angle alone.
    Hold,
    /// Add this signed amount (binary32 bits) to the joint's angle.
    Turn(u32),
}

pub open spec fn step_for(r: Reading) -> Step {
    if lt(r.distance, CONVERGENCE_THRESHOLD) {
        Step::Reached
    } else if nan(r.delta) || lt(abs(r.delta), ANGLE_EPSILON) {
        Step::Hold
    } else if !nan(r.direction) && !lt(r.direction, ZERO) {
        Step::Turn(neg(r.delta))
    } else {
        Step::Turn(r.delta)
    }
}

/// Decide one sub-step: stop when the end effector is within the threshold,
/// skip a rotation smaller than machine epsilon or undefined (NaN, from a
/// zero-length vector), and otherwise rotate against the sign of the cross
/// product: a non-negative one (either zero included) turns the joint the
/// negative way.
pub fn decide(r: Reading) -> (s: Step)
    ensures
        s == step_for(r),
{
    if less_than(r.distance, CONVERGENCE_THRESHOLD) {
        Step::Reached
    } else if is_nan(r.delta) || less_than(absolute(r.delta), ANGLE_EPSILON) {
        Step::Hold
    } else if !is_nan(r.direction) && !less_than(r.direction, ZERO) {
        Step::Turn(negate(r.delta))
    } else {
        Step::Turn(r.delta)
    }
}

} // verus!
