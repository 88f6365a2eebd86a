//! The control policy interface consumed by the reward evaluator.
//!
//! A policy maps the robot's normalized state to a control command;
//! the optimizer supplies one as an opaque capability. Each
//! implementation names its mathematical behaviour in a spec function,
//! and its executable evaluation must agree with that function.

use vstd::prelude::*;

verus! {

/// A parameterized map from normalized state to control command.
pub trait Policy {
    /// The control this policy commands in the given normalized state.
    spec fn spec_control(&self, dx: int, dy: int, or_wrapped: int) -> (int, int);

    /// Evaluates the policy at a normalized state.
    fn control_for(&self, dx: i64, dy: i64, or_wrapped: i64) -> (r: (i64, i64))
        ensures
            r.0 as int == self.spec_control(dx as int, dy as int, or_wrapped as int).0,
            r.1 as int == self.spec_control(dx as int, dy as int, or_wrapped as int).1,
    ;
}

/// The policy that commands rest in every state.
pub struct ZeroPolicy {}

impl Policy for ZeroPolicy {
    open spec fn spec_control(&self, dx: int, dy: int, or_wrapped: int) -> (int, int) {
        (0int, 0int)
    }

    fn control_for(&self, dx: i64, dy: i64, or_wrapped: i64) -> (r: (i64, i64)) {
        (0, 0)
    }
}

/// A policy that commands one fixed control in every state.
pub struct ConstPolicy {
    pub v: i64,
    pub w: i64,
}

impl Policy for ConstPolicy {
    open spec fn spec_control(&self, dx: int, dy: int, or_wrapped: int) -> (int, int) {
        (self.v as int, self.w as int)
    }

    fn control_for(&self, dx: i64, dy: i64, or_wrapped: i64) -> (r: (i64, i64)) {
        (self.v, self.w)
    }
}

} // verus!
