//! The episodic target: a point sampled uniformly from a rectangle.

use vstd::prelude::*;
use crate::fixed::{abs_s, sq};
use crate::rng::sample_in_range;

verus! {

/// Distance below which a robot is considered to have reached the
/// goal, in micro-units; consumed by visualization collaborators, not
/// by the reward evaluation.
pub const SLACK: i64 = 20_000_000;

/// A target point for one episode.
pub struct Goal {
    pub x: i64,
    pub y: i64,
}

impl Goal {
    /// Places a goal deterministically from two raw draws, each
    /// mapped into its bounds by its remainder: fixed draws reproduce
    /// one fixed goal.
    pub fn in_region_from(x_bounds: (i64, i64), y_bounds: (i64, i64), draws: (u64, u64)) -> (g:
        Goal)
        requires
            x_bounds.0 < x_bounds.1,
            y_bounds.0 < y_bounds.1,
        ensures
            g.x as int == x_bounds.0 + (draws.0 as int) % (x_bounds.1 - x_bounds.0 + 1),
            g.y as int == y_bounds.0 + (draws.1 as int) % (y_bounds.1 - y_bounds.0 + 1),
            x_bounds.0 <= g.x <= x_bounds.1,
            y_bounds.0 <= g.y <= y_bounds.1,
    {
        let x = sample_in_range(x_bounds.0, x_bounds.1, draws.0);
        let y = sample_in_range(y_bounds.0, y_bounds.1, draws.1);
        Goal { x: x, y: y }
    }

    /// Draws a goal uniformly within the given inclusive bounds, one
    /// axis independently of the other.
    pub fn in_region(x_bounds: (i64, i64), y_bounds: (i64, i64)) -> (g: Goal)
        requires
            x_bounds.0 < x_bounds.1,
            y_bounds.0 < y_bounds.1,
        ensures
            x_bounds.0 <= g.x <= x_bounds.1,
            y_bounds.0 <= g.y <= y_bounds.1,
    {
        Goal::in_region_from(x_bounds, y_bounds, (rand::random::<u64>(), rand::random::<u64>()))
    }

    /// The goal's coordinates.
    pub fn coordinates(&self) -> (r: (i64, i64))
        ensures
            r == (self.x, self.y),
    {
        (self.x, self.y)
    }

    /// Whether the point `(x, y)` lies within the reach slack of the
    /// goal: the stopping rule of the visualization loop.
    pub fn reached(&self, x: i64, y: i64) -> (r: bool)
        requires
            abs_s(x as int) <= 2_000_000_000_000_000_000,
            abs_s(y as int) <= 2_000_000_000_000_000_000,
            abs_s(self.x as int) <= 2_000_000_000_000_000_000,
            abs_s(self.y as int) <= 2_000_000_000_000_000_000,
        ensures
            r <==> sq(self.x - x) + sq(self.y - y) < sq(SLACK as int),
    {
        let dx: i128 = (self.x as i128) - (x as i128);
        let dy: i128 = (self.y as i128) - (y as i128);
        proof {
            assert(dx * dx == sq(self.x - x) && dy * dy == sq(self.y - y)
                && 0 <= dx * dx <= 0x1000_0000_0000_0000_0000_0000_0000_0000int
                && 0 <= dy * dy <= 0x1000_0000_0000_0000_0000_0000_0000_0000int)
                by (nonlinear_arith)
                requires
                    dx == self.x - x,
                    dy == self.y - y,
                    abs_s(dx as int) <= 4_000_000_000_000_000_000int,
                    abs_s(dy as int) <= 4_000_000_000_000_000_000int,
            ;
            assert(sq(SLACK as int) == 400_000_000_000_000int) by (nonlinear_arith)
                requires
                    SLACK == 20_000_000,
            ;
        }
        dx * dx + dy * dy < 400_000_000_000_000i128
    }
}

} // verus!
