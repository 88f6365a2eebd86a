//! The differential-drive (unicycle) kinematic model.
//!
//! The robot carries a planar pose, a clamped control command, the goal
//! it was spawned against, and a scale factor fixed at spawn time: the
//! distance from the spawn point to the goal, used to normalize every
//! reported relative state. All quantities are fixed-point micro-units
//! (see `fixed`).

use vstd::prelude::*;
use crate::fixed::{
    abs_s, clamp_s, clamp_fx, cos_s, sin_s, tmod, fdiv, fmul, sq, is_isqrt, isqrt_s,
    fp_cos, fp_sin, fp_mul, fp_div, fp_hypot, fp_mod_pi,
    lemma_fmul_bound, lemma_fdiv_bound, lemma_sq_le,
    PI_FX,
};
use crate::trail::{Trail, trail_add_s};
use crate::rng::sample_in_range;

verus! {

/// Least admissible linear velocity, in micro-units per second.
pub const V_MIN_FX: i64 = 0;

/// Greatest admissible linear velocity, in micro-units per second.
pub const V_MAX_FX: i64 = 20_000_000;

/// Least admissible angular velocity, in micro-radians per second.
pub const W_MIN_FX: i64 = -1_000_000;

/// Greatest admissible angular velocity, in micro-radians per second.
pub const W_MAX_FX: i64 = 1_000_000;

/// How many trail points the model keeps.
pub const TRAIL_LIMIT: usize = 500;

/// Least admissible spawn-to-goal distance, in micro-units: the scale
/// factor must be strictly positive, and this floor keeps the
/// normalized state within machine range.
pub const MIN_SCALE_FX: i64 = 1_000;

/// Greatest admissible magnitude of a spawn, goal or bound coordinate,
/// in micro-units.
pub const COORD_LIMIT_FX: i64 = 1_000_000_000_000;

/// Greatest admissible magnitude of a pose coordinate when stepping,
/// in micro-units.
pub const POS_LIMIT_FX: i64 = 1_000_000_000_000_000;

/// Greatest admissible time step: ten seconds, in micro-units.
pub const MAX_DT_FX: i64 = 10_000_000;

/// The numeric state of the simulation: the robot's pose and control
/// together with the episode's fixed goal and scale.
pub ghost struct SimState {
    pub x: int,
    pub y: int,
    pub or_in_rad: int,
    pub v: int,
    pub w: int,
    pub scale: int,
    pub goal_x: int,
    pub goal_y: int,
}

/// The goal-relative, scale-normalized view of a state: displacement
/// to the goal over the scale factor, and the orientation wrapped by a
/// half turn as the hardware remainder rounds.
pub open spec fn scaled_of(s: SimState) -> (int, int, int) {
    (
        fdiv(s.goal_x - s.x, s.scale),
        fdiv(s.goal_y - s.y, s.scale),
        tmod(s.or_in_rad, PI_FX as int),
    )
}

/// One step of the unicycle dynamics over a time step `dt`.
pub open spec fn step_sim(s: SimState, dt: int) -> SimState {
    SimState {
        x: s.x + fmul(fmul(s.v, cos_s(s.or_in_rad)), dt),
        y: s.y + fmul(fmul(s.v, sin_s(s.or_in_rad)), dt),
        or_in_rad: s.or_in_rad + fmul(s.w, dt),
        ..s
    }
}

/// `n` repeated steps of the unicycle dynamics.
pub open spec fn step_n(s: SimState, dt: int, n: nat) -> SimState
    decreases n,
{
    if n == 0 {
        s
    } else {
        step_sim(step_n(s, dt, (n - 1) as nat), dt)
    }
}

/// A wheeled robot with clamped controls and a goal-relative scale.
pub struct DiffDriveModel {
    pub x: i64,
    pub y: i64,
    pub or_in_rad: i64,
    pub radius: i64,
    pub v: i64,
    pub w: i64,
    pub trail: Trail,
    pub scale: i64,
    pub goal_x: i64,
    pub goal_y: i64,
}

impl DiffDriveModel {
    /// The numeric fields of the model as one simulation state.
    pub open spec fn sim(&self) -> SimState {
        SimState {
            x: self.x as int,
            y: self.y as int,
            or_in_rad: self.or_in_rad as int,
            v: self.v as int,
            w: self.w as int,
            scale: self.scale as int,
            goal_x: self.goal_x as int,
            goal_y: self.goal_y as int,
        }
    }

    /// The model's standing invariant: controls within their bounds, a
    /// positive scale factor, and a goal within coordinate range.
    pub open spec fn wf(&self) -> bool {
        &&& V_MIN_FX <= self.v <= V_MAX_FX
        &&& W_MIN_FX <= self.w <= W_MAX_FX
        &&& MIN_SCALE_FX <= self.scale
        &&& abs_s(self.goal_x as int) <= COORD_LIMIT_FX
        &&& abs_s(self.goal_y as int) <= COORD_LIMIT_FX
    }

    /// Places a robot at the given pose with zero control, its scale
    /// factor the distance from the pose to `goal`.
    pub fn spawn_at(x: i64, y: i64, or_in_rad: i64, radius: i64, goal: (i64, i64)) -> (m:
        DiffDriveModel)
        requires
            abs_s(x as int) <= COORD_LIMIT_FX,
            abs_s(y as int) <= COORD_LIMIT_FX,
            abs_s(or_in_rad as int) <= COORD_LIMIT_FX,
            abs_s(goal.0 as int) <= COORD_LIMIT_FX,
            abs_s(goal.1 as int) <= COORD_LIMIT_FX,
            sq(goal.0 - x) + sq(goal.1 - y) >= sq(MIN_SCALE_FX as int),
        ensures
            m.wf(),
            m.x == x && m.y == y && m.or_in_rad == or_in_rad && m.radius == radius,
            m.v == 0 && m.w == 0,
            m.goal_x == goal.0 && m.goal_y == goal.1,
            m.scale as int == isqrt_s(sq(goal.0 - x) + sq(goal.1 - y)),
            is_isqrt(sq(goal.0 - x) + sq(goal.1 - y), m.scale as int),
            m.trail.queue@ =~= seq![(x, y)],
            m.trail.limit == TRAIL_LIMIT,
    {
        let dx = goal.0 - x;
        let dy = goal.1 - y;
        let scale = fp_hypot(dx, dy);
        proof {
            if scale < MIN_SCALE_FX {
                lemma_sq_le(scale as int + 1, MIN_SCALE_FX as int);
            }
        }
        let mut trail = Trail::new(TRAIL_LIMIT);
        trail.add(x, y);
        DiffDriveModel {
            x: x,
            y: y,
            or_in_rad: or_in_rad,
            radius: radius,
            v: 0,
            w: 0,
            trail: trail,
            scale: scale,
            goal_x: goal.0,
            goal_y: goal.1,
        }
    }

    /// Places a robot at the given pose if it is far enough from the
    /// goal for the scale factor to be admissible; refuses it otherwise.
    pub fn try_spawn_at(x: i64, y: i64, or_in_rad: i64, radius: i64, goal: (i64, i64)) -> (m:
        Option<DiffDriveModel>)
        requires
            abs_s(x as int) <= COORD_LIMIT_FX,
            abs_s(y as int) <= COORD_LIMIT_FX,
            abs_s(or_in_rad as int) <= COORD_LIMIT_FX,
            abs_s(goal.0 as int) <= COORD_LIMIT_FX,
            abs_s(goal.1 as int) <= COORD_LIMIT_FX,
        ensures
            m.is_some() <==> sq(goal.0 - x) + sq(goal.1 - y) >= sq(MIN_SCALE_FX as int),
            m.is_some() ==> {
                let mm = m.unwrap();
                &&& mm.wf()
                &&& mm.x == x && mm.y == y && mm.or_in_rad == or_in_rad && mm.radius == radius
                &&& mm.v == 0 && mm.w == 0
                &&& mm.goal_x == goal.0 && mm.goal_y == goal.1
                &&& is_isqrt(sq(goal.0 - x) + sq(goal.1 - y), mm.scale as int)
                &&& mm.trail.queue@ =~= seq![(x, y)]
                &&& mm.trail.limit == TRAIL_LIMIT
            },
    {
        let dx: i128 = (goal.0 as i128) - (x as i128);
        let dy: i128 = (goal.1 as i128) - (y as i128);
        proof {
            assert(dx * dx == sq(goal.0 - x) && dy * dy == sq(goal.1 - y)
                && sq(goal.0 - x) >= 0 && sq(goal.1 - y) >= 0
                && sq(goal.0 - x) <= 0x8000_0000_0000_0000_0000_0000int
                && sq(goal.1 - y) <= 0x8000_0000_0000_0000_0000_0000int) by (nonlinear_arith)
                requires
                    dx == goal.0 - x,
                    dy == goal.1 - y,
                    abs_s(goal.0 - x) <= 2_000_000_000_000int,
                    abs_s(goal.1 - y) <= 2_000_000_000_000int,
            ;
        }
        let n: i128 = dx * dx + dy * dy;
        proof {
            assert(sq(MIN_SCALE_FX as int) == 1_000_000int) by (nonlinear_arith);
        }
        if n >= 1_000_000i128 {
            Some(DiffDriveModel::spawn_at(x, y, or_in_rad, radius, goal))
        } else {
            None
        }
    }


    /// Places a robot deterministically from three raw draws, one per
    /// pose coordinate, each mapped into its bounds by its remainder:
    /// fixed draws reproduce one fixed spawn. A draw that lands too
    /// close to the goal for the scale factor to be admissible is
    /// refused, exactly as `try_spawn_at` decides.
    pub fn spawn_from_draws(
        x_bounds: (i64, i64),
        y_bounds: (i64, i64),
        or_bounds: (i64, i64),
        radius: i64,
        goal: (i64, i64),
        draws: (u64, u64, u64),
    ) -> (m: Option<DiffDriveModel>)
        requires
            x_bounds.0 < x_bounds.1,
            y_bounds.0 < y_bounds.1,
            or_bounds.0 < or_bounds.1,
            abs_s(x_bounds.0 as int) <= COORD_LIMIT_FX,
            abs_s(x_bounds.1 as int) <= COORD_LIMIT_FX,
            abs_s(y_bounds.0 as int) <= COORD_LIMIT_FX,
            abs_s(y_bounds.1 as int) <= COORD_LIMIT_FX,
            abs_s(or_bounds.0 as int) <= COORD_LIMIT_FX,
            abs_s(or_bounds.1 as int) <= COORD_LIMIT_FX,
            abs_s(goal.0 as int) <= COORD_LIMIT_FX,
            abs_s(goal.1 as int) <= COORD_LIMIT_FX,
        ensures
            ({
                let px = x_bounds.0 + (draws.0 as int) % (x_bounds.1 - x_bounds.0 + 1);
                let py = y_bounds.0 + (draws.1 as int) % (y_bounds.1 - y_bounds.0 + 1);
                let por = or_bounds.0 + (draws.2 as int) % (or_bounds.1 - or_bounds.0 + 1);
                &&& (m.is_some() <==> sq(goal.0 - px) + sq(goal.1 - py) >= sq(
                    MIN_SCALE_FX as int,
                ))
                &&& m.is_some() ==> {
                    let mm = m.unwrap();
                    &&& mm.wf()
                    &&& mm.x == px && mm.y == py && mm.or_in_rad == por
                    &&& mm.radius == radius
                    &&& mm.v == 0 && mm.w == 0
                    &&& mm.goal_x == goal.0 && mm.goal_y == goal.1
                    &&& is_isqrt(sq(goal.0 - mm.x) + sq(goal.1 - mm.y), mm.scale as int)
                    &&& mm.trail.queue@ =~= seq![(mm.x, mm.y)]
                }
            }),
    {
        let x = sample_in_range(x_bounds.0, x_bounds.1, draws.0);
        let y = sample_in_range(y_bounds.0, y_bounds.1, draws.1);
        let or_in_rad = sample_in_range(or_bounds.0, or_bounds.1, draws.2);
        DiffDriveModel::try_spawn_at(x, y, or_in_rad, radius, goal)
    }

    /// Draws a pose uniformly within the given inclusive bounds and
    /// places a robot there against `goal`. A draw that lands too
    /// close to the goal for the scale factor to be admissible is
    /// refused; `try_spawn_at` decides deterministically, and when
    /// every point of the spawn region is far enough from the goal, no
    /// draw can be refused.
    pub fn spawn_randomly(
        x_bounds: (i64, i64),
        y_bounds: (i64, i64),
        or_bounds: (i64, i64),
        radius: i64,
        goal: (i64, i64),
    ) -> (m: Option<DiffDriveModel>)
        requires
            x_bounds.0 < x_bounds.1,
            y_bounds.0 < y_bounds.1,
            or_bounds.0 < or_bounds.1,
            abs_s(x_bounds.0 as int) <= COORD_LIMIT_FX,
            abs_s(x_bounds.1 as int) <= COORD_LIMIT_FX,
            abs_s(y_bounds.0 as int) <= COORD_LIMIT_FX,
            abs_s(y_bounds.1 as int) <= COORD_LIMIT_FX,
            abs_s(or_bounds.0 as int) <= COORD_LIMIT_FX,
            abs_s(or_bounds.1 as int) <= COORD_LIMIT_FX,
            abs_s(goal.0 as int) <= COORD_LIMIT_FX,
            abs_s(goal.1 as int) <= COORD_LIMIT_FX,
        ensures
            m.is_some() ==> {
                let mm = m.unwrap();
                &&& mm.wf()
                &&& x_bounds.0 <= mm.x <= x_bounds.1
                &&& y_bounds.0 <= mm.y <= y_bounds.1
                &&& or_bounds.0 <= mm.or_in_rad <= or_bounds.1
                &&& mm.radius == radius
                &&& mm.v == 0 && mm.w == 0
                &&& mm.goal_x == goal.0 && mm.goal_y == goal.1
                &&& is_isqrt(sq(goal.0 - mm.x) + sq(goal.1 - mm.y), mm.scale as int)
                &&& mm.trail.queue@ =~= seq![(mm.x, mm.y)]
            },
            (forall|px: int, py: int|
                #![trigger sq(goal.0 - px), sq(goal.1 - py)]
                x_bounds.0 <= px <= x_bounds.1 && y_bounds.0 <= py <= y_bounds.1
                    ==> sq(goal.0 - px) + sq(goal.1 - py) >= sq(MIN_SCALE_FX as int))
                ==> m.is_some(),
            m.is_none() ==> exists|px: int, py: int|
                #![trigger sq(goal.0 - px), sq(goal.1 - py)]
                x_bounds.0 <= px <= x_bounds.1 && y_bounds.0 <= py <= y_bounds.1
                    && sq(goal.0 - px) + sq(goal.1 - py) < sq(MIN_SCALE_FX as int),
    {
        let d = (rand::random::<u64>(), rand::random::<u64>(), rand::random::<u64>());
        let m = DiffDriveModel::spawn_from_draws(x_bounds, y_bounds, or_bounds, radius, goal, d);
        proof {
            let px = x_bounds.0 + (d.0 as int) % (x_bounds.1 - x_bounds.0 + 1);
            let py = y_bounds.0 + (d.1 as int) % (y_bounds.1 - y_bounds.0 + 1);
            vstd::arithmetic::div_mod::lemma_mod_pos_bound(
                d.0 as int,
                x_bounds.1 - x_bounds.0 + 1,
            );
            vstd::arithmetic::div_mod::lemma_mod_pos_bound(
                d.1 as int,
                y_bounds.1 - y_bounds.0 + 1,
            );
            assert(x_bounds.0 <= px <= x_bounds.1 && y_bounds.0 <= py <= y_bounds.1);
            if m.is_none() {
                assert(sq(goal.0 - px) + sq(goal.1 - py) < sq(MIN_SCALE_FX as int));
            } else {
                assert(sq(goal.0 - px) + sq(goal.1 - py) >= sq(MIN_SCALE_FX as int));
            }
        }
        m
    }

    /// Advances the pose one time step under unicycle kinematics and
    /// records the new position on the trail.
    pub fn update(&mut self, dt: i64)
        requires
            old(self).wf(),
            0 < dt <= MAX_DT_FX,
            abs_s(old(self).x as int) <= 2 * POS_LIMIT_FX,
            abs_s(old(self).y as int) <= 2 * POS_LIMIT_FX,
            abs_s(old(self).or_in_rad as int) <= 2 * POS_LIMIT_FX,
        ensures
            final(self).sim() == step_sim(old(self).sim(), dt as int),
            final(self).wf(),
            final(self).radius == old(self).radius,
            final(self).trail.limit == old(self).trail.limit,
            final(self).trail.queue@ == trail_add_s(
                old(self).trail.queue@,
                old(self).trail.limit as int,
                (final(self).x, final(self).y),
            ),
            abs_s(final(self).x as int) <= abs_s(old(self).x as int) + 200_000_000,
            abs_s(final(self).y as int) <= abs_s(old(self).y as int) + 200_000_000,
            abs_s(final(self).or_in_rad as int) <= abs_s(old(self).or_in_rad as int) + 10_000_000,
    {
        let c = fp_cos(self.or_in_rad);
        let s = fp_sin(self.or_in_rad);
        proof {
            lemma_fmul_bound(self.v as int, c as int, 20_000_000int, 1_000_000int);
        }
        let vc = fp_mul(self.v, c);
        proof {
            lemma_fmul_bound(self.v as int, s as int, 20_000_000int, 1_000_000int);
        }
        let vs = fp_mul(self.v, s);
        proof {
            lemma_fmul_bound(vc as int, dt as int, 20_000_000int, 10_000_000int);
            lemma_fmul_bound(vs as int, dt as int, 20_000_000int, 10_000_000int);
            lemma_fmul_bound(self.w as int, dt as int, 1_000_000int, 10_000_000int);
        }
        let dx = fp_mul(vc, dt);
        let dy = fp_mul(vs, dt);
        let dor = fp_mul(self.w, dt);
        self.x = self.x + dx;
        self.y = self.y + dy;
        self.or_in_rad = self.or_in_rad + dor;
        self.trail.add(self.x, self.y);
    }

    /// The goal-relative displacement normalized by the scale factor,
    /// and the orientation wrapped by a half turn. The wrap keeps the
    /// hardware remainder's sign, and so reports facing the goal and
    /// facing directly away from it along the same line as one value.
    pub fn scaled_state(&self) -> (r: (i64, i64, i64))
        requires
            self.wf(),
            abs_s(self.x as int) <= 2 * POS_LIMIT_FX,
            abs_s(self.y as int) <= 2 * POS_LIMIT_FX,
            abs_s(self.or_in_rad as int) <= 2 * POS_LIMIT_FX,
        ensures
            r.0 as int == scaled_of(self.sim()).0,
            r.1 as int == scaled_of(self.sim()).1,
            r.2 as int == scaled_of(self.sim()).2,
            abs_s(r.0 as int) <= 3_000_000_000_000_000_000int,
            abs_s(r.1 as int) <= 3_000_000_000_000_000_000int,
    {
        let dx = self.goal_x - self.x;
        let dy = self.goal_y - self.y;
        proof {
            lemma_fdiv_bound(dx as int, self.scale as int, 2_001_000_000_000_000int, 1_000int);
            lemma_fdiv_bound(dy as int, self.scale as int, 2_001_000_000_000_000int, 1_000int);
        }
        (fp_div(dx, self.scale), fp_div(dy, self.scale), fp_mod_pi(self.or_in_rad))
    }


    /// The robot's pose: position and orientation, unnormalized.
    pub fn state(&self) -> (r: (i64, i64, i64))
        ensures
            r == (self.x, self.y, self.or_in_rad),
    {
        (self.x, self.y, self.or_in_rad)
    }

    /// The current control command.
    pub fn control(&self) -> (r: (i64, i64))
        ensures
            r == (self.v, self.w),
    {
        (self.v, self.w)
    }

    /// Replaces the control command, clamping each axis to its bounds.
    pub fn set_control(&mut self, v: i64, w: i64)
        ensures
            final(self).v == clamp_s(v as int, V_MIN_FX as int, V_MAX_FX as int),
            final(self).w == clamp_s(w as int, W_MIN_FX as int, W_MAX_FX as int),
            V_MIN_FX <= final(self).v <= V_MAX_FX,
            W_MIN_FX <= final(self).w <= W_MAX_FX,
            *final(self) == (DiffDriveModel { v: final(self).v, w: final(self).w, ..*old(self) }),
    {
        self.v = clamp_fx(v, V_MIN_FX, V_MAX_FX);
        self.w = clamp_fx(w, W_MIN_FX, W_MAX_FX);
    }

    /// Adds a delta to the control command, clamping each axis to its
    /// bounds; total for any delta magnitude.
    pub fn increment_control(&mut self, dv: i64, dw: i64)
        ensures
            final(self).v == clamp_s(
                old(self).v + dv as int,
                V_MIN_FX as int,
                V_MAX_FX as int,
            ),
            final(self).w == clamp_s(
                old(self).w + dw as int,
                W_MIN_FX as int,
                W_MAX_FX as int,
            ),
            V_MIN_FX <= final(self).v <= V_MAX_FX,
            W_MIN_FX <= final(self).w <= W_MAX_FX,
            *final(self) == (DiffDriveModel { v: final(self).v, w: final(self).w, ..*old(self) }),
    {
        let nv: i128 = (self.v as i128) + (dv as i128);
        let nw: i128 = (self.w as i128) + (dw as i128);
        self.v = if nv < (V_MIN_FX as i128) {
            V_MIN_FX
        } else if nv > (V_MAX_FX as i128) {
            V_MAX_FX
        } else {
            nv as i64
        };
        self.w = if nw < (W_MIN_FX as i128) {
            W_MIN_FX
        } else if nw > (W_MAX_FX as i128) {
            W_MAX_FX
        } else {
            nw as i64
        };
    }
}

/// Orientation accumulates linearly under a held control: after `n`
/// steps it is the initial orientation plus `n` times the per-step
/// increment, whatever the translation does.
pub proof fn lemma_orientation_linear(s: SimState, dt: int, n: nat)
    ensures
        step_n(s, dt, n).or_in_rad == s.or_in_rad + n * fmul(s.w, dt),
        step_n(s, dt, n).v == s.v,
        step_n(s, dt, n).w == s.w,
        step_n(s, dt, n).scale == s.scale,
        step_n(s, dt, n).goal_x == s.goal_x,
        step_n(s, dt, n).goal_y == s.goal_y,
    decreases n,
{
    if n > 0 {
        lemma_orientation_linear(s, dt, (n - 1) as nat);
        assert(n * fmul(s.w, dt) == (n - 1) * fmul(s.w, dt) + fmul(s.w, dt))
            by (nonlinear_arith)
            requires
                n >= 1,
        ;
    }
}

/// With zero angular velocity the pose traces a straight line: the
/// orientation stays put and each step adds the same displacement.
pub proof fn lemma_straight_line(s: SimState, dt: int, n: nat)
    requires
        s.w == 0,
    ensures
        step_n(s, dt, n).or_in_rad == s.or_in_rad,
        step_n(s, dt, n).x == s.x + n * fmul(fmul(s.v, cos_s(s.or_in_rad)), dt),
        step_n(s, dt, n).y == s.y + n * fmul(fmul(s.v, sin_s(s.or_in_rad)), dt),
    decreases n,
{
    if n > 0 {
        lemma_straight_line(s, dt, (n - 1) as nat);
        lemma_orientation_linear(s, dt, (n - 1) as nat);
        assert(0int * dt == 0) by (nonlinear_arith);
        let cx = fmul(fmul(s.v, cos_s(s.or_in_rad)), dt);
        let cy = fmul(fmul(s.v, sin_s(s.or_in_rad)), dt);
        assert(n * cx == (n - 1) * cx + cx && n * cy == (n - 1) * cy + cy)
            by (nonlinear_arith)
            requires
                n >= 1,
        ;
    }
}

} // verus!
