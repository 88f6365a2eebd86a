//! The episodic reward evaluator.
//!
//! A reward configuration carries the spawn and goal regions and the
//! episode length. Evaluating a policy samples a goal and a spawn per
//! episode, drives the model one tick at a time — query the policy at
//! the normalized state, clamp and apply its control, step the
//! dynamics — while accumulating shaped penalties, adds a terminal
//! bonus for ending near the goal and nearly at rest, and averages the
//! episode values. All quantities are fixed-point micro-units.

use vstd::prelude::*;
use crate::fixed::{
    abs_s, clamp_s, cos_s, sin_s, exp_neg_s, fdiv, fmul, sq, is_isqrt, isqrt_s, tdiv,
    fp_hypot, fp_div, fp_cos, fp_sin, fp_exp_neg, fp_mul,
    lemma_isqrt_le, lemma_isqrt_exists, lemma_isqrt_unique, lemma_sq_le, lemma_fdiv_bound, lemma_fmul_bound,
    lemma_tdiv_abs, lemma_exp_neg_bounds, lemma_component_le_norm, lemma_unit_component,
    SCALE,
};
use crate::model::{
    DiffDriveModel, SimState, scaled_of, step_sim, V_MIN_FX, V_MAX_FX, W_MIN_FX, W_MAX_FX,
    COORD_LIMIT_FX, MIN_SCALE_FX,
};
use crate::goal::Goal;
use crate::policy::{Policy, ZeroPolicy};

verus! {

/// The time step of one reward tick: a tenth of a second.
pub const DT_FX: i64 = 100_000;

/// Greatest admissible episode length, in ticks.
pub const MAX_TICKS: usize = 1_000_000;

/// Greatest admissible number of episodes per evaluation.
pub const MAX_EPISODES: usize = 1_000_000_000;

/// The length of the normalized goal displacement `(dx, dy)`.
pub open spec fn dist_of(dx: int, dy: int) -> int {
    isqrt_s(sq(dx) + sq(dy))
}

/// The angular deviation: the distance between the unit vector toward
/// the goal and the heading vector of the wrapped orientation. A
/// vanished displacement contributes the zero vector.
pub open spec fn angular_dev_s(dx: int, dy: int, orw: int) -> int {
    let norm = dist_of(dx, dy);
    let xh = if norm == 0 {
        0int
    } else {
        fdiv(dx, norm)
    };
    let yh = if norm == 0 {
        0int
    } else {
        fdiv(dy, norm)
    };
    isqrt_s(sq(xh - cos_s(orw)) + sq(yh - sin_s(orw)))
}

/// The shaped penalty of one tick at the normalized state reached
/// after stepping: the decayed angular deviation, the magnitude of the
/// angular velocity, and thirty times the normalized distance.
pub open spec fn tick_penalty_s(dx: int, dy: int, orw: int, w: int, tick: int) -> int {
    angular_dev_s(dx, dy, orw) / (1 + tick) + abs_s(w) + 30 * dist_of(dx, dy)
}

/// One reward tick: query the policy at the normalized state, clamp
/// and set its control, step the dynamics, and charge the penalty at
/// the new state.
pub open spec fn tick_sim<P: Policy>(p: &P, s: SimState, tick: int) -> (SimState, int) {
    let st0 = scaled_of(s);
    let c = p.spec_control(st0.0, st0.1, st0.2);
    let s1 = SimState {
        v: clamp_s(c.0, V_MIN_FX as int, V_MAX_FX as int),
        w: clamp_s(c.1, W_MIN_FX as int, W_MAX_FX as int),
        ..s
    };
    let s2 = step_sim(s1, DT_FX as int);
    let st = scaled_of(s2);
    (s2, tick_penalty_s(st.0, st.1, st.2, s2.w, tick))
}

/// The reward ticks from `tick` to `t_end`: the final state and the
/// accumulated penalty.
pub open spec fn run_ticks_sim<P: Policy>(p: &P, s: SimState, tick: int, t_end: int) -> (
    SimState,
    int,
)
    decreases t_end - tick,
{
    if tick >= t_end {
        (s, 0int)
    } else {
        let r1 = tick_sim(p, s, tick);
        let r2 = run_ticks_sim(p, r1.0, tick + 1, t_end);
        (r2.0, r1.1 + r2.1)
    }
}

/// The terminal bonus: rewards ending near the goal, and ending nearly
/// at rest when also near the goal.
pub open spec fn terminal_bonus_s(dist: int, v: int, w: int) -> int {
    200 * exp_neg_s(dist) + 200 * fmul(exp_neg_s(abs_s(v)), exp_neg_s(dist)) + 200 * fmul(
        exp_neg_s(abs_s(w)),
        exp_neg_s(dist),
    )
}

/// The value of one episode of `t_end` ticks from the state `s0`: the
/// terminal bonus at the final state less the accumulated penalties.
pub open spec fn episode_value_s<P: Policy>(p: &P, s0: SimState, t_end: int) -> int {
    let r = run_ticks_sim(p, s0, 0, t_end);
    let st = scaled_of(r.0);
    terminal_bonus_s(dist_of(st.0, st.1), r.0.v, r.0.w) - r.1
}

/// Running one more tick at the end extends the run by that tick.
pub proof fn lemma_run_ticks_snoc<P: Policy>(p: &P, s: SimState, a: int, b: int)
    requires
        a <= b,
    ensures
        run_ticks_sim(p, s, a, b + 1).0 == tick_sim(p, run_ticks_sim(p, s, a, b).0, b).0,
        run_ticks_sim(p, s, a, b + 1).1 == run_ticks_sim(p, s, a, b).1 + tick_sim(
            p,
            run_ticks_sim(p, s, a, b).0,
            b,
        ).1,
    decreases b - a,
{
    let r1 = tick_sim(p, s, a);
    if a == b {
        assert(run_ticks_sim(p, s, a, a).0 == s);
        assert(run_ticks_sim(p, r1.0, a + 1, a + 1).1 == 0);
        assert(run_ticks_sim(p, s, a, a + 1).1 == r1.1 + run_ticks_sim(p, r1.0, a + 1, a + 1).1);
    } else {
        lemma_run_ticks_snoc(p, r1.0, a + 1, b);
        assert(run_ticks_sim(p, s, a, b).1 == r1.1 + run_ticks_sim(p, r1.0, a + 1, b).1);
        assert(run_ticks_sim(p, s, a, b + 1).1 == r1.1 + run_ticks_sim(p, r1.0, a + 1, b + 1).1);
    }
}

/// Evaluates the shaped penalty of one tick at a normalized state.
pub fn tick_penalty(dx: i64, dy: i64, orw: i64, w: i64, tick: usize) -> (r: i128)
    requires
        abs_s(dx as int) <= 300_000_000_000_000_000,
        abs_s(dy as int) <= 300_000_000_000_000_000,
        orw > i64::MIN,
        W_MIN_FX <= w <= W_MAX_FX,
        tick <= MAX_TICKS,
    ensures
        r == tick_penalty_s(dx as int, dy as int, orw as int, w as int, tick as int),
        0 <= r <= 20_000_000_000_000_000_000i128,
{
    let norm = fp_hypot(dx, dy);
    proof {
        lemma_component_le_norm(dx as int, dy as int, norm as int);
        assert(sq(430_000_000_000_000_000int)
            == 184_900_000_000_000_000_000_000_000_000_000_000int) by (nonlinear_arith);
        assert(sq(dx as int) + sq(dy as int)
            <= 180_000_000_000_000_000_000_000_000_000_000_000int) by (nonlinear_arith)
            requires
                abs_s(dx as int) <= 300_000_000_000_000_000,
                abs_s(dy as int) <= 300_000_000_000_000_000,
        ;
        lemma_isqrt_le(sq(dx as int) + sq(dy as int), norm as int, 429_999_999_999_999_999int);
    }
    let xh: i64;
    let yh: i64;
    if norm == 0 {
        xh = 0;
        yh = 0;
    } else {
        proof {
            lemma_unit_component(dx as int, norm as int);
            lemma_unit_component(dy as int, norm as int);
        }
        xh = fp_div(dx, norm);
        yh = fp_div(dy, norm);
    }
    let c = fp_cos(orw);
    let sn = fp_sin(orw);
    let ddx = xh - c;
    let ddy = yh - sn;
    let dev = fp_hypot(ddx, ddy);
    proof {
        assert(sq(ddx as int) + sq(ddy as int) <= 8_000_000_000_000int
            && sq(2_900_000int + 1) > 8_000_000_000_000int) by (nonlinear_arith)
            requires
                abs_s(ddx as int) <= 2_000_000,
                abs_s(ddy as int) <= 2_000_000,
        ;
        lemma_isqrt_le(sq(ddx as int) + sq(ddy as int), dev as int, 2_900_000int);
    }
    let decayed: u64 = (dev as u64) / (1 + (tick as u64));
    let wa: i64 = if w < 0 {
        -w
    } else {
        w
    };
    let n30: i128 = 30 * (norm as i128);
    (decayed as i128) + (wa as i128) + n30
}

/// Evaluates the terminal bonus at a final normalized distance and
/// final control.
pub fn terminal_bonus(dist: i64, v: i64, w: i64) -> (r: i64)
    requires
        dist >= 0,
        v > i64::MIN,
        w > i64::MIN,
    ensures
        r == terminal_bonus_s(dist as int, v as int, w as int),
        0 <= r <= 600 * SCALE,
{
    let ed = fp_exp_neg(dist);
    let va: i64 = if v < 0 {
        -v
    } else {
        v
    };
    let wa: i64 = if w < 0 {
        -w
    } else {
        w
    };
    let ev = fp_exp_neg(va);
    let ew = fp_exp_neg(wa);
    proof {
        lemma_fmul_bound(ev as int, ed as int, 1_000_000int, 1_000_000int);
        lemma_fmul_bound(ew as int, ed as int, 1_000_000int, 1_000_000int);
        assert((ev as int) * (ed as int) >= 0 && (ew as int) * (ed as int) >= 0)
            by (nonlinear_arith)
            requires
                ev >= 0,
                ed >= 0,
                ew >= 0,
        ;
        vstd::arithmetic::div_mod::lemma_div_pos_is_pos((ev as int) * (ed as int), SCALE as int);
        vstd::arithmetic::div_mod::lemma_div_pos_is_pos((ew as int) * (ed as int), SCALE as int);
    }
    let t2 = fp_mul(ev, ed);
    let t3 = fp_mul(ew, ed);
    200 * ed + 200 * t2 + 200 * t3
}

/// Runs one episode of `num_ticks` reward ticks on a freshly spawned
/// model, returning the episode value. The result is pinned to the
/// mathematical episode value, so a fixed spawn, goal and policy give
/// one reproducible outcome.
pub fn run_episode<P: Policy>(model: &mut DiffDriveModel, policy: &P, num_ticks: usize) -> (r:
    i128)
    requires
        old(model).wf(),
        num_ticks <= MAX_TICKS,
        abs_s(old(model).x as int) <= COORD_LIMIT_FX,
        abs_s(old(model).y as int) <= COORD_LIMIT_FX,
        abs_s(old(model).or_in_rad as int) <= COORD_LIMIT_FX,
    ensures
        r == episode_value_s(policy, old(model).sim(), num_ticks as int),
        final(model).sim() == run_ticks_sim(policy, old(model).sim(), 0, num_ticks as int).0,
        final(model).wf(),
        r <= 600 * (SCALE as int),
        r >= -(num_ticks as int) * 20_000_000_000_000_000_000,
{
    let ghost s0 = model.sim();
    let mut acc: i128 = 0;
    let mut tick: usize = 0;
    while tick < num_ticks
        invariant
            model.wf(),
            tick <= num_ticks <= MAX_TICKS,
            model.sim() == run_ticks_sim(policy, s0, 0, tick as int).0,
            acc == run_ticks_sim(policy, s0, 0, tick as int).1,
            0 <= acc <= (tick as int) * 20_000_000_000_000_000_000,
            abs_s(model.x as int) <= COORD_LIMIT_FX + (tick as int) * 200_000_000,
            abs_s(model.y as int) <= COORD_LIMIT_FX + (tick as int) * 200_000_000,
            abs_s(model.or_in_rad as int) <= COORD_LIMIT_FX + (tick as int) * 10_000_000,
        decreases num_ticks - tick,
    {
        let ghost s_prev = model.sim();
        let st = model.scaled_state();
        let c = policy.control_for(st.0, st.1, st.2);
        model.set_control(c.0, c.1);
        model.update(DT_FX);
        let st2 = model.scaled_state();
        proof {
            lemma_fdiv_bound(
                model.goal_x - model.x,
                model.scale as int,
                300_000_000_000_000int,
                1_000int,
            );
            lemma_fdiv_bound(
                model.goal_y - model.y,
                model.scale as int,
                300_000_000_000_000int,
                1_000int,
            );
        }
        let pen = tick_penalty(st2.0, st2.1, st2.2, model.w, tick);
        proof {
            lemma_run_ticks_snoc(policy, s0, 0, tick as int);
            assert(model.sim() == tick_sim(policy, s_prev, tick as int).0);
            assert(pen == tick_sim(policy, s_prev, tick as int).1);
        }
        acc = acc + pen;
        tick = tick + 1;
    }
    let stf = model.scaled_state();
    proof {
        lemma_fdiv_bound(
            model.goal_x - model.x,
            model.scale as int,
            300_000_000_000_000int,
            1_000int,
        );
        lemma_fdiv_bound(
            model.goal_y - model.y,
            model.scale as int,
            300_000_000_000_000int,
            1_000int,
        );
    }
    let dist = fp_hypot(stf.0, stf.1);
    let bonus = terminal_bonus(dist, model.v, model.w);
    (bonus as i128) - acc
}

pub(crate) fn div_i128(a: i128, b: i128) -> (r: i128)
    requires
        b >= 1,
        a > i128::MIN,
    ensures
        r == tdiv(a as int, b as int),
{
    if a >= 0 {
        proof {
            vstd::arithmetic::div_mod::lemma_div_nonincreasing(a as int, b as int);
        }
        let q: u128 = (a as u128) / (b as u128);
        q as i128
    } else {
        proof {
            vstd::arithmetic::div_mod::lemma_div_nonincreasing(-(a as int), b as int);
        }
        let q: u128 = ((-a) as u128) / (b as u128);
        -(q as i128)
    }
}


/// One episode's sampled fate: the drawn goal, the drawn spawn point,
/// and whether the spawn was admitted — a draw is refused exactly when
/// it lands within the minimum spawn distance of its goal.
pub ghost struct EpisodeSample {
    pub goal_x: int,
    pub goal_y: int,
    pub x: int,
    pub y: int,
    pub or_in_rad: int,
    pub spawned: bool,
}

/// The state a spawned episode starts from: the drawn pose at rest,
/// its scale the distance to the drawn goal.
pub open spec fn spawn_state(e: EpisodeSample) -> SimState {
    SimState {
        x: e.x,
        y: e.y,
        or_in_rad: e.or_in_rad,
        v: 0,
        w: 0,
        scale: isqrt_s(sq(e.goal_x - e.x) + sq(e.goal_y - e.y)),
        goal_x: e.goal_x,
        goal_y: e.goal_y,
    }
}

/// What one episode contributes to the evaluation sum: its episode
/// value when the spawn was admitted, nothing when it was refused.
pub open spec fn episode_outcome<P: Policy>(p: &P, e: EpisodeSample, t_end: int) -> int {
    if e.spawned {
        episode_value_s(p, spawn_state(e), t_end)
    } else {
        0int
    }
}

/// The sum of the episode contributions of a sequence of samples.
pub open spec fn outcomes_sum<P: Policy>(p: &P, es: Seq<EpisodeSample>, t_end: int) -> int
    decreases es.len(),
{
    if es.len() == 0 {
        0int
    } else {
        outcomes_sum(p, es.drop_last(), t_end) + episode_outcome(p, es.last(), t_end)
    }
}

/// The configuration of the reward evaluator: spawn and goal regions,
/// body radius, and episode length.
pub struct DiffDriveReward {
    pub start_x_bounds: (i64, i64),
    pub start_y_bounds: (i64, i64),
    pub start_or_bounds: (i64, i64),
    pub radius: i64,
    pub goal_x_bounds: (i64, i64),
    pub goal_y_bounds: (i64, i64),
    pub num_episode_ticks: usize,
}

impl DiffDriveReward {
    /// A valid configuration: every bound pair strictly ordered and in
    /// coordinate range, and the episode length admissible.
    pub open spec fn wf(&self) -> bool {
        &&& self.start_x_bounds.0 < self.start_x_bounds.1
        &&& self.start_y_bounds.0 < self.start_y_bounds.1
        &&& self.start_or_bounds.0 < self.start_or_bounds.1
        &&& self.goal_x_bounds.0 < self.goal_x_bounds.1
        &&& self.goal_y_bounds.0 < self.goal_y_bounds.1
        &&& abs_s(self.start_x_bounds.0 as int) <= COORD_LIMIT_FX
        &&& abs_s(self.start_x_bounds.1 as int) <= COORD_LIMIT_FX
        &&& abs_s(self.start_y_bounds.0 as int) <= COORD_LIMIT_FX
        &&& abs_s(self.start_y_bounds.1 as int) <= COORD_LIMIT_FX
        &&& abs_s(self.start_or_bounds.0 as int) <= COORD_LIMIT_FX
        &&& abs_s(self.start_or_bounds.1 as int) <= COORD_LIMIT_FX
        &&& abs_s(self.goal_x_bounds.0 as int) <= COORD_LIMIT_FX
        &&& abs_s(self.goal_x_bounds.1 as int) <= COORD_LIMIT_FX
        &&& abs_s(self.goal_y_bounds.0 as int) <= COORD_LIMIT_FX
        &&& abs_s(self.goal_y_bounds.1 as int) <= COORD_LIMIT_FX
        &&& self.num_episode_ticks <= MAX_TICKS
    }

    /// An episode sample this configuration could have drawn: goal and
    /// spawn point within their regions, admitted exactly when the
    /// spawn is far enough from the goal for the scale factor.
    pub open spec fn sample_within(&self, e: EpisodeSample) -> bool {
        &&& self.goal_x_bounds.0 <= e.goal_x <= self.goal_x_bounds.1
        &&& self.goal_y_bounds.0 <= e.goal_y <= self.goal_y_bounds.1
        &&& self.start_x_bounds.0 <= e.x <= self.start_x_bounds.1
        &&& self.start_y_bounds.0 <= e.y <= self.start_y_bounds.1
        &&& (e.spawned ==> self.start_or_bounds.0 <= e.or_in_rad <= self.start_or_bounds.1)
        &&& (e.spawned <==> sq(e.goal_x - e.x) + sq(e.goal_y - e.y) >= sq(MIN_SCALE_FX as int))
    }

    /// No admissible goal lies within the minimum spawn distance of
    /// any admissible spawn point.
    pub open spec fn region_separated(&self) -> bool {
        forall|px: int, py: int, gx: int, gy: int|
            #![trigger sq(gx - px), sq(gy - py)]
            self.start_x_bounds.0 <= px <= self.start_x_bounds.1
                && self.start_y_bounds.0 <= py <= self.start_y_bounds.1
                && self.goal_x_bounds.0 <= gx <= self.goal_x_bounds.1
                && self.goal_y_bounds.0 <= gy <= self.goal_y_bounds.1 ==> sq(gx - px) + sq(gy
                - py) >= sq(MIN_SCALE_FX as int)
    }

    /// Builds a configuration; every bound pair must be strictly
    /// ordered and within coordinate range.
    pub fn new(
        start_x_bounds: (i64, i64),
        start_y_bounds: (i64, i64),
        start_or_bounds: (i64, i64),
        radius: i64,
        goal_x_bounds: (i64, i64),
        goal_y_bounds: (i64, i64),
        num_episode_ticks: usize,
    ) -> (r: DiffDriveReward)
        requires
            start_x_bounds.0 < start_x_bounds.1,
            start_y_bounds.0 < start_y_bounds.1,
            start_or_bounds.0 < start_or_bounds.1,
            goal_x_bounds.0 < goal_x_bounds.1,
            goal_y_bounds.0 < goal_y_bounds.1,
            abs_s(start_x_bounds.0 as int) <= COORD_LIMIT_FX,
            abs_s(start_x_bounds.1 as int) <= COORD_LIMIT_FX,
            abs_s(start_y_bounds.0 as int) <= COORD_LIMIT_FX,
            abs_s(start_y_bounds.1 as int) <= COORD_LIMIT_FX,
            abs_s(start_or_bounds.0 as int) <= COORD_LIMIT_FX,
            abs_s(start_or_bounds.1 as int) <= COORD_LIMIT_FX,
            abs_s(goal_x_bounds.0 as int) <= COORD_LIMIT_FX,
            abs_s(goal_x_bounds.1 as int) <= COORD_LIMIT_FX,
            abs_s(goal_y_bounds.0 as int) <= COORD_LIMIT_FX,
            abs_s(goal_y_bounds.1 as int) <= COORD_LIMIT_FX,
            num_episode_ticks <= MAX_TICKS,
        ensures
            r.wf(),
            r.start_x_bounds == start_x_bounds,
            r.start_y_bounds == start_y_bounds,
            r.start_or_bounds == start_or_bounds,
            r.radius == radius,
            r.goal_x_bounds == goal_x_bounds,
            r.goal_y_bounds == goal_y_bounds,
            r.num_episode_ticks == num_episode_ticks,
    {
        DiffDriveReward {
            start_x_bounds: start_x_bounds,
            start_y_bounds: start_y_bounds,
            start_or_bounds: start_or_bounds,
            radius: radius,
            goal_x_bounds: goal_x_bounds,
            goal_y_bounds: goal_y_bounds,
            num_episode_ticks: num_episode_ticks,
        }
    }

    /// The spawn region's bounds on the x axis.
    pub fn start_x_bounds(&self) -> (r: (i64, i64))
        ensures
            r == self.start_x_bounds,
    {
        self.start_x_bounds
    }

    /// The spawn region's bounds on the y axis.
    pub fn start_y_bounds(&self) -> (r: (i64, i64))
        ensures
            r == self.start_y_bounds,
    {
        self.start_y_bounds
    }

    /// The spawn region's bounds on the orientation.
    pub fn start_or_bounds(&self) -> (r: (i64, i64))
        ensures
            r == self.start_or_bounds,
    {
        self.start_or_bounds
    }

    /// The robot's body radius; it has no effect on the simulation.
    pub fn radius(&self) -> (r: i64)
        ensures
            r == self.radius,
    {
        self.radius
    }

    /// The goal region's bounds on the x axis.
    pub fn goal_x_bounds(&self) -> (r: (i64, i64))
        ensures
            r == self.goal_x_bounds,
    {
        self.goal_x_bounds
    }

    /// The goal region's bounds on the y axis.
    pub fn goal_y_bounds(&self) -> (r: (i64, i64))
        ensures
            r == self.goal_y_bounds,
    {
        self.goal_y_bounds
    }

    /// Evaluates a policy: samples a goal and a spawn per episode,
    /// runs the episode, and returns the average of the episode values
    /// (truncated toward zero). The result is the truncated average of
    /// `num_episodes` episode contributions, each the episode value of
    /// a goal and spawn drawn within the configured regions — or
    /// nothing, for a spawn drawn too close to its goal for the scale
    /// factor to be admissible. With separated spawn and goal regions
    /// no draw is refused (`lemma_separated_samples_spawn`); what one
    /// episode is worth for a given spawn, goal and policy is pinned
    /// by `run_episode`.
    #[verifier::rlimit(50)]
    pub fn reward<P: Policy>(&self, policy: &P, num_episodes: usize) -> (r: i128)
        requires
            self.wf(),
            1 <= num_episodes <= MAX_EPISODES,
        ensures
            exists|es: Seq<EpisodeSample>|
                #![trigger outcomes_sum(policy, es, self.num_episode_ticks as int)]
                {
                    &&& es.len() == num_episodes as int
                    &&& (forall|j: int|
                        0 <= j < es.len() ==> self.sample_within(#[trigger] es[j]))
                    &&& r == tdiv(
                        outcomes_sum(policy, es, self.num_episode_ticks as int),
                        num_episodes as int,
                    )
                },
            r <= 600 * (SCALE as int),
            r >= -(self.num_episode_ticks as int) * 20_000_000_000_000_000_000,
    {
        let ghost floor = -(self.num_episode_ticks as int) * 20_000_000_000_000_000_000;
        let ghost t_end = self.num_episode_ticks as int;
        let ghost mut es: Seq<EpisodeSample> = Seq::empty();
        let mut sum: i128 = 0;
        let mut i: usize = 0;
        while i < num_episodes
            invariant
                self.wf(),
                i <= num_episodes <= MAX_EPISODES,
                sum <= (i as int) * 600_000_000,
                sum >= (i as int) * floor,
                floor == -(self.num_episode_ticks as int) * 20_000_000_000_000_000_000,
                -21_000_000_000_000_000_000_000_000 <= floor <= 0,
                t_end == self.num_episode_ticks as int,
                es.len() == i as int,
                forall|j: int| 0 <= j < es.len() ==> self.sample_within(#[trigger] es[j]),
                sum == outcomes_sum(policy, es, t_end),
            decreases num_episodes - i,
        {
            let g = Goal::in_region(self.goal_x_bounds, self.goal_y_bounds);
            let m_opt = DiffDriveModel::spawn_randomly(
                self.start_x_bounds,
                self.start_y_bounds,
                self.start_or_bounds,
                self.radius,
                g.coordinates(),
            );
            let ghost mut rec = EpisodeSample {
                goal_x: g.x as int,
                goal_y: g.y as int,
                x: 0,
                y: 0,
                or_in_rad: 0,
                spawned: false,
            };
            let mut ep: i128 = 0;
            match m_opt {
                Some(mut m) => {
                    let ghost s_init = m.sim();
                    proof {
                        rec = EpisodeSample {
                            goal_x: m.goal_x as int,
                            goal_y: m.goal_y as int,
                            x: m.x as int,
                            y: m.y as int,
                            or_in_rad: m.or_in_rad as int,
                            spawned: true,
                        };
                        let n = sq(rec.goal_x - rec.x) + sq(rec.goal_y - rec.y);
                        lemma_sq_le(MIN_SCALE_FX as int, m.scale as int);
                        lemma_isqrt_unique(n, m.scale as int);
                        assert(spawn_state(rec) == s_init);
                        assert(self.sample_within(rec));
                    }
                    ep = run_episode(&mut m, policy, self.num_episode_ticks);
                    proof {
                        assert(ep == episode_outcome(policy, rec, t_end));
                    }
                }
                None => {
                    proof {
                        let (px, py) = choose|px: int, py: int|
                            #![trigger sq(g.x - px), sq(g.y - py)]
                            self.start_x_bounds.0 <= px <= self.start_x_bounds.1
                                && self.start_y_bounds.0 <= py <= self.start_y_bounds.1 && sq(
                                g.x - px,
                            ) + sq(g.y - py) < sq(MIN_SCALE_FX as int);
                        rec = EpisodeSample {
                            goal_x: g.x as int,
                            goal_y: g.y as int,
                            x: px,
                            y: py,
                            or_in_rad: 0,
                            spawned: false,
                        };
                        assert(self.sample_within(rec));
                        assert(ep == episode_outcome(policy, rec, t_end));
                    }
                }
            }
            proof {
                let ghost prev = es;
                es = es.push(rec);
                assert(es.last() == rec);
                assert(es.drop_last() =~= prev);
                assert(outcomes_sum(policy, es, t_end) == outcomes_sum(policy, prev, t_end)
                    + episode_outcome(policy, rec, t_end));
                assert((i as int) * floor + floor == ((i as int) + 1) * floor)
                    by (nonlinear_arith);
                assert(sum >= -21_000_000_000_000_000_000_000_000_000_000_000int)
                    by (nonlinear_arith)
                    requires
                        sum >= (i as int) * floor,
                        0 <= i as int <= 1_000_000_000,
                        -21_000_000_000_000_000_000_000_000 <= floor <= 0,
                ;
            }
            sum = sum + ep;
            i = i + 1;
        }
        proof {
            let k = num_episodes as int;
            assert(sum > i128::MIN) by (nonlinear_arith)
                requires
                    sum >= k * floor,
                    1 <= k <= 1_000_000_000,
                    -21_000_000_000_000_000_000_000_000 <= floor <= 0,
            ;
            if sum >= 0 {
                vstd::arithmetic::div_mod::lemma_div_is_ordered(sum as int, k * 600_000_000, k);
                vstd::arithmetic::div_mod::lemma_div_multiples_vanish(600_000_000int, k);
            } else {
                assert(-(sum as int) <= k * (-floor)) by (nonlinear_arith)
                    requires
                        sum >= k * floor,
                ;
                vstd::arithmetic::div_mod::lemma_div_is_ordered(-(sum as int), k * (-floor), k);
                vstd::arithmetic::div_mod::lemma_div_multiples_vanish(-floor, k);
            }
        }
        let r = div_i128(sum, num_episodes as i128);
        proof {
            assert(es.len() == num_episodes as int && (forall|j: int|
                0 <= j < es.len() ==> self.sample_within(#[trigger] es[j])) && r == tdiv(
                outcomes_sum(policy, es, self.num_episode_ticks as int),
                num_episodes as int,
            ));
        }
        r
    }
}

/// With separated spawn and goal regions every admissible episode
/// sample is a spawned one: no refusal can stand in the average.
pub proof fn lemma_separated_samples_spawn(cfg: &DiffDriveReward, e: EpisodeSample)
    requires
        cfg.region_separated(),
        cfg.sample_within(e),
    ensures
        e.spawned,
{
    assert(sq(e.goal_x - e.x) + sq(e.goal_y - e.y) >= sq(MIN_SCALE_FX as int));
}

/// Averaging a number of episodes that all yield the same value gives
/// that value exactly.
pub proof fn lemma_average_of_equal(e: int, k: int)
    requires
        k >= 1,
    ensures
        tdiv(k * e, k) == e,
{
    if e >= 0 {
        assert(k * e >= 0) by (nonlinear_arith)
            requires
                k >= 1,
                e >= 0,
        ;
        vstd::arithmetic::div_mod::lemma_div_multiples_vanish(e, k);
    } else {
        assert(k * e < 0 && -(k * e) == k * (-e)) by (nonlinear_arith)
            requires
                k >= 1,
                e < 0,
        ;
        vstd::arithmetic::div_mod::lemma_div_multiples_vanish(-e, k);
    }
}

/// The terminal bonus is nonnegative and bounded by six hundred whole
/// units; it takes that bound exactly at the goal with zero control,
/// and vanishes once the final distance passes the exponential cutoff,
/// whatever the final control.
pub proof fn lemma_terminal_bonus_bounds(dist: int, v: int, w: int)
    requires
        dist >= 0,
    ensures
        0 <= terminal_bonus_s(dist, v, w) <= 600 * (SCALE as int),
        dist == 0 && v == 0 && w == 0 ==> terminal_bonus_s(dist, v, w) == 600 * (SCALE as int),
        dist >= 14 * (SCALE as int) ==> terminal_bonus_s(dist, v, w) == 0,
{
    broadcast use vstd::arithmetic::mul::lemma_mul_by_zero_is_zero;

    let sc = SCALE as int;
    let ed = exp_neg_s(dist);
    let ev = exp_neg_s(abs_s(v));
    let ew = exp_neg_s(abs_s(w));
    lemma_exp_neg_bounds(dist);
    lemma_exp_neg_bounds(abs_s(v));
    lemma_exp_neg_bounds(abs_s(w));
    lemma_fmul_bound(ev, ed, sc, sc);
    lemma_fmul_bound(ew, ed, sc, sc);
    assert((1_000_000int * 1_000_000int) / 1_000_000int == 1_000_000int) by (nonlinear_arith);
    assert(ev * ed >= 0 && ew * ed >= 0) by (nonlinear_arith)
        requires
            ev >= 0,
            ed >= 0,
            ew >= 0,
    ;
    vstd::arithmetic::div_mod::lemma_div_pos_is_pos(ev * ed, sc);
    vstd::arithmetic::div_mod::lemma_div_pos_is_pos(ew * ed, sc);
    if dist == 0 && v == 0 && w == 0 {
        assert(fmul(sc, sc) == sc);
    }
}

/// The state `s` with its control zeroed.
pub open spec fn halted(s: SimState) -> SimState {
    SimState { v: 0, w: 0, ..s }
}

/// The penalty one tick charges while the robot holds still at `s`.
pub open spec fn zero_tick_penalty(s: SimState, tick: int) -> int {
    let st = scaled_of(s);
    tick_penalty_s(st.0, st.1, st.2, 0, tick)
}

/// The standstill penalties accumulated from tick `a` to tick `b`.
pub open spec fn zero_penalty_sum(s: SimState, a: int, b: int) -> int
    decreases b - a,
{
    if a >= b {
        0int
    } else {
        zero_tick_penalty(s, a) + zero_penalty_sum(s, a + 1, b)
    }
}

/// Under the constant-zero policy one tick zeroes the control, leaves
/// the pose in place, and charges the standstill penalty.
pub proof fn lemma_zero_tick(zp: &ZeroPolicy, s: SimState, t: int)
    ensures
        tick_sim(zp, s, t).0 == halted(s),
        tick_sim(zp, s, t).1 == zero_tick_penalty(s, t),
{
    broadcast use vstd::arithmetic::mul::lemma_mul_by_zero_is_zero;

    assert(tick_sim(zp, s, t).0 == halted(s));
}

/// The standstill penalty depends on the normalized state alone.
pub proof fn lemma_zero_sum_scaled(s1: SimState, s2: SimState, a: int, b: int)
    requires
        scaled_of(s1) == scaled_of(s2),
    ensures
        zero_penalty_sum(s1, a, b) == zero_penalty_sum(s2, a, b),
    decreases b - a,
{
    if a < b {
        lemma_zero_sum_scaled(s1, s2, a + 1, b);
    }
}

/// Under the constant-zero policy a run halts the robot where it
/// stands and accumulates the standstill penalties.
pub proof fn lemma_zero_run(zp: &ZeroPolicy, s: SimState, a: int, b: int)
    requires
        a <= b,
    ensures
        run_ticks_sim(zp, s, a, b).0 == (if a == b {
            s
        } else {
            halted(s)
        }),
        run_ticks_sim(zp, s, a, b).1 == zero_penalty_sum(s, a, b),
    decreases b - a,
{
    if a < b {
        lemma_zero_tick(zp, s, a);
        lemma_zero_run(zp, halted(s), a + 1, b);
        lemma_zero_sum_scaled(halted(s), s, a + 1, b);
    }
}

/// Every tick's penalty is nonnegative.
pub proof fn lemma_tick_penalty_nonneg(dx: int, dy: int, orw: int, w: int, tick: int)
    requires
        tick >= 0,
    ensures
        tick_penalty_s(dx, dy, orw, w, tick) >= 0,
{
    assert(sq(dx) >= 0 && sq(dy) >= 0) by (nonlinear_arith);
    lemma_isqrt_exists(sq(dx) + sq(dy));
    let norm = dist_of(dx, dy);
    let xh = if norm == 0 {
        0int
    } else {
        fdiv(dx, norm)
    };
    let yh = if norm == 0 {
        0int
    } else {
        fdiv(dy, norm)
    };
    assert(sq(xh - cos_s(orw)) >= 0 && sq(yh - sin_s(orw)) >= 0) by (nonlinear_arith);
    lemma_isqrt_exists(sq(xh - cos_s(orw)) + sq(yh - sin_s(orw)));
    vstd::arithmetic::div_mod::lemma_div_pos_is_pos(angular_dev_s(dx, dy, orw), 1 + tick);
    assert(30 * dist_of(dx, dy) >= 0);
}

/// Under the constant-zero policy the episode value is a function of
/// the initial normalized state alone: two states with the same
/// normalized view are worth the same.
pub proof fn lemma_zero_policy_value_from_scaled(
    zp: &ZeroPolicy,
    s1: SimState,
    s2: SimState,
    t: int,
)
    requires
        t >= 1,
        scaled_of(s1) == scaled_of(s2),
    ensures
        episode_value_s(zp, s1, t) == episode_value_s(zp, s2, t),
{
    lemma_zero_run(zp, s1, 0, t);
    lemma_zero_run(zp, s2, 0, t);
    lemma_zero_sum_scaled(s1, s2, 0, t);
    assert(scaled_of(halted(s1)) == scaled_of(s1));
    assert(scaled_of(halted(s2)) == scaled_of(s2));
}

/// Appending one more standstill tick adds its penalty to the sum.
pub proof fn lemma_zero_sum_snoc(s: SimState, a: int, b: int)
    requires
        a <= b,
    ensures
        zero_penalty_sum(s, a, b + 1) == zero_penalty_sum(s, a, b) + zero_tick_penalty(s, b),
    decreases b - a,
{
    if a == b {
        assert(zero_penalty_sum(s, b + 1, b + 1) == 0);
        assert(zero_penalty_sum(s, b, b + 1) == zero_tick_penalty(s, b) + zero_penalty_sum(
            s,
            b + 1,
            b + 1,
        ));
    } else {
        lemma_zero_sum_snoc(s, a + 1, b);
        assert(zero_penalty_sum(s, a, b) == zero_tick_penalty(s, a) + zero_penalty_sum(s, a + 1, b));
        assert(zero_penalty_sum(s, a, b + 1) == zero_tick_penalty(s, a) + zero_penalty_sum(
            s,
            a + 1,
            b + 1,
        ));
    }
}

/// Under the constant-zero policy a longer episode is worth no more:
/// the robot stands still, the terminal bonus is unchanged, and the
/// distance penalty accrues every added tick.
pub proof fn lemma_zero_policy_monotone(zp: &ZeroPolicy, s: SimState, t: int)
    requires
        t >= 1,
    ensures
        episode_value_s(zp, s, t + 1) <= episode_value_s(zp, s, t),
{
    lemma_zero_run(zp, s, 0, t);
    lemma_zero_run(zp, s, 0, t + 1);
    lemma_zero_sum_snoc(s, 0, t);
    let st = scaled_of(s);
    lemma_tick_penalty_nonneg(st.0, st.1, st.2, 0, t);
    assert(scaled_of(halted(s)) == scaled_of(s));
}

/// At spawn time the normalized distance to the goal is one whole
/// unit, up to fixed-point rounding: the scale factor is exactly the
/// spawn-to-goal distance, so dividing that displacement by the scale
/// gives a unit vector. The slack below one is at most three
/// micro-units; the slack above shrinks with the scale and is at most
/// `SCALE / MIN_SCALE_FX` micro-units and change.
pub proof fn lemma_spawn_unit_distance(dx: int, dy: int, s: int)
    requires
        is_isqrt(sq(dx) + sq(dy), s),
        s >= 1_000,
    ensures
        (SCALE as int) - 3 <= dist_of(fdiv(dx, s), fdiv(dy, s)) <= (SCALE as int) + 1_003,
{
    let sc = SCALE as int;
    let a = fdiv(dx, s);
    let b = fdiv(dy, s);
    let ax = abs_s(dx);
    let ay = abs_s(dy);
    let aa = abs_s(a);
    let ab = abs_s(b);
    lemma_component_le_norm(dx, dy, s);
    assert(ax * ax == dx * dx && ay * ay == dy * dy) by (nonlinear_arith)
        requires
            ax == abs_s(dx),
            ay == abs_s(dy),
    ;
    lemma_tdiv_abs(dx * sc, s);
    lemma_tdiv_abs(dy * sc, s);
    assert(abs_s(dx * sc) == ax * sc && abs_s(dy * sc) == ay * sc);
    assert(aa == (ax * sc) / s && ab == (ay * sc) / s);
    vstd::arithmetic::div_mod::lemma_fundamental_div_mod(ax * sc, s);
    vstd::arithmetic::div_mod::lemma_fundamental_div_mod(ay * sc, s);
    vstd::arithmetic::div_mod::lemma_mod_pos_bound(ax * sc, s);
    vstd::arithmetic::div_mod::lemma_mod_pos_bound(ay * sc, s);
    assert(s * aa <= ax * sc < s * (aa + 1)) by (nonlinear_arith)
        requires
            ax * sc == s * ((ax * sc) / s) + (ax * sc) % s,
            0 <= (ax * sc) % s < s,
            aa == (ax * sc) / s,
    ;
    assert(s * ab <= ay * sc < s * (ab + 1)) by (nonlinear_arith)
        requires
            ay * sc == s * ((ay * sc) / s) + (ay * sc) % s,
            0 <= (ay * sc) % s < s,
            ab == (ay * sc) / s,
    ;
    // components of the unit vector are at most one unit
    assert(aa <= sc && ab <= sc) by (nonlinear_arith)
        requires
            s * aa <= ax * sc,
            s * ab <= ay * sc,
            ax <= s,
            ay <= s,
            s >= 1,
            sc >= 0,
            aa >= 0,
            ab >= 0,
    ;
    // upper bound on the squared normalized length
    assert(s * s * (aa * aa + ab * ab) <= (ax * ax + ay * ay) * (sc * sc)) by (nonlinear_arith)
        requires
            0 <= s * aa <= ax * sc,
            0 <= s * ab <= ay * sc,
    ;
    assert((ax * ax + ay * ay) * (sc * sc) < ((s + 1) * (s + 1)) * (sc * sc)) by (nonlinear_arith)
        requires
            ax * ax + ay * ay < (s + 1) * (s + 1),
            sc == 1_000_000,
    ;
    assert(((s + 1) * (s + 1)) * (sc * sc) <= s * s * ((sc + 1_004) * (sc + 1_004)))
        by (nonlinear_arith)
        requires
            s >= 1_000,
            sc == 1_000_000,
    ;
    assert(aa * aa + ab * ab < (sc + 1_004) * (sc + 1_004)) by (nonlinear_arith)
        requires
            s * s * (aa * aa + ab * ab) < s * s * ((sc + 1_004) * (sc + 1_004)),
            s >= 1,
    ;
    // lower bound on the squared normalized length, one component at
    // a time
    assert((ax * sc) * (ax * sc) < (s * (aa + 1)) * (s * (aa + 1))) by (nonlinear_arith)
        requires
            0 <= ax * sc,
            ax * sc < s * (aa + 1),
    ;
    assert((ay * sc) * (ay * sc) < (s * (ab + 1)) * (s * (ab + 1))) by (nonlinear_arith)
        requires
            0 <= ay * sc,
            ay * sc < s * (ab + 1),
    ;
    assert((ax * sc) * (ax * sc) == (ax * ax) * (sc * sc) && (s * (aa + 1)) * (s * (aa + 1)) == s
        * s * ((aa + 1) * (aa + 1))) by (nonlinear_arith);
    assert((ay * sc) * (ay * sc) == (ay * ay) * (sc * sc) && (s * (ab + 1)) * (s * (ab + 1)) == s
        * s * ((ab + 1) * (ab + 1))) by (nonlinear_arith);
    assert((ax * ax + ay * ay) * (sc * sc) == (ax * ax) * (sc * sc) + (ay * ay) * (sc * sc))
        by (nonlinear_arith);
    assert(s * s * ((aa + 1) * (aa + 1) + (ab + 1) * (ab + 1)) == s * s * ((aa + 1) * (aa + 1)) + s
        * s * ((ab + 1) * (ab + 1))) by (nonlinear_arith);
    assert(s * s * (sc * sc) <= (ax * ax + ay * ay) * (sc * sc)) by (nonlinear_arith)
        requires
            s * s <= ax * ax + ay * ay,
            sc == 1_000_000,
    ;
    assert(sc * sc < (aa + 1) * (aa + 1) + (ab + 1) * (ab + 1)) by (nonlinear_arith)
        requires
            s * s * (sc * sc) < s * s * ((aa + 1) * (aa + 1) + (ab + 1) * (ab + 1)),
            s >= 1,
    ;
    assert(aa * aa + ab * ab > sc * sc - 4 * sc - 2) by (nonlinear_arith)
        requires
            sc * sc < (aa + 1) * (aa + 1) + (ab + 1) * (ab + 1),
            aa <= sc,
            ab <= sc,
    ;
    // translate to the squares of the signed components
    assert(aa * aa == a * a && ab * ab == b * b) by (nonlinear_arith)
        requires
            aa == abs_s(a),
            ab == abs_s(b),
    ;
    let n = sq(a) + sq(b);
    lemma_isqrt_exists(n);
    let norm = isqrt_s(n);
    assert((sc - 3) * (sc - 3) <= sc * sc - 4 * sc - 1) by (nonlinear_arith)
        requires
            sc == 1_000_000,
    ;
    if norm < sc - 3 {
        lemma_sq_le(norm + 1, sc - 3);
    }
    lemma_isqrt_le(n, norm, sc + 1_003);
}

} // verus!
