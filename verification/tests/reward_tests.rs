use wall_e::model::DiffDriveModel;
use wall_e::policy::{ConstPolicy, ZeroPolicy};
use wall_e::reward::{run_episode, terminal_bonus, tick_penalty, DiffDriveReward};
use wall_e::sin_fit;

// Start at (5, 0) facing along the x axis, goal at the origin, one
// tick, constant-zero policy. The scale factor is five, the normalized
// state is (-1, 0, 0), nothing moves, so the tick charges the full
// angular deviation of two (facing away from the goal axis direction)
// plus thirty times the unit distance, and the terminal bonus is six
// hundred times exp(-1).
#[test]
fn one_tick_standstill_episode_value() {
    let mut m = DiffDriveModel::spawn_at(5_000_000, 0, 0, 100_000, (0, 0));
    let r = run_episode(&mut m, &ZeroPolicy {}, 1);
    let expected = 600 * 367_879 - 32_000_000;
    assert_eq!(r, expected);
    assert_eq!(expected, 188_727_400);
}

#[test]
fn standstill_episode_value_decreases_with_length() {
    let mut worths = Vec::new();
    for ticks in 1..5usize {
        let mut m = DiffDriveModel::spawn_at(5_000_000, 0, 0, 100_000, (0, 0));
        worths.push(run_episode(&mut m, &ZeroPolicy {}, ticks));
    }
    for pair in worths.windows(2) {
        assert!(pair[1] < pair[0]);
    }
}

#[test]
fn episodes_are_reproducible() {
    let mut m1 = DiffDriveModel::spawn_at(4_000_000, -3_000_000, 700_000, 100_000, (1_000, 2_000));
    let mut m2 = DiffDriveModel::spawn_at(4_000_000, -3_000_000, 700_000, 100_000, (1_000, 2_000));
    let p = ConstPolicy { v: 5_000_000, w: 200_000 };
    let r1 = run_episode(&mut m1, &p, 50);
    let r2 = run_episode(&mut m2, &p, 50);
    assert_eq!(r1, r2);
}

#[test]
fn terminal_bonus_peaks_at_rest_on_goal() {
    assert_eq!(terminal_bonus(0, 0, 0), 600_000_000);
    // attenuated entirely once the distance passes the cutoff
    assert_eq!(terminal_bonus(20_000_000, 123, -456), 0);
    // never above the peak
    for &(d, v, w) in &[(0, 0, 0), (1, 2, 3), (500_000, 5_000_000, -1_000_000), (13_999_999, 0, 0)]
    {
        let b = terminal_bonus(d, v, w);
        assert!(0 <= b && b <= 600_000_000);
    }
}

#[test]
fn terminal_bonus_rises_toward_goal_and_rest() {
    assert!(terminal_bonus(500_000, 0, 0) < terminal_bonus(0, 0, 0));
    assert!(terminal_bonus(500_000, 1_000_000, 0) < terminal_bonus(500_000, 0, 0));
    assert!(terminal_bonus(500_000, 0, 1_000_000) < terminal_bonus(500_000, 0, 0));
}

#[test]
fn tick_penalty_on_unit_displacement() {
    // facing away along the goal axis: deviation two, distance one
    assert_eq!(tick_penalty(-1_000_000, 0, 0, 0, 0), 32_000_000);
    // decay halves the deviation on the second tick
    assert_eq!(tick_penalty(-1_000_000, 0, 0, 0, 1), 31_000_000);
    // rotational jitter is charged as its magnitude
    assert_eq!(tick_penalty(-1_000_000, 0, 0, -700_000, 0), 32_700_000);
}

#[test]
fn reward_of_pinned_scenario_stays_in_bracket() {
    let cfg = DiffDriveReward::new(
        (4_999_000, 5_001_000),
        (-1_000, 1_000),
        (-1_000, 1_000),
        100_000,
        (-1_000, 1_000),
        (-1_000, 1_000),
        1,
    );
    for _ in 0..5 {
        let r = cfg.reward(&ZeroPolicy {}, 3);
        assert!(188_000_000 <= r && r <= 189_500_000);
    }
}

#[test]
fn reward_configuration_accessors() {
    let cfg = DiffDriveReward::new(
        (-1_000_000, 1_000_000),
        (-2_000_000, 2_000_000),
        (-3_000_000, 3_000_000),
        150_000,
        (4_000_000, 5_000_000),
        (6_000_000, 7_000_000),
        500,
    );
    assert_eq!(cfg.start_x_bounds(), (-1_000_000, 1_000_000));
    assert_eq!(cfg.start_y_bounds(), (-2_000_000, 2_000_000));
    assert_eq!(cfg.start_or_bounds(), (-3_000_000, 3_000_000));
    assert_eq!(cfg.radius(), 150_000);
    assert_eq!(cfg.goal_x_bounds(), (4_000_000, 5_000_000));
    assert_eq!(cfg.goal_y_bounds(), (6_000_000, 7_000_000));
}

#[test]
fn reward_never_exceeds_terminal_peak() {
    let cfg = DiffDriveReward::new(
        (-10_000_000, 10_000_000),
        (-10_000_000, 10_000_000),
        (-3_141_592, 3_141_592),
        100_000,
        (-10_000_000, 10_000_000),
        (-10_000_000, 10_000_000),
        20,
    );
    for _ in 0..5 {
        let r = cfg.reward(&ConstPolicy { v: 10_000_000, w: 300_000 }, 4);
        assert!(r <= 600_000_000);
    }
}

#[test]
fn mean_negative_squared_error() {
    assert_eq!(sin_fit::reward(&vec![(1_000_000, 500_000)]), -250_000);
    assert_eq!(sin_fit::reward(&vec![(1_000_000, 1_000_000), (2_000_000, 1_000_000)]), -500_000);
    // a perfect fit scores zero
    assert_eq!(sin_fit::reward(&vec![(123, 123), (-42, -42)]), 0);
}

#[test]
fn seeded_episodes_reproduce_trajectories() {
    let draws = (7_u64, 77_u64, 777_u64);
    let p = ConstPolicy { v: 8_000_000, w: -300_000 };
    let mut worths = Vec::new();
    for _ in 0..2 {
        let mut m = DiffDriveModel::spawn_from_draws(
            (4_000_000, 6_000_000),
            (-1_000_000, 1_000_000),
            (-500_000, 500_000),
            100_000,
            (0, 0),
            draws,
        )
        .expect("the spawn region is far from the goal");
        worths.push(run_episode(&mut m, &p, 40));
    }
    assert_eq!(worths[0], worths[1]);
}
