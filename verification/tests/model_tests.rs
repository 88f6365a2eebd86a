use wall_e::fixed::SCALE;
use wall_e::goal::{Goal, SLACK};
use wall_e::model::{DiffDriveModel, V_MAX_FX, W_MAX_FX, W_MIN_FX};
use wall_e::trail::Trail;

#[test]
fn spawn_scale_is_distance_to_goal() {
    let m = DiffDriveModel::spawn_at(5_000_000, 0, 0, 100_000, (0, 0));
    assert_eq!(m.scale, 5_000_000);
    assert_eq!(m.control(), (0, 0));
    assert_eq!(m.trail.points().as_slice(), &[(5_000_000, 0)]);
}

#[test]
fn scaled_state_is_unit_at_spawn() {
    // the normalized displacement has length one at spawn time
    let m = DiffDriveModel::spawn_at(5_000_000, 0, 0, 100_000, (0, 0));
    assert_eq!(m.scaled_state(), (-1_000_000, 0, 0));
    let m2 = DiffDriveModel::spawn_at(3_000_000, -4_000_000, 0, 100_000, (0, 0));
    let (dx, dy, _) = m2.scaled_state();
    assert_eq!(dx, -600_000);
    assert_eq!(dy, 800_000);
}

#[test]
fn scaled_state_wraps_orientation() {
    let m = DiffDriveModel::spawn_at(5_000_000, 0, 4_000_000, 100_000, (0, 0));
    let (_, _, orw) = m.scaled_state();
    assert_eq!(orw, 4_000_000 - 3_141_592);
}

#[test]
fn set_control_clamps_any_magnitude() {
    let mut m = DiffDriveModel::spawn_at(5_000_000, 0, 0, 100_000, (0, 0));
    m.set_control(i64::MAX, i64::MAX);
    assert_eq!(m.control(), (V_MAX_FX, W_MAX_FX));
    m.set_control(i64::MIN, i64::MIN);
    assert_eq!(m.control(), (0, W_MIN_FX));
    m.set_control(5_000_000, 500_000);
    assert_eq!(m.control(), (5_000_000, 500_000));
}

#[test]
fn increment_control_clamps_any_magnitude() {
    let mut m = DiffDriveModel::spawn_at(5_000_000, 0, 0, 100_000, (0, 0));
    m.increment_control(30_000_000, -2_000_000);
    assert_eq!(m.control(), (20_000_000, -1_000_000));
    m.increment_control(-5_000_000, 500_000);
    assert_eq!(m.control(), (15_000_000, -500_000));
    m.increment_control(i64::MAX, i64::MAX);
    assert_eq!(m.control(), (20_000_000, 1_000_000));
    m.increment_control(i64::MIN, i64::MIN);
    assert_eq!(m.control(), (0, -1_000_000));
}

#[test]
fn update_traces_straight_line_when_w_zero() {
    let mut m = DiffDriveModel::spawn_at(0, 0, 0, 100_000, (10_000_000, 0));
    m.set_control(10_000_000, 0);
    for _ in 0..10 {
        m.update(100_000);
    }
    // ten ticks of a tenth of a second at ten units per second
    assert_eq!(m.x, 10_000_000);
    assert_eq!(m.y, 0);
    assert_eq!(m.or_in_rad, 0);
}

#[test]
fn orientation_accumulates_linearly() {
    let mut m = DiffDriveModel::spawn_at(0, 0, 0, 100_000, (10_000_000, 0));
    m.set_control(0, 1_000_000);
    for _ in 0..7 {
        m.update(100_000);
    }
    assert_eq!(m.or_in_rad, 700_000);
    // the robot did not translate
    assert_eq!((m.x, m.y), (0, 0));
}

#[test]
fn try_spawn_refuses_spawn_on_goal() {
    assert!(DiffDriveModel::try_spawn_at(0, 0, 0, 100_000, (0, 0)).is_none());
    assert!(DiffDriveModel::try_spawn_at(0, 0, 0, 100_000, (0, 999)).is_none());
    assert!(DiffDriveModel::try_spawn_at(0, 0, 0, 100_000, (0, 1_000)).is_some());
}

#[test]
fn spawn_randomly_stays_in_bounds() {
    for _ in 0..20 {
        let m = DiffDriveModel::spawn_randomly(
            (4_000_000, 6_000_000),
            (0, 1_000),
            (-500_000, 500_000),
            100_000,
            (0, 0),
        )
        .expect("the spawn region is far from the goal");
        assert!(4_000_000 <= m.x && m.x <= 6_000_000);
        assert!(0 <= m.y && m.y <= 1_000);
        assert!(-500_000 <= m.or_in_rad && m.or_in_rad <= 500_000);
        assert_eq!(m.control(), (0, 0));
        assert!(m.scale >= 1_000);
    }
}

#[test]
fn goal_sampling_stays_in_bounds() {
    for _ in 0..20 {
        let g = Goal::in_region((-2_000_000, 2_000_000), (1_000_000, 3_000_000));
        let (x, y) = g.coordinates();
        assert!(-2_000_000 <= x && x <= 2_000_000);
        assert!(1_000_000 <= y && y <= 3_000_000);
    }
}

#[test]
fn goal_slack_is_twenty_units() {
    assert_eq!(SLACK, 20 * SCALE);
}

#[test]
fn trail_drops_duplicates_and_oldest() {
    let mut t = Trail::new(2);
    t.add(1, 1);
    t.add(1, 1);
    assert_eq!(t.points().as_slice(), &[(1, 1)]);
    t.add(2, 2);
    assert_eq!(t.points().as_slice(), &[(1, 1), (2, 2)]);
    t.add(3, 3);
    assert_eq!(t.points().as_slice(), &[(2, 2), (3, 3)]);
}

#[test]
fn goal_reached_within_slack() {
    let g = Goal { x: 0, y: 0 };
    assert!(g.reached(0, 19_999_999));
    assert!(!g.reached(0, 20_000_000));
    assert!(g.reached(-14_000_000, 14_000_000));
    assert!(!g.reached(-15_000_000, 15_000_000));
}

#[test]
fn spawn_from_draws_is_reproducible() {
    let draws = (123_456_789_u64, 987_654_321_u64, 42_u64);
    let a = DiffDriveModel::spawn_from_draws(
        (4_000_000, 6_000_000),
        (-1_000_000, 1_000_000),
        (-500_000, 500_000),
        100_000,
        (0, 0),
        draws,
    )
    .expect("the spawn region is far from the goal");
    let b = DiffDriveModel::spawn_from_draws(
        (4_000_000, 6_000_000),
        (-1_000_000, 1_000_000),
        (-500_000, 500_000),
        100_000,
        (0, 0),
        draws,
    )
    .expect("the spawn region is far from the goal");
    assert_eq!((a.x, a.y, a.or_in_rad, a.scale), (b.x, b.y, b.or_in_rad, b.scale));
}

#[test]
fn spawn_from_draws_maps_draws_exactly() {
    let m = DiffDriveModel::spawn_from_draws(
        (4_000_000, 6_000_000),
        (-1_000_000, 1_000_000),
        (-500_000, 500_000),
        100_000,
        (0, 0),
        (500_000, 5, 1_000_100),
    )
    .expect("the spawn region is far from the goal");
    // each coordinate is its bound's low end plus the draw's remainder
    assert_eq!(m.x, 4_000_000 + 500_000 % 2_000_001);
    assert_eq!(m.y, -1_000_000 + 5 % 2_000_001);
    assert_eq!(m.or_in_rad, -500_000 + 1_000_100 % 1_000_001);
}

#[test]
fn goal_from_draws_maps_draws_exactly() {
    let g = Goal::in_region_from((10, 19), (10, 19), (25, 7));
    assert_eq!(g.coordinates(), (15, 17));
}
