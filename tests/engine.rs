use dla::aggregation::{PARAM_LIMIT, POINT_LIMIT};
use dla::geometry::UNIT;
use dla::{direction_of, Aggregation, Builder, GrowthError, Next, ReplaySource, StdSource, Step, Vec2d, Vec3d};

fn replay(points: Vec<Vec3d>, fractions: Vec<u64>) -> ReplaySource {
    ReplaySource::new(points, fractions)
}

fn east() -> Vec3d {
    Vec3d::new(UNIT / 2, 0, 0)
}

fn west() -> Vec3d {
    Vec3d::new(-UNIT / 2, 0, 0)
}

fn seeded_flat(seed: u64) -> Aggregation<StdSource> {
    let mut a = Aggregation::with_source(2, StdSource::seeded(seed));
    a.add(Vec3d::zero(), 0);
    a
}

#[test]
fn new_cluster_is_empty_with_defaults() {
    let a = Builder::flat();
    assert_eq!(a.cluster.point_count(), 0);
    assert_eq!(a.cluster.radius(), 0);
    assert_eq!(a.cluster.dimensions(), 2);
    assert_eq!(Builder::convex().cluster.dimensions(), 3);
}

#[test]
fn flat_model_grows_from_a_plane_seed() {
    let mut m = Builder::flat();
    m.add(Vec2d::new(0, 0), 1);
    for n in 1..=10usize {
        assert_eq!(m.add_particle(), Ok(n));
    }
    assert_eq!(m.cluster.parent_at(0), 1);
    for i in 0..m.cluster.point_count() {
        assert_eq!(m.cluster.point_at(i).z, 0);
    }
}

#[test]
fn convex_model_grows_from_two_seeds() {
    let mut m = Builder::convex();
    m.add(Vec3d::new(600_000, 0, 0), 0);
    m.add(Vec3d::new(-600_000, 0, 0), 1);
    for n in 2..12usize {
        assert_eq!(m.add_particle(), Ok(n));
    }
    assert!(m.cluster.radius() >= 630_000);
}

#[test]
fn single_seed_joins_at_unit_spacing() {
    // Released at (3, 0), one step toward the seed to (2, 0), caught, and
    // placed one unit from the seed.
    let mut a = Aggregation::with_source(2, replay(vec![east(), west()], vec![0]));
    a.add(Vec3d::zero(), 0);
    assert_eq!(a.radius(), 30_000);
    assert_eq!(a.add_particle(), Ok(1));
    assert_eq!(a.point_count(), 2);
    assert_eq!(a.point_at(1), Vec3d::new(10_000, 0, 0));
    assert_eq!(a.parent_at(1), 0);
    assert_eq!(a.join_attempts_at(0), 1);
    assert_eq!(a.join_attempts_at(1), 0);
    assert_eq!(a.radius(), 40_000);
}

#[test]
fn walker_moving_only_away_never_joins() {
    // With every direction (1, 0) the walker starts at exactly the capture
    // distance and only moves away: the walk ends by its budget.
    let mut a = Aggregation::with_source(2, replay(vec![east()], vec![0]));
    a.add(Vec3d::zero(), 0);
    assert_eq!(a.add_particle_within(1000), Err(GrowthError::Exhausted));
    assert_eq!(a.point_count(), 1);
    assert_eq!(a.join_attempts_at(0), 0);
    assert_eq!(a.radius(), 30_000);
}

#[test]
fn low_stickiness_rejects_then_joins() {
    let mut a = Aggregation::with_source(
        2,
        replay(vec![east(), west(), west()], vec![9_000, 7_000, 5_000, 5]),
    );
    a.set_stickness(10);
    a.add(Vec3d::zero(), 0);
    assert_eq!(a.add_particle_within(1_000_000), Ok(1));
    assert_eq!(a.point_at(1), Vec3d::new(10_000, 0, 0));
    assert_eq!(a.join_attempts_at(0), 4);
}

#[test]
fn stubbornness_delays_the_join() {
    let mut a = Aggregation::with_source(2, replay(vec![east(), west(), west()], vec![0]));
    a.set_stubbornness(3);
    a.add(Vec3d::zero(), 0);
    assert_eq!(a.add_particle_within(1_000_000), Ok(1));
    assert_eq!(a.join_attempts_at(0), 3);
}

#[test]
fn first_contact_joins_without_stubbornness() {
    let mut a = seeded_flat(7);
    for _ in 0..20 {
        let before: Vec<usize> = (0..a.point_count()).map(|i| a.join_attempts_at(i)).collect();
        let id = a.add_particle().unwrap();
        let parent = a.parent_at(id);
        let total_before: usize = before.iter().sum();
        let total_after: usize = (0..a.point_count()).map(|i| a.join_attempts_at(i)).sum();
        assert_eq!(total_after, total_before + 1);
        assert_eq!(a.join_attempts_at(parent), before[parent] + 1);
    }
}

#[test]
fn three_dimensional_join_along_z() {
    let mut a = Aggregation::with_source(
        3,
        replay(vec![Vec3d::new(0, 0, UNIT / 2), Vec3d::new(0, 0, -UNIT / 2)], vec![0]),
    );
    a.add(Vec3d::zero(), 0);
    assert_eq!(a.add_particle(), Ok(1));
    assert_eq!(a.point_at(1), Vec3d::new(0, 0, 10_000));
}

#[test]
fn diagonal_join_keeps_direction() {
    let mut a = Aggregation::with_source(
        2,
        replay(vec![Vec3d::new(3_000, 4_000, 0), Vec3d::new(-3_000, -4_000, 0)], vec![0]),
    );
    a.add(Vec3d::zero(), 0);
    assert_eq!(a.add_particle(), Ok(1));
    assert_eq!(a.point_at(1), Vec3d::new(6_000, 8_000, 0));
}

#[test]
fn join_beyond_the_coordinate_limit_is_refused() {
    let mut a = Aggregation::with_source(2, replay(vec![east(), west()], vec![0]));
    a.add(Vec3d::new(POINT_LIMIT, 0, 0), 0);
    assert_eq!(a.add_particle(), Err(GrowthError::OutOfRange));
    assert_eq!(a.point_count(), 1);
}

#[test]
fn flat_cluster_drops_the_third_coordinate() {
    let mut a = Aggregation::flat();
    a.add(Vec3d::new(30_000, 40_000, 70_000), 5);
    assert_eq!(a.point_at(0), Vec3d::new(30_000, 40_000, 0));
    assert_eq!(a.parent_at(0), 5);
    assert_eq!(a.radius(), 50_000 + 30_000);
}

#[test]
fn seeding_keeps_the_largest_radius() {
    let mut a = Aggregation::convex();
    a.add(Vec3d::new(0, 0, 100_000), 0);
    assert_eq!(a.radius(), 130_000);
    a.add(Vec3d::new(10_000, 0, 0), 1);
    assert_eq!(a.radius(), 130_000);
    a.set_attraction_distance(0);
    a.add(Vec3d::new(200_000, 0, 0), 2);
    assert_eq!(a.radius(), 200_000);
}

#[test]
fn settings_are_kept() {
    let mut a = Aggregation::flat();
    a.set_particle_spacing(20_000);
    a.set_attraction_distance(PARAM_LIMIT);
    a.set_min_move_distance(5_000);
    a.set_stubbornness(2);
    a.set_stickness(5_000);
    a.add(Vec3d::zero(), 0);
    assert_eq!(a.radius(), PARAM_LIMIT as i64);
}

#[test]
fn growth_gives_contiguous_identifiers() {
    let mut a = seeded_flat(11);
    for n in 1..=60usize {
        assert_eq!(a.add_particle(), Ok(n));
        assert_eq!(a.point_count(), n + 1);
    }
    let records = a.records();
    for (i, r) in records.iter().enumerate() {
        assert_eq!(r.id, i);
        if i > 0 {
            assert!(r.parent < i);
        }
    }
}

#[test]
fn joined_points_lie_at_the_spacing() {
    let mut a = seeded_flat(3);
    a.set_particle_spacing(10_000);
    for _ in 0..60 {
        a.add_particle().unwrap();
    }
    let s = 10_000i128;
    for i in 1..a.point_count() {
        let p = a.point_at(i);
        let q = a.point_at(a.parent_at(i));
        let (dx, dy, dz) = ((p.x - q.x) as i128, (p.y - q.y) as i128, (p.z - q.z) as i128);
        let d2 = dx * dx + dy * dy + dz * dz;
        assert!(s * s - 6 * s - 3 < d2);
        assert!(d2 <= (s + 1) * (s + 1));
        let d = (d2 as f64).sqrt() / 10_000.0;
        assert!((d - 1.0).abs() < 1e-3);
    }
}

#[test]
fn joined_points_lie_at_the_spacing_in_three_dimensions() {
    let mut a = Aggregation::with_source(3, StdSource::seeded(5));
    a.add(Vec3d::zero(), 0);
    a.set_particle_spacing(25_000);
    for _ in 0..40 {
        a.add_particle().unwrap();
    }
    let s = 25_000i128;
    for i in 1..a.point_count() {
        let p = a.point_at(i);
        let q = a.point_at(a.parent_at(i));
        let (dx, dy, dz) = ((p.x - q.x) as i128, (p.y - q.y) as i128, (p.z - q.z) as i128);
        let d2 = dx * dx + dy * dy + dz * dz;
        assert!(s * s - 6 * s - 3 < d2 && d2 <= (s + 1) * (s + 1));
    }
}

#[test]
fn radius_never_decreases() {
    let mut a = seeded_flat(19);
    let mut last = a.radius();
    for _ in 0..50 {
        a.add_particle().unwrap();
        assert!(a.radius() >= last);
        last = a.radius();
    }
}

#[test]
fn join_attempts_never_decrease() {
    let mut a = seeded_flat(23);
    a.set_stubbornness(2);
    a.set_stickness(5_000);
    let mut last: Vec<usize> = vec![0];
    for _ in 0..40 {
        a.add_particle().unwrap();
        for (i, old) in last.iter().enumerate() {
            assert!(a.join_attempts_at(i) >= *old);
        }
        let n = a.point_count();
        assert_eq!(a.join_attempts_at(n - 1), 0);
        last = (0..n).map(|i| a.join_attempts_at(i)).collect();
    }
}

#[test]
fn same_seed_same_cluster() {
    let mut a = seeded_flat(42);
    let mut b = seeded_flat(42);
    for _ in 0..30 {
        a.add_particle().unwrap();
        b.add_particle().unwrap();
    }
    assert_eq!(a.records(), b.records());
}

#[test]
fn two_seeds_grow_between_them() {
    let mut a = Aggregation::with_source(2, StdSource::seeded(1));
    a.add(Vec3d::new(600_000, 0, 0), 0);
    a.add(Vec3d::new(-600_000, 0, 0), 1);
    for n in 2..40usize {
        assert_eq!(a.add_particle(), Ok(n));
    }
}

fn one_seed(stickiness: u64) -> Aggregation<ReplaySource> {
    let mut a = Aggregation::with_source(2, replay(vec![east()], vec![0]));
    a.set_stickness(stickiness);
    a.add(Vec3d::zero(), 0);
    a
}

#[test]
fn step_in_range_joins() {
    let mut a = one_seed(UNIT as u64);
    let s = a.walk_step(Vec3d::new(20_000, 0, 0), west(), 0);
    assert_eq!(s, Step { parent: 0, next: Next::Joined(1) });
    assert_eq!(a.point_at(1), Vec3d::new(10_000, 0, 0));
    assert_eq!(a.join_attempts_at(0), 1);
}

#[test]
fn step_in_range_rejected_is_pushed_back() {
    let mut a = one_seed(10);
    let s = a.walk_step(Vec3d::new(20_000, 0, 0), west(), 9_000);
    assert_eq!(s, Step { parent: 0, next: Next::Walk(Vec3d::new(40_000, 0, 0)) });
    assert_eq!(a.point_count(), 1);
    assert_eq!(a.join_attempts_at(0), 1);
}

#[test]
fn step_out_of_range_moves_by_the_gap() {
    let mut a = one_seed(UNIT as u64);
    let s = a.walk_step(Vec3d::new(50_000, 0, 0), west(), 0);
    assert_eq!(s, Step { parent: 0, next: Next::Walk(Vec3d::new(30_000, 0, 0)) });
    // at least the least step
    let s = a.walk_step(Vec3d::new(0, 35_000, 0), Vec3d::new(0, UNIT / 2, 0), 0);
    assert_eq!(s, Step { parent: 0, next: Next::Walk(Vec3d::new(0, 45_000, 0)) });
    assert_eq!(a.join_attempts_at(0), 0);
}

#[test]
fn step_beyond_twice_the_radius_resets() {
    let mut a = one_seed(UNIT as u64);
    let s = a.walk_step(Vec3d::new(50_000, 0, 0), east(), 0);
    assert_eq!(s, Step { parent: 0, next: Next::Reset });
}

#[test]
fn step_joining_out_of_range() {
    let mut a = Aggregation::with_source(2, replay(vec![east()], vec![0]));
    a.add(Vec3d::new(POINT_LIMIT, 0, 0), 0);
    let s = a.walk_step(Vec3d::new(POINT_LIMIT + 20_000, 0, 0), west(), 0);
    assert_eq!(s, Step { parent: 0, next: Next::OutOfRange });
    assert_eq!(a.point_count(), 1);
}

#[test]
fn zero_budget_draws_nothing() {
    let mut a = one_seed(UNIT as u64);
    assert_eq!(a.add_particle_within(0), Err(GrowthError::Exhausted));
    assert_eq!(a.point_count(), 1);
}

#[test]
fn candidates_in_the_open_ball_only() {
    assert_eq!(direction_of(3, Vec3d::new(UNIT, 0, 0)), None);
    assert_eq!(direction_of(3, Vec3d::zero()), None);
    assert_eq!(direction_of(3, Vec3d::new(7_000, 7_000, 2_000)), None);
    assert_eq!(direction_of(3, Vec3d::new(7_000, 7_000, 0)), Some(Vec3d::new(7_000, 7_000, 0)));
    assert_eq!(direction_of(2, Vec3d::new(3_000, 0, 9_999)), Some(Vec3d::new(3_000, 0, 0)));
    assert_eq!(direction_of(2, Vec3d::new(0, 0, 5_000)), None);
}

#[test]
fn a_rejected_candidate_is_skipped() {
    let mut a = Aggregation::with_source(2, replay(vec![Vec3d::new(UNIT, 0, 0), east(), west()], vec![0]));
    a.add(Vec3d::zero(), 0);
    assert_eq!(a.add_particle(), Ok(1));
    assert_eq!(a.point_at(1), Vec3d::new(10_000, 0, 0));
}

#[test]
fn replay_hands_out_in_turn() {
    let mut r = ReplaySource::new(vec![east(), west()], vec![1, 2, 3]);
    assert_eq!(r.next_point(), east());
    assert_eq!(r.next_point(), west());
    assert_eq!(r.next_point(), east());
    assert_eq!(r.next_fraction(), 1);
    assert_eq!(r.next_fraction(), 2);
    assert_eq!(r.next_fraction(), 3);
    assert_eq!(r.next_fraction(), 1);
}
