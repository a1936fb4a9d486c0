use boids::agent::{heading_of, Agent, Flock};
use boids::index::SpatialIndex;
use boids::integrator::{apply, clamp_speed};
use boids::params::ParameterSet;
use boids::simulation::Simulation;
use boids::spawn::scatter;
use boids::steering::{
    alignment_of, cohesion_of, compute, separation_of, visible_neighbors, SteeringDelta,
};
use boids::vec2::Vec2;
use boids::world::World;

const MAX_SQUARED: u128 = 250_000_000_000;
const MIN_SQUARED: u128 = 2_500_000_000;

fn world() -> World {
    World { width: 800_000, height: 600_000 }
}

fn in_bounds(v: Vec2) -> bool {
    v.is_zero() || (MIN_SQUARED <= v.norm_squared() && v.norm_squared() <= MAX_SQUARED)
}

#[test]
fn agent_is_made_with_every_field() {
    let a = Agent::new(3, Vec2::new(1000, -2000), Vec2::new(30_000, 40_000)).unwrap();
    assert_eq!(a.id, 3);
    assert_eq!(a.position, Vec2::new(1000, -2000));
    assert_eq!(a.velocity, Vec2::new(30_000, 40_000));
    assert_eq!(a.orientation, Vec2::new(600, 800));
}

#[test]
fn agent_at_rest_points_up() {
    let a = Agent::new(0, Vec2::zero(), Vec2::zero()).unwrap();
    assert_eq!(a.orientation, Vec2::new(0, 1000));
}

#[test]
fn agent_is_refused_outside_the_limits() {
    assert!(Agent::new(0, Vec2::new(1_000_000_000, -1_000_000_000), Vec2::zero()).is_some());
    assert!(Agent::new(0, Vec2::new(1_000_000_001, 0), Vec2::zero()).is_none());
    assert!(Agent::new(0, Vec2::new(0, -1_000_000_001), Vec2::zero()).is_none());
    assert!(Agent::new(0, Vec2::zero(), Vec2::new(500_000, 0)).is_some());
    assert!(Agent::new(0, Vec2::zero(), Vec2::new(300_000, 400_000)).is_some());
    assert!(Agent::new(0, Vec2::zero(), Vec2::new(500_000, 1)).is_none());
    assert!(Agent::new(0, Vec2::zero(), Vec2::new(0, -500_001)).is_none());
}

#[test]
fn heading_keeps_the_previous_orientation_at_rest() {
    let previous = Vec2::new(-600, 800);
    assert_eq!(heading_of(Vec2::zero(), previous), previous);
    assert_eq!(heading_of(Vec2::new(0, -50_000), previous), Vec2::new(0, -1000));
}

#[test]
fn flock_numbers_its_agents() {
    let mut flock = Flock::new();
    assert_eq!(flock.len(), 0);
    assert_eq!(flock.spawn(Vec2::new(5, 6), Vec2::new(10_000, 0)), Some(0));
    assert_eq!(flock.spawn(Vec2::new(2_000_000_000, 6), Vec2::zero()), None);
    assert_eq!(flock.spawn(Vec2::new(7, 8), Vec2::new(600_000, 0)), None);
    assert_eq!(flock.spawn(Vec2::new(7, 8), Vec2::zero()), Some(1));
    assert_eq!(flock.len(), 2);
    assert_eq!(flock.agent(1).unwrap().position, Vec2::new(7, 8));
    assert_eq!(flock.agent(1).unwrap().id, 1);
    assert!(flock.agent(2).is_none());
    let entries = flock.entries();
    assert_eq!(entries.len(), 2);
    assert_eq!(entries[0].id, 0);
    assert_eq!(entries[0].position, Vec2::new(5, 6));
    let poses = flock.poses();
    assert_eq!(poses.len(), 2);
    assert_eq!(poses[0].agent_id, 0);
    assert_eq!(poses[0].position, Vec2::new(5, 6));
    assert_eq!(poses[0].orientation, Vec2::new(1000, 0));
    assert_eq!(poses[1].orientation, Vec2::new(0, 1000));
}

#[test]
fn clamp_speed_leaves_speeds_within_the_limits() {
    assert_eq!(clamp_speed(Vec2::new(50_000, 0)), Vec2::new(50_000, 0));
    assert_eq!(clamp_speed(Vec2::new(300_000, -400_000)), Vec2::new(300_000, -400_000));
    assert_eq!(clamp_speed(Vec2::new(-100_000, 100_000)), Vec2::new(-100_000, 100_000));
}

#[test]
fn clamp_speed_shortens_to_the_greatest_speed() {
    assert_eq!(clamp_speed(Vec2::new(3_000_000, 4_000_000)), Vec2::new(300_000, 400_000));
    assert_eq!(clamp_speed(Vec2::new(0, -500_001)), Vec2::new(0, -500_000));
    assert_eq!(clamp_speed(Vec2::new(i64::MIN, 0)), Vec2::new(-500_000, 0));
}

#[test]
fn clamp_speed_lengthens_to_the_least_speed() {
    assert_eq!(clamp_speed(Vec2::new(3, 4)), Vec2::new(30_000, 40_000));
    assert_eq!(clamp_speed(Vec2::new(0, -49_999)), Vec2::new(0, -50_000));
    assert_eq!(clamp_speed(Vec2::new(-45_000, 0)), Vec2::new(-50_000, 0));
}

#[test]
fn clamp_speed_brings_the_slowest_velocity_to_the_least_speed() {
    let r = clamp_speed(Vec2::new(1, 1));
    assert_eq!(r, Vec2::new(35_356, 35_356));
    assert!(MIN_SQUARED <= r.norm_squared() && r.norm_squared() <= 50_003 * 50_003);
    let r = clamp_speed(Vec2::new(-1, 0));
    assert_eq!(r, Vec2::new(-50_000, 0));
    let r = clamp_speed(Vec2::new(2, -1));
    assert_eq!(r, Vec2::new(44_722, -22_361));
}

#[test]
fn steer_of_a_crawling_agent_gives_the_least_speed() {
    let mut a = Agent::new(0, Vec2::zero(), Vec2::new(1, 1)).unwrap();
    a.steer(Vec2::zero(), 1);
    assert_eq!(a.velocity, Vec2::new(35_356, 35_356));
    assert_eq!(a.orientation, Vec2::new(707, 707));
}

#[test]
fn clamp_speed_leaves_zero() {
    assert_eq!(clamp_speed(Vec2::zero()), Vec2::zero());
}

#[test]
fn clamp_speed_keeps_every_speed_in_bounds() {
    let samples: [i64; 9] =
        [0, 1, -1, 35_355, -49_999, 353_553, 500_001, -9_000_000_000, i64::MAX];
    for x in samples {
        for y in samples {
            let r = clamp_speed(Vec2::new(x, y));
            assert!(in_bounds(r));
            assert_eq!(r.is_zero(), x == 0 && y == 0);
        }
    }
}

#[test]
fn steer_adds_the_delta_and_applies_friction() {
    let mut a = Agent::new(0, Vec2::new(5, 5), Vec2::new(100_000, 0)).unwrap();
    a.steer(Vec2::new(100_000, -100_000), 1000);
    // (200, -100) units a second, less a tenth
    assert_eq!(a.velocity, Vec2::new(180_000, -90_000));
    assert_eq!(a.position, Vec2::new(5, 5));
    assert_eq!(a.orientation, Vec2::new(894, -447));
    let mut b = Agent::new(0, Vec2::zero(), Vec2::new(100_000, 0)).unwrap();
    b.steer(Vec2::new(1, 0), 16);
    // 100001 * 1600 / 1000000 = 160.0016, rounded toward zero
    assert_eq!(b.velocity, Vec2::new(99_841, 0));
}

#[test]
fn steer_clamps_the_speed() {
    let mut slow = Agent::new(0, Vec2::zero(), Vec2::new(10_000, 0)).unwrap();
    slow.steer(Vec2::zero(), 1000);
    assert_eq!(slow.velocity, Vec2::new(50_000, 0));
    let mut fast = Agent::new(0, Vec2::zero(), Vec2::new(10_000, 0)).unwrap();
    fast.steer(Vec2::new(2_990_000, 4_000_000), 0);
    assert_eq!(fast.velocity, Vec2::new(300_000, 400_000));
    assert_eq!(fast.orientation, Vec2::new(600, 800));
}

#[test]
fn steer_to_rest_keeps_the_orientation() {
    let mut a = Agent::new(0, Vec2::zero(), Vec2::new(-30_000, 40_000)).unwrap();
    assert_eq!(a.orientation, Vec2::new(-600, 800));
    a.steer(Vec2::new(30_000, -40_000), 16);
    assert_eq!(a.velocity, Vec2::zero());
    assert_eq!(a.orientation, Vec2::new(-600, 800));
}

#[test]
fn steer_with_friction_for_ten_seconds_stops_the_agent() {
    let mut a = Agent::new(0, Vec2::zero(), Vec2::new(100_000, 0)).unwrap();
    a.steer(Vec2::zero(), 10_000);
    assert_eq!(a.velocity, Vec2::zero());
    assert_eq!(a.orientation, Vec2::new(1000, 0));
}

#[test]
fn steer_takes_the_largest_delta() {
    let limit: i64 = 20_000_000_000_000_000;
    let mut a = Agent::new(0, Vec2::zero(), Vec2::new(300_000, 400_000)).unwrap();
    a.steer(Vec2::new(limit, -limit), 65_535);
    assert!(in_bounds(a.velocity));
    assert!(!a.velocity.is_zero());
}

#[test]
fn advance_moves_by_velocity_times_time() {
    let mut a = Agent::new(0, Vec2::new(1000, 1000), Vec2::new(50_000, -100_000)).unwrap();
    a.advance(1000);
    assert_eq!(a.position, Vec2::new(51_000, -99_000));
    a.advance(16);
    assert_eq!(a.position, Vec2::new(51_800, -100_600));
    a.advance(0);
    assert_eq!(a.position, Vec2::new(51_800, -100_600));
    assert_eq!(a.velocity, Vec2::new(50_000, -100_000));
}

#[test]
fn advance_rounds_the_step_toward_zero() {
    let mut a = Agent::new(0, Vec2::zero(), Vec2::new(-50_001, 50_001)).unwrap();
    a.advance(16);
    assert_eq!(a.position, Vec2::new(-800, 800));
}

#[test]
fn advance_stops_at_the_position_limit() {
    let mut a = Agent::new(0, Vec2::new(999_999_900, -999_999_900), Vec2::new(300_000, -400_000))
        .unwrap();
    a.advance(1000);
    assert_eq!(a.position, Vec2::new(1_000_000_000, -1_000_000_000));
}

#[test]
fn apply_drops_a_delta_for_an_unknown_agent() {
    let mut flock = Flock::new();
    flock.spawn(Vec2::zero(), Vec2::new(100_000, 0));
    flock.spawn(Vec2::new(1000, 0), Vec2::new(0, 100_000));
    let deltas = vec![
        SteeringDelta { agent_id: 5, velocity_delta: Vec2::new(1, 1) },
        SteeringDelta { agent_id: 1, velocity_delta: Vec2::new(0, 100_000) },
        SteeringDelta { agent_id: usize::MAX, velocity_delta: Vec2::new(1, 1) },
    ];
    apply(&mut flock, &deltas, 1000);
    assert_eq!(flock.len(), 2);
    let first = flock.agent(0).unwrap();
    assert_eq!(first.velocity, Vec2::new(100_000, 0));
    assert_eq!(first.position, Vec2::new(100_000, 0));
    let second = flock.agent(1).unwrap();
    assert_eq!(second.velocity, Vec2::new(0, 180_000));
    assert_eq!(second.position, Vec2::new(1000, 180_000));
}

#[test]
fn apply_takes_the_deltas_in_their_order() {
    let mut flock = Flock::new();
    flock.spawn(Vec2::zero(), Vec2::new(100_000, 0));
    let deltas = vec![
        SteeringDelta { agent_id: 0, velocity_delta: Vec2::new(100_000, 0) },
        SteeringDelta { agent_id: 0, velocity_delta: Vec2::new(0, 100_000) },
    ];
    apply(&mut flock, &deltas, 1000);
    let a = flock.agent(0).unwrap();
    // friction acts once for each delta; the agent moves once
    assert_eq!(a.velocity, Vec2::new(162_000, 90_000));
    assert_eq!(a.position, Vec2::new(162_000, 90_000));
}

#[test]
fn apply_steers_every_agent_from_the_state_before_the_tick() {
    let mut flock = Flock::new();
    flock.spawn(Vec2::new(0, 0), Vec2::new(100_000, 0));
    flock.spawn(Vec2::new(50_000, 0), Vec2::new(-100_000, 0));
    let index = SpatialIndex::build(&flock.entries());
    let p = ParameterSet { view_angle_cos: 0, ..ParameterSet::default() };
    let deltas = compute(&flock, &index, &p, &world(), 16);
    let mut forward = Flock { agents: flock.agents.clone() };
    apply(&mut forward, &deltas, 16);
    let mut backward = Flock { agents: flock.agents.clone() };
    let reversed: Vec<SteeringDelta> = deltas.iter().rev().cloned().collect();
    apply(&mut backward, &reversed, 16);
    assert_eq!(forward.agents, backward.agents);
}

#[test]
fn two_agents_head_on() {
    let w = world();
    let mut flock = Flock::new();
    flock.spawn(Vec2::new(0, 0), Vec2::new(10_000, 0));
    flock.spawn(Vec2::new(50_000, 0), Vec2::new(-10_000, 0));
    let p = ParameterSet { view_angle_cos: 0, ..ParameterSet::default() };
    let index = SpatialIndex::build(&flock.entries());

    let a = flock.agent(0).unwrap();
    let seen_a = visible_neighbors(&a, &p, &index.query(a.position, p.view_radius));
    assert_eq!(seen_a.len(), 1);
    assert_eq!(seen_a[0].id, 1);
    let cohesion_a = cohesion_of(a.position, &seen_a, p.view_radius);
    let alignment_a = alignment_of(&seen_a, &flock);
    let separation_a = separation_of(a.position, &seen_a, p.view_radius);
    assert!(cohesion_a.x > 0);
    assert_eq!(cohesion_a, Vec2::new(50_000, 0));
    assert_eq!(alignment_a, Vec2::new(-10_000, 0));
    assert_eq!(separation_a, Vec2::new(-100_000, 0));

    let b = flock.agent(1).unwrap();
    let seen_b = visible_neighbors(&b, &p, &index.query(b.position, p.view_radius));
    assert_eq!(seen_b.len(), 1);
    assert_eq!(seen_b[0].id, 0);
    assert_eq!(cohesion_of(b.position, &seen_b, p.view_radius), Vec2::new(-50_000, 0));
    assert_eq!(alignment_of(&seen_b, &flock), Vec2::new(10_000, 0));
    assert_eq!(separation_of(b.position, &seen_b, p.view_radius), Vec2::new(100_000, 0));

    let deltas = compute(&flock, &index, &p, &w, 1000);
    assert_eq!(deltas[0], SteeringDelta { agent_id: 0, velocity_delta: Vec2::new(-60_000, 0) });
    assert_eq!(deltas[1], SteeringDelta { agent_id: 1, velocity_delta: Vec2::new(60_000, 0) });

    apply(&mut flock, &deltas, 1000);
    let a = flock.agent(0).unwrap();
    let b = flock.agent(1).unwrap();
    assert!(in_bounds(a.velocity) && !a.velocity.is_zero());
    assert!(in_bounds(b.velocity) && !b.velocity.is_zero());
    assert_eq!(a.velocity, Vec2::new(-50_000, 0));
    assert_eq!(a.orientation, Vec2::new(-1000, 0));
    assert_eq!(a.position, Vec2::new(-50_000, 0));
    assert_eq!(b.velocity, Vec2::new(50_000, 0));
    assert_eq!(b.orientation, Vec2::new(1000, 0));
    assert_eq!(b.position, Vec2::new(100_000, 0));
}

#[test]
fn scatter_places_every_agent_in_the_world() {
    let w = world();
    let flock = scatter(&w, 200, Vec2::new(10_000, 10_000)).unwrap();
    assert_eq!(flock.len(), 200);
    let first = flock.agent(0).unwrap().position;
    let mut all_at_one_place = true;
    for i in 0..200usize {
        let a = flock.agent(i).unwrap();
        assert_eq!(a.id, i);
        assert!(-400_000 <= a.position.x && a.position.x < 400_000);
        assert!(-300_000 <= a.position.y && a.position.y < 300_000);
        assert_eq!(a.velocity, Vec2::new(10_000, 10_000));
        assert_eq!(a.orientation, Vec2::new(707, 707));
        if a.position != first {
            all_at_one_place = false;
        }
    }
    assert!(!all_at_one_place);
}

#[test]
fn scatter_of_no_agents_is_an_empty_flock() {
    let flock = scatter(&world(), 0, Vec2::zero()).unwrap();
    assert_eq!(flock.len(), 0);
}

#[test]
fn scatter_in_the_smallest_world() {
    let w = World { width: 2, height: 3 };
    let flock = scatter(&w, 20, Vec2::zero()).unwrap();
    for i in 0..20usize {
        let p = flock.agent(i).unwrap().position;
        assert!(p.x == -1 || p.x == 0);
        assert!(p.y == -1 || p.y == 0);
    }
}

#[test]
fn scatter_is_refused_where_nothing_can_be_drawn() {
    let v = Vec2::new(10_000, 10_000);
    assert!(scatter(&World { width: 1, height: 600_000 }, 10, v).is_none());
    assert!(scatter(&World { width: 800_000, height: 0 }, 10, v).is_none());
    assert!(scatter(&World { width: 2_000_000_002, height: 600_000 }, 10, v).is_none());
    assert!(scatter(&World { width: 2_000_000_001, height: 2_000_000_000 }, 1, v).is_some());
    assert!(scatter(&world(), 10, Vec2::new(400_000, 400_000)).is_none());
    assert!(scatter(&world(), 0, Vec2::new(400_000, 400_000)).is_none());
}

#[test]
fn simulation_starts_with_a_snapshot_of_the_flock() {
    let mut flock = Flock::new();
    flock.spawn(Vec2::new(0, 0), Vec2::new(10_000, 0));
    flock.spawn(Vec2::new(50_000, 0), Vec2::new(-10_000, 0));
    let sim = Simulation::new(world(), flock, 300);
    assert_eq!(sim.index.len(), 2);
    assert_eq!(sim.schedule.interval(), 300);
    assert_eq!(sim.schedule.elapsed(), 0);
    assert_eq!(sim.store.snapshot(), ParameterSet::default());
    assert_eq!(sim.world, world());
}

#[test]
fn simulation_tick_is_compute_then_apply() {
    let mut flock = Flock::new();
    flock.spawn(Vec2::new(0, 0), Vec2::new(10_000, 0));
    flock.spawn(Vec2::new(50_000, 0), Vec2::new(-10_000, 0));
    let mut sim = Simulation::new(world(), flock, 300);
    assert!(sim.store.set_view_angle_cos(0));
    let poses = sim.tick(1000);
    assert_eq!(poses.len(), 2);
    assert_eq!(poses[0].agent_id, 0);
    assert_eq!(poses[0].position, Vec2::new(-50_000, 0));
    assert_eq!(poses[0].orientation, Vec2::new(-1000, 0));
    assert_eq!(poses[1].agent_id, 1);
    assert_eq!(poses[1].position, Vec2::new(100_000, 0));
    assert_eq!(poses[1].orientation, Vec2::new(1000, 0));
    assert_eq!(sim.schedule.elapsed(), 0);
}

#[test]
fn simulation_steers_by_a_snapshot_that_may_be_stale() {
    let mut flock = Flock::new();
    flock.spawn(Vec2::new(0, 0), Vec2::new(50_000, 0));
    let mut sim = Simulation::new(world(), flock, 300);
    sim.tick(100);
    sim.tick(100);
    assert_eq!(sim.schedule.elapsed(), 200);
    // the snapshot still holds the place where the agent started
    let found = sim.index.query(Vec2::new(0, 0), 0);
    assert_eq!(found.len(), 1);
    sim.tick(100);
    assert_eq!(sim.schedule.elapsed(), 0);
    assert!(sim.index.query(Vec2::new(0, 0), 0).is_empty());
    let a = sim.flock.agent(0).unwrap();
    assert_eq!(sim.index.query(Vec2::new(a.position.x - 5_000, 0), 0).len(), 1);
}

#[test]
fn simulation_keeps_every_speed_in_bounds() {
    let flock = scatter(&world(), 100, Vec2::new(10_000, 10_000)).unwrap();
    let mut sim = Simulation::new(world(), flock, 300);
    for tick in 0..120u16 {
        let dt: u16 = 10 + tick % 9;
        let poses = sim.tick(dt);
        assert_eq!(poses.len(), 100);
        for i in 0..100usize {
            let a = sim.flock.agent(i).unwrap();
            assert!(in_bounds(a.velocity));
            assert!(!a.velocity.is_zero());
            assert!(a.position.fits(1_000_000_000));
            assert!(a.orientation.norm_squared() <= 1_000_000);
            assert_eq!(poses[i].agent_id, i);
            assert_eq!(poses[i].position, a.position);
            assert_eq!(poses[i].orientation, a.orientation);
        }
        assert!(sim.schedule.elapsed() < 300);
    }
}

#[test]
fn validity_is_tested_field_by_field() {
    let good = Agent::new(0, Vec2::new(5, 5), Vec2::new(10_000, 0)).unwrap();
    assert!(good.is_valid());
    assert!(!Agent { position: Vec2::new(1_000_000_001, 0), ..good }.is_valid());
    assert!(Agent { velocity: Vec2::new(400_000, 400_000), ..good }.is_valid());
    assert!(Agent { velocity: Vec2::new(0, -1_000_000_000_000_000_000), ..good }.is_valid());
    assert!(!Agent { velocity: Vec2::new(0, -1_000_000_000_000_000_001), ..good }.is_valid());
    assert!(good.is_steerable());
    assert!(Agent { velocity: Vec2::new(1_000_000, -1_000_000), ..good }.is_steerable());
    assert!(!Agent { velocity: Vec2::new(1_000_001, 0), ..good }.is_steerable());
    assert!(!Agent { position: Vec2::new(1_000_000_001, 0), ..good }.is_steerable());
    assert!(!Agent { orientation: Vec2::new(0, 1001), ..good }.is_valid());
    let mut flock = Flock::new();
    assert!(flock.is_valid());
    flock.spawn(Vec2::new(5, 5), Vec2::new(10_000, 0));
    flock.spawn(Vec2::new(6, 6), Vec2::zero());
    assert!(flock.is_valid());
    assert!(flock.is_steerable());
    let misnumbered = Flock { agents: vec![Agent { id: 1, ..good }] };
    assert!(!misnumbered.is_valid());
    assert!(!misnumbered.is_steerable());
    let fast = Flock { agents: vec![Agent { id: 0, velocity: Vec2::new(0, 2_000_000), ..good }] };
    assert!(fast.is_valid());
    assert!(!fast.is_steerable());
    let sim = Simulation::new(world(), flock, 300);
    assert!(sim.is_valid());
}

#[test]
fn steer_takes_a_velocity_above_the_greatest_speed() {
    let start = Agent::new(0, Vec2::zero(), Vec2::zero()).unwrap();
    let mut a = Agent { velocity: Vec2::new(0, 1_000_000), ..start };
    a.steer(Vec2::zero(), 1000);
    // 900 units a second after friction, shortened to the greatest speed
    assert_eq!(a.velocity, Vec2::new(0, 500_000));
    assert_eq!(a.orientation, Vec2::new(0, 1000));
    assert!(a.is_steerable());
    let mut b = Agent { velocity: Vec2::new(-1_000_000_000_000_000_000, 0), ..start };
    b.steer(Vec2::new(-20_000_000_000_000_000, 0), 65_535);
    assert_eq!(b.velocity, Vec2::new(500_000, 0));
    let mut c = Agent { velocity: Vec2::new(3_000_000_000, 4_000_000_000), ..start };
    c.steer(Vec2::zero(), 0);
    assert_eq!(c.velocity, Vec2::new(300_000, 400_000));
}

#[test]
fn advance_takes_a_velocity_above_the_greatest_speed() {
    let start = Agent::new(0, Vec2::new(10, 10), Vec2::zero()).unwrap();
    let mut a = Agent { velocity: Vec2::new(2_000_000, -1_000_000_000_000_000_000), ..start };
    a.advance(16);
    assert_eq!(a.position, Vec2::new(32_010, -1_000_000_000));
    assert_eq!(a.velocity, Vec2::new(2_000_000, -1_000_000_000_000_000_000));
}

#[test]
fn apply_takes_a_flock_that_starts_too_fast() {
    let start = Agent::new(0, Vec2::zero(), Vec2::zero()).unwrap();
    let mut flock = Flock {
        agents: vec![
            Agent { velocity: Vec2::new(0, 1_000_000), ..start },
            Agent { id: 1, velocity: Vec2::new(2_000_000, 0), ..start },
        ],
    };
    let deltas = vec![SteeringDelta { agent_id: 0, velocity_delta: Vec2::zero() }];
    apply(&mut flock, &deltas, 1000);
    let first = flock.agent(0).unwrap();
    assert_eq!(first.velocity, Vec2::new(0, 500_000));
    assert_eq!(first.position, Vec2::new(0, 500_000));
    // the agent without a delta keeps its velocity and moves at it
    let second = flock.agent(1).unwrap();
    assert_eq!(second.velocity, Vec2::new(2_000_000, 0));
    assert_eq!(second.position, Vec2::new(2_000_000, 0));
}

#[test]
fn apply_in_any_order_of_the_deltas() {
    let flock = scatter(&world(), 30, Vec2::new(10_000, 10_000)).unwrap();
    let index = SpatialIndex::build(&flock.entries());
    let p = ParameterSet { view_angle_cos: -500, ..ParameterSet::default() };
    let deltas = compute(&flock, &index, &p, &world(), 16);
    let mut straight = Flock { agents: flock.agents.clone() };
    apply(&mut straight, &deltas, 16);
    let mut shuffled: Vec<SteeringDelta> = Vec::new();
    for i in 0..30usize {
        shuffled.push(deltas[(i * 7 + 3) % 30]);
    }
    let mut mixed = Flock { agents: flock.agents.clone() };
    apply(&mut mixed, &shuffled, 16);
    assert_eq!(straight.agents, mixed.agents);
}
