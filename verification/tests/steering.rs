use boids::agent::{Agent, Flock};
use boids::index::{Entry, SpatialIndex};
use boids::params::{ParameterSet, ParameterStore};
use boids::steering::{
    alignment_of, average_of, cohesion_of, combine, compute, edge_avoidance_of, in_cone,
    separation_of, steer, visible_neighbors, SteeringDelta,
};
use boids::vec2::Vec2;
use boids::world::World;

fn entry(id: usize, x: i64, y: i64) -> Entry {
    Entry { id, position: Vec2::new(x, y) }
}

fn world() -> World {
    World { width: 800_000, height: 600_000 }
}

fn wide_view() -> ParameterSet {
    ParameterSet { view_angle_cos: 0, ..ParameterSet::default() }
}

#[test]
fn default_parameters_are_the_documented_ones() {
    let p = ParameterSet::default();
    assert_eq!(p.cohesion_weight, 1000);
    assert_eq!(p.alignment_weight, 1000);
    assert_eq!(p.separation_weight, 1000);
    assert_eq!(p.edge_avoid_weight, 1000);
    assert_eq!(p.view_radius, 100_000);
    assert_eq!(p.view_angle_cos, 500);
    assert!(p.is_valid());
}

#[test]
fn parameter_store_takes_single_fields() {
    let mut store = ParameterStore::new();
    assert_eq!(store.snapshot(), ParameterSet::default());
    store.set_cohesion_weight(2000);
    store.set_alignment_weight(0);
    store.set_separation_weight(1500);
    store.set_edge_avoid_weight(7);
    store.set_view_radius(400_000);
    assert!(store.set_view_angle_cos(-250));
    let p = store.snapshot();
    assert_eq!(
        p,
        ParameterSet {
            cohesion_weight: 2000,
            alignment_weight: 0,
            separation_weight: 1500,
            edge_avoid_weight: 7,
            view_radius: 400_000,
            view_angle_cos: -250,
        }
    );
}

#[test]
fn parameter_store_refuses_a_cosine_beyond_one() {
    let mut store = ParameterStore::new();
    assert!(!store.set_view_angle_cos(1001));
    assert!(!store.set_view_angle_cos(-1001));
    assert_eq!(store.snapshot().view_angle_cos, 500);
    assert!(store.set_view_angle_cos(1000));
    assert!(store.set_view_angle_cos(-1000));
    let bad = ParameterSet { view_angle_cos: 2000, ..ParameterSet::default() };
    assert!(!bad.is_valid());
    assert!(!store.replace(bad));
    assert_eq!(store.snapshot().view_angle_cos, -1000);
    assert!(store.replace(ParameterSet::default()));
    assert_eq!(store.snapshot(), ParameterSet::default());
}

#[test]
fn distance_to_edge_is_to_the_nearest_edge() {
    let w = world();
    assert_eq!(w.distance_to_edge(Vec2::new(0, 0)), 300_000);
    assert_eq!(w.distance_to_edge(Vec2::new(395_000, 0)), 5_000);
    assert_eq!(w.distance_to_edge(Vec2::new(-395_000, 0)), 5_000);
    assert_eq!(w.distance_to_edge(Vec2::new(0, -299_000)), 1_000);
    assert_eq!(w.distance_to_edge(Vec2::new(500_000, 0)), -100_000);
    assert_eq!(w.distance_to_edge(Vec2::new(400_000, 300_000)), 0);
}

#[test]
fn cone_of_sixty_degrees_excludes_what_is_behind() {
    let heading = Vec2::new(10_000, 0);
    for distance in [1i64, 50, 5_000, 99_999, 100_000] {
        assert!(!in_cone(Vec2::new(-distance, 0), heading, 500));
        assert!(in_cone(Vec2::new(distance, 0), heading, 500));
    }
}

#[test]
fn cone_excludes_what_is_straight_behind_at_every_angle() {
    let heading = Vec2::new(3_000, -4_000);
    for cos in [-1000i16, -999, -500, 0, 500, 1000] {
        assert!(!in_cone(Vec2::new(-6_000, 8_000), heading, cos));
    }
}

#[test]
fn cone_of_sixty_degrees_near_its_border() {
    let heading = Vec2::new(10_000, 0);
    assert!(in_cone(Vec2::new(1000, 1732), heading, 500));
    assert!(!in_cone(Vec2::new(1000, 1733), heading, 500));
    assert!(in_cone(Vec2::new(1000, -1732), heading, 500));
    assert!(!in_cone(Vec2::new(1000, -1733), heading, 500));
}

#[test]
fn cone_excludes_its_border() {
    // the angle whose cosine is 0.6, exactly
    let heading = Vec2::new(7, 0);
    assert!(!in_cone(Vec2::new(3000, 4000), heading, 600));
    assert!(in_cone(Vec2::new(3001, 4000), heading, 600));
    // a right angle, exactly
    assert!(!in_cone(Vec2::new(0, 5000), heading, 0));
    assert!(in_cone(Vec2::new(1, 5000), heading, 0));
    assert!(!in_cone(Vec2::new(-1, 5000), heading, 0));
}

#[test]
fn cone_wider_than_a_right_angle() {
    let heading = Vec2::new(10_000, 0);
    assert!(in_cone(Vec2::new(-1000, 1733), heading, -500));
    assert!(!in_cone(Vec2::new(-1000, 1732), heading, -500));
    assert!(in_cone(Vec2::new(0, 1), heading, -500));
    assert!(in_cone(Vec2::new(5, 0), heading, -1000));
}

#[test]
fn cone_holds_no_vector_of_length_zero() {
    for cos in [-1000i16, 0, 1000] {
        assert!(!in_cone(Vec2::zero(), Vec2::new(10_000, 0), cos));
        assert!(!in_cone(Vec2::new(10_000, 0), Vec2::zero(), cos));
    }
}

#[test]
fn average_of_nothing_is_the_default() {
    let none: Vec<Vec2> = Vec::new();
    assert_eq!(average_of(&none, Vec2::new(7, -9)), Vec2::new(7, -9));
}

#[test]
fn average_rounds_toward_zero() {
    let items = vec![Vec2::new(1, -1), Vec2::new(2, -2), Vec2::new(2, -2)];
    assert_eq!(average_of(&items, Vec2::zero()), Vec2::new(1, -1));
    let items = vec![Vec2::new(10, 20), Vec2::new(20, 40)];
    assert_eq!(average_of(&items, Vec2::new(99, 99)), Vec2::new(15, 30));
}

#[test]
fn average_of_the_largest_coordinates() {
    let items = vec![Vec2::new(i64::MAX, i64::MIN); 5];
    assert_eq!(average_of(&items, Vec2::zero()), Vec2::new(i64::MAX, i64::MIN));
}

#[test]
fn cohesion_goes_to_the_average_position() {
    let seen = vec![entry(1, 50_000, 0), entry(2, 0, 30_000)];
    assert_eq!(cohesion_of(Vec2::new(0, 0), &seen, 100_000), Vec2::new(25_000, 15_000));
    assert_eq!(cohesion_of(Vec2::new(10_000, 10_000), &seen, 100_000), Vec2::new(15_000, 5_000));
}

#[test]
fn cohesion_without_neighbors_is_zero() {
    let seen: Vec<Entry> = Vec::new();
    assert_eq!(cohesion_of(Vec2::new(123, -456), &seen, 100_000), Vec2::zero());
}

#[test]
fn alignment_is_the_average_velocity_of_known_agents() {
    let mut flock = Flock::new();
    flock.spawn(Vec2::new(0, 0), Vec2::new(10_000, 0));
    flock.spawn(Vec2::new(1, 1), Vec2::new(-30_000, 8_000));
    flock.spawn(Vec2::new(2, 2), Vec2::new(0, 4_000));
    let seen = vec![entry(1, 1, 1), entry(2, 2, 2), entry(9, 3, 3)];
    assert_eq!(alignment_of(&seen, &flock), Vec2::new(-15_000, 6_000));
    let strangers = vec![entry(3, 0, 0), entry(usize::MAX, 0, 0)];
    assert_eq!(alignment_of(&strangers, &flock), Vec2::zero());
    let none: Vec<Entry> = Vec::new();
    assert_eq!(alignment_of(&none, &flock), Vec2::zero());
}

#[test]
fn separation_pushes_away_at_the_view_radius() {
    let seen = vec![entry(1, 50_000, 0)];
    assert_eq!(separation_of(Vec2::new(0, 0), &seen, 100_000), Vec2::new(-100_000, 0));
    let seen = vec![entry(1, 25_000, 0)];
    assert_eq!(separation_of(Vec2::new(0, 0), &seen, 100_000), Vec2::new(-100_000, 0));
    let seen = vec![entry(1, 50_000, 0), entry(2, 0, 25_000)];
    assert_eq!(separation_of(Vec2::new(0, 0), &seen, 100_000), Vec2::new(-50_000, -50_000));
}

#[test]
fn separation_from_a_neighbor_a_thousandth_away() {
    let seen = vec![entry(1, 1, 1)];
    assert_eq!(separation_of(Vec2::new(0, 0), &seen, 100_000), Vec2::new(-70_710, -70_710));
    let seen = vec![entry(1, 0, -1)];
    assert_eq!(separation_of(Vec2::new(0, 0), &seen, 100_000), Vec2::new(0, 100_000));
}

#[test]
fn separation_from_the_same_place_is_zero() {
    let seen = vec![entry(1, 40, 40)];
    assert_eq!(separation_of(Vec2::new(40, 40), &seen, 100_000), Vec2::zero());
    let none: Vec<Entry> = Vec::new();
    assert_eq!(separation_of(Vec2::new(40, 40), &none, 100_000), Vec2::zero());
}

#[test]
fn separation_points_away_from_a_single_neighbor() {
    for x in [-70_000i64, -3, 1, 20_000] {
        for y in [-60_000i64, -1, 2, 50_000] {
            let seen = vec![entry(1, x, y)];
            let push = separation_of(Vec2::new(0, 0), &seen, 100_000);
            assert!(push.x * x < 0);
            assert!(push.y * y < 0);
            assert!(push.norm_squared() <= 10_000_000_000);
            assert!(push.norm_squared() >= 99_997 * 99_997);
        }
    }
}

#[test]
fn edge_avoidance_is_zero_away_from_the_edges() {
    let w = world();
    assert_eq!(edge_avoidance_of(&w, Vec2::new(0, 0)), Vec2::zero());
    assert_eq!(edge_avoidance_of(&w, Vec2::new(390_000, 0)), Vec2::zero());
    assert_eq!(edge_avoidance_of(&w, Vec2::new(-390_000, 290_000)), Vec2::zero());
    assert_eq!(edge_avoidance_of(&w, Vec2::new(100_000, -290_000)), Vec2::zero());
}

#[test]
fn edge_avoidance_pulls_toward_the_center() {
    let w = world();
    assert_eq!(edge_avoidance_of(&w, Vec2::new(395_000, 0)), Vec2::new(-3_160_000, 0));
    assert_eq!(edge_avoidance_of(&w, Vec2::new(-395_000, 0)), Vec2::new(3_160_000, 0));
    assert_eq!(edge_avoidance_of(&w, Vec2::new(0, 299_000)), Vec2::new(0, -11_960_000));
    assert_eq!(
        edge_avoidance_of(&w, Vec2::new(390_001, -100_000)),
        Vec2::new(-1_560_160, 400_040)
    );
}

#[test]
fn edge_avoidance_divides_by_no_less_than_the_floor() {
    let w = world();
    assert_eq!(edge_avoidance_of(&w, Vec2::new(399_995, 0)), Vec2::new(-1_599_980_000, 0));
    assert_eq!(edge_avoidance_of(&w, Vec2::new(400_000, 0)), Vec2::new(-1_600_000_000, 0));
    assert_eq!(edge_avoidance_of(&w, Vec2::new(500_000, 0)), Vec2::new(-2_000_000_000, 0));
}

#[test]
fn edge_avoidance_grows_toward_the_edge() {
    let w = world();
    let mut last: u128 = 0;
    for x in 390_001i64..=399_990 {
        let pull = edge_avoidance_of(&w, Vec2::new(x, 0));
        assert!(pull.x < 0);
        assert_eq!(pull.y, 0);
        assert!(pull.norm_squared() > last);
        last = pull.norm_squared();
    }
}

#[test]
fn combine_weighs_the_rules_and_the_time_step() {
    let p = ParameterSet::default();
    let c = Vec2::new(50_000, 0);
    let a = Vec2::new(-10_000, 0);
    let s = Vec2::new(-100_000, 0);
    assert_eq!(combine(&p, c, a, s, Vec2::zero(), 1000), Vec2::new(-60_000, 0));
    assert_eq!(combine(&p, c, a, s, Vec2::zero(), 16), Vec2::new(-960, 0));
    assert_eq!(combine(&p, c, a, s, Vec2::zero(), 0), Vec2::zero());
    let q = ParameterSet {
        cohesion_weight: 2000,
        alignment_weight: 500,
        separation_weight: 0,
        edge_avoid_weight: 250,
        ..ParameterSet::default()
    };
    let e = Vec2::new(0, -3_160_000);
    assert_eq!(combine(&q, c, a, s, e, 1000), Vec2::new(95_000, -790_000));
    assert_eq!(combine(&q, c, a, s, e, 1), Vec2::new(95, -790));
}

#[test]
fn visible_neighbors_are_others_in_the_radius_and_the_cone() {
    let me = Agent::new(0, Vec2::new(0, 0), Vec2::new(10_000, 0)).unwrap();
    let p = ParameterSet::default();
    let candidates = vec![
        entry(0, 10, 0),
        entry(1, 50_000, 0),
        entry(2, -50_000, 0),
        entry(3, 100_001, 0),
        entry(4, 60_000, 80_000),
        entry(5, 10_000, 17_330),
        entry(6, 10_000, 17_320),
        entry(7, 0, 0),
    ];
    let seen = visible_neighbors(&me, &p, &candidates);
    let ids: Vec<usize> = seen.iter().map(|e| e.id).collect();
    assert_eq!(ids, vec![1, 4, 6]);
}

#[test]
fn an_agent_at_rest_sees_nothing() {
    let me = Agent::new(0, Vec2::new(0, 0), Vec2::zero()).unwrap();
    let candidates = vec![entry(1, 50_000, 0), entry(2, -50_000, 0)];
    assert!(visible_neighbors(&me, &wide_view(), &candidates).is_empty());
}

#[test]
fn an_agent_at_rest_is_steered_by_edge_avoidance_alone() {
    let mut flock = Flock::new();
    flock.spawn(Vec2::new(395_000, 0), Vec2::zero());
    flock.spawn(Vec2::new(390_000, 0), Vec2::new(10_000, 0));
    let index = SpatialIndex::build(&flock.entries());
    let deltas = compute(&flock, &index, &wide_view(), &world(), 1000);
    assert_eq!(deltas[0], SteeringDelta { agent_id: 0, velocity_delta: Vec2::new(-3_160_000, 0) });
}

#[test]
fn an_isolated_agent_is_not_steered() {
    let mut flock = Flock::new();
    flock.spawn(Vec2::new(0, 0), Vec2::new(10_000, 0));
    flock.spawn(Vec2::new(100_001, 0), Vec2::new(-10_000, 0));
    flock.spawn(Vec2::new(0, -200_000), Vec2::new(0, 10_000));
    let index = SpatialIndex::build(&flock.entries());
    let deltas = compute(&flock, &index, &wide_view(), &world(), 1000);
    assert_eq!(deltas.len(), 3);
    for (i, d) in deltas.iter().enumerate() {
        assert_eq!(d.agent_id, i);
        assert_eq!(d.velocity_delta, Vec2::zero());
    }
}

#[test]
fn an_agent_is_not_its_own_neighbor_in_a_stale_snapshot() {
    let mut flock = Flock::new();
    flock.spawn(Vec2::new(0, 0), Vec2::new(10_000, 0));
    // the snapshot still has the agent ahead of where it is now
    let index = SpatialIndex::build(&vec![entry(0, 20_000, 0)]);
    let me = flock.agent(0).unwrap();
    let delta = steer(&me, &flock, &index, &wide_view(), &world(), 1000);
    assert_eq!(delta.velocity_delta, Vec2::zero());
}

#[test]
fn a_neighbor_behind_changes_no_rule() {
    let mut flock = Flock::new();
    flock.spawn(Vec2::new(0, 0), Vec2::new(10_000, 0));
    flock.spawn(Vec2::new(50_000, 10_000), Vec2::new(-10_000, 5_000));
    let p = ParameterSet::default();
    let without = SpatialIndex::build(&flock.entries());
    let me = flock.agent(0).unwrap();
    let before = steer(&me, &flock, &without, &p, &world(), 1000);
    for distance in [1i64, 1000, 99_999, 100_000] {
        let mut with_one_behind = flock.entries();
        with_one_behind.push(entry(2, -distance, 0));
        let index = SpatialIndex::build(&with_one_behind);
        assert_eq!(steer(&me, &flock, &index, &p, &world(), 1000), before);
    }
}

#[test]
fn compute_gives_one_delta_for_each_agent() {
    let mut flock = Flock::new();
    for i in 0..50i64 {
        flock.spawn(Vec2::new(i * 7_000 - 150_000, (i % 7) * 9_000), Vec2::new(10_000, 10_000));
    }
    let index = SpatialIndex::build(&flock.entries());
    let p = ParameterSet::default();
    let deltas = compute(&flock, &index, &p, &world(), 16);
    assert_eq!(deltas.len(), 50);
    for (i, d) in deltas.iter().enumerate() {
        assert_eq!(d.agent_id, i);
        let me = flock.agent(i).unwrap();
        assert_eq!(*d, steer(&me, &flock, &index, &p, &world(), 16));
        assert!(d.velocity_delta.fits(20_000_000_000_000_000));
    }
    // nothing was changed
    assert_eq!(flock.agent(3).unwrap().position, Vec2::new(3 * 7_000 - 150_000, 27_000));
}

#[test]
fn steering_delta_is_refused_beyond_its_limit() {
    assert!(SteeringDelta::new(1, Vec2::new(20_000_000_000_000_000, 0)).is_some());
    assert!(SteeringDelta::new(1, Vec2::new(20_000_000_000_000_001, 0)).is_none());
    assert!(SteeringDelta::new(1, Vec2::new(0, -20_000_000_000_000_001)).is_none());
    let d = SteeringDelta::new(4, Vec2::new(-5, 6)).unwrap();
    assert_eq!(d, SteeringDelta { agent_id: 4, velocity_delta: Vec2::new(-5, 6) });
}

#[test]
fn cone_takes_a_heading_of_a_thousand_units_a_second() {
    let heading = Vec2::new(-1_000_000, 1_000_000);
    let far = u32::MAX as i64;
    assert!(in_cone(Vec2::new(-far, far), heading, 1000 - 1));
    assert!(!in_cone(Vec2::new(far, -far), heading, -1000));
    assert!(!in_cone(Vec2::new(far, far), heading, 0));
    assert!(in_cone(Vec2::new(far, far), heading, -1));
}
