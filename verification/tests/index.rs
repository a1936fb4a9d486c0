use boids::index::{is_within, Entry, SpatialIndex};
use boids::schedule::RebuildSchedule;
use boids::vec2::Vec2;

fn entry(id: usize, x: i64, y: i64) -> Entry {
    Entry { id, position: Vec2::new(x, y) }
}

fn ids(found: &Vec<Entry>) -> Vec<usize> {
    let mut out: Vec<usize> = Vec::new();
    for e in found {
        out.push(e.id);
    }
    out
}

#[test]
fn is_within_includes_the_border() {
    let c = Vec2::new(0, 0);
    assert!(is_within(Vec2::new(3000, 4000), c, 5000));
    assert!(!is_within(Vec2::new(3000, 4001), c, 5000));
    assert!(is_within(Vec2::new(0, 0), c, 0));
    assert!(!is_within(Vec2::new(1, 0), c, 0));
}

#[test]
fn is_within_takes_any_coordinates() {
    assert!(!is_within(Vec2::new(i64::MAX, i64::MAX), Vec2::new(i64::MIN, i64::MIN), u32::MAX));
    assert!(is_within(Vec2::new(i64::MAX, i64::MIN), Vec2::new(i64::MAX - 3, i64::MIN + 4), 5));
}

#[test]
fn query_finds_what_lies_within_the_radius() {
    let points = vec![
        entry(0, 0, 0),
        entry(1, 3000, 4000),
        entry(2, -5000, 0),
        entry(3, 6000, 0),
        entry(4, 0, -5001),
    ];
    let index = SpatialIndex::build(&points);
    assert_eq!(index.len(), 5);
    let found = index.query(Vec2::new(0, 0), 5000);
    assert_eq!(ids(&found), vec![2, 0, 1]);
    assert_eq!(found[0].position, Vec2::new(-5000, 0));
    assert_eq!(found[2].position, Vec2::new(3000, 4000));
}

#[test]
fn query_includes_the_point_at_the_center() {
    let points = vec![entry(7, 100, 200)];
    let index = SpatialIndex::build(&points);
    let found = index.query(Vec2::new(100, 200), 0);
    assert_eq!(ids(&found), vec![7]);
}

#[test]
fn query_on_an_empty_snapshot_finds_nothing() {
    let points: Vec<Entry> = Vec::new();
    let index = SpatialIndex::build(&points);
    assert_eq!(index.len(), 0);
    assert!(index.query(Vec2::new(0, 0), u32::MAX).is_empty());
}

#[test]
fn query_keeps_points_that_occur_twice() {
    let points = vec![entry(1, 5, 5), entry(1, 5, 5), entry(2, 9_000, 0)];
    let index = SpatialIndex::build(&points);
    let found = index.query(Vec2::new(0, 0), 100);
    assert_eq!(ids(&found), vec![1, 1]);
}

#[test]
fn query_agrees_with_a_scan_of_all_points() {
    let mut points: Vec<Entry> = Vec::new();
    let mut seed: i64 = 12345;
    for id in 0..300usize {
        seed = (seed * 1_103_515_245 + 12_345) % 2_147_483_648;
        let x = seed % 800_001 - 400_000;
        seed = (seed * 1_103_515_245 + 12_345) % 2_147_483_648;
        let y = seed % 600_001 - 300_000;
        points.push(entry(id, x, y));
    }
    let index = SpatialIndex::build(&points);
    let centers = [Vec2::new(0, 0), Vec2::new(-399_000, 250_000), Vec2::new(123_456, -7)];
    let radii: [u32; 4] = [0, 10_000, 100_000, 1_000_000];
    for c in centers {
        for r in radii {
            let mut expected: Vec<usize> = Vec::new();
            for p in &points {
                if is_within(p.position, c, r) {
                    expected.push(p.id);
                }
            }
            let mut got = ids(&index.query(c, r));
            got.sort();
            expected.sort();
            assert_eq!(got, expected);
        }
    }
}

#[test]
fn query_answers_in_the_order_of_the_first_coordinate() {
    let points = vec![entry(0, 30, 0), entry(1, -20, 5), entry(2, 10, -5), entry(3, -20, 7)];
    let index = SpatialIndex::build(&points);
    let found = index.query(Vec2::new(0, 0), 1000);
    assert_eq!(ids(&found), vec![1, 3, 2, 0]);
}

#[test]
fn schedule_rebuilds_when_the_interval_has_passed() {
    let mut schedule = RebuildSchedule::new(300);
    assert_eq!(schedule.interval(), 300);
    assert_eq!(schedule.elapsed(), 0);
    for tick in 1..=18u32 {
        assert!(!schedule.advance(16));
        assert_eq!(schedule.elapsed(), 16 * tick);
    }
    assert!(schedule.advance(16));
    assert_eq!(schedule.elapsed(), 0);
    assert!(!schedule.advance(299));
    assert!(schedule.advance(1));
}

#[test]
fn schedule_with_no_interval_rebuilds_every_tick() {
    let mut schedule = RebuildSchedule::new(0);
    assert!(schedule.advance(0));
    assert!(schedule.advance(16));
    assert_eq!(schedule.elapsed(), 0);
}

#[test]
fn schedule_keeps_the_age_below_the_interval() {
    let mut schedule = RebuildSchedule::new(1000);
    let steps: [u16; 6] = [999, 1, 500, 499, 0, 65_535];
    for dt in steps {
        schedule.advance(dt);
        assert!(schedule.elapsed() < 1000);
    }
}
