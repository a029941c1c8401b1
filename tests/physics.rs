use orbs::geometry::Point;
use orbs::world::{
    Body, Colour, SpawnDraws, World, LARGEST_RADIUS, OUTER_RADIUS, SCALE,
    SMALLEST_RADIUS, TICK_GRAVITY,
};

fn grey() -> Colour {
    Colour { red: 100, green: 100, blue: 100 }
}

fn resting(x: i64, y: i64, radius: i64) -> Body {
    let p = Point { x, y };
    Body { position: p, last_position: p, radius, colour: grey() }
}

fn norm2(p: Point) -> i128 {
    (p.x as i128) * (p.x as i128) + (p.y as i128) * (p.y as i128)
}

fn largest_draws() -> SpawnDraws {
    SpawnDraws { first: 65535, second: 3, red: 10, green: 20, blue: 199 }
}

#[test]
fn overlapping_pair_ends_sum_of_radii_apart() {
    let r = 10 * SCALE;
    let half_gap = 15 * SCALE / 2;
    let mut w = World::from_bodies(vec![resting(-half_gap, 0, r), resting(half_gap, 0, r)]).unwrap();
    w.tick();
    let b = w.bodies();
    assert_eq!(b[0].position, Point { x: -r, y: TICK_GRAVITY });
    assert_eq!(b[1].position, Point { x: r, y: TICK_GRAVITY });
    assert_eq!(b[1].position.x - b[0].position.x, 20 * SCALE);
    assert_eq!(b[0].position.x + b[1].position.x, 0);
}

#[test]
fn coincident_centres_separate_along_x() {
    let r = 10 * SCALE;
    let mut w = World::from_bodies(vec![resting(0, 0, r), resting(0, 0, r)]).unwrap();
    w.tick();
    let b = w.bodies();
    assert_eq!(b[0].position.x, r);
    assert_eq!(b[1].position.x, -r);
}

#[test]
fn body_moving_outwards_stays_in_arena() {
    let r = 10 * SCALE;
    let edge = OUTER_RADIUS - r;
    let body = Body {
        position: Point { x: edge, y: 0 },
        last_position: Point { x: edge - 5000, y: 0 },
        radius: r,
        colour: grey(),
    };
    let mut w = World::from_bodies(vec![body]).unwrap();
    for _ in 0..50 {
        w.tick();
        let b = w.bodies()[0];
        let m = (OUTER_RADIUS - b.radius) as i128;
        assert!(norm2(b.position) <= m * m);
    }
}

#[test]
fn falling_body_gains_speed() {
    let mut w = World::from_bodies(vec![resting(0, 0, 5 * SCALE)]).unwrap();
    w.tick();
    assert_eq!(w.bodies()[0].position, Point { x: 0, y: TICK_GRAVITY });
    assert_eq!(w.bodies()[0].last_position, Point { x: 0, y: 0 });
    w.tick();
    assert_eq!(w.bodies()[0].position, Point { x: 0, y: 3 * TICK_GRAVITY });
}

#[test]
fn many_bodies_stay_contained_after_ticks() {
    let r = 8 * SCALE;
    let mut bodies = Vec::new();
    for i in 0..6 {
        for j in 0..6 {
            bodies.push(resting((i - 3) * 12 * SCALE, (j - 3) * 12 * SCALE, r));
        }
    }
    let mut w = World::from_bodies(bodies).unwrap();
    for _ in 0..200 {
        w.tick();
    }
    for b in w.bodies() {
        let m = (OUTER_RADIUS - b.radius) as i128;
        assert!(norm2(b.position) <= m * m);
    }
}

#[test]
fn ticking_is_deterministic() {
    let make = || {
        World::from_bodies(vec![
            resting(0, 0, 10 * SCALE),
            resting(3 * SCALE, 1, 12 * SCALE),
            resting(-4 * SCALE, 7, 6 * SCALE),
        ])
        .unwrap()
    };
    let mut a = make();
    let mut b = make();
    for _ in 0..100 {
        a.tick();
        b.tick();
    }
    assert_eq!(a.bodies(), b.bodies());
}

#[test]
fn spawn_in_empty_arena_takes_preferred_radius() {
    let mut w = World::new();
    let c = Point { x: 0, y: 0 };
    assert!(w.spawn(c, &largest_draws()));
    let b = w.bodies()[0];
    assert_eq!(b.radius, SMALLEST_RADIUS + 65535 * (LARGEST_RADIUS - SMALLEST_RADIUS) / 65536);
    assert_eq!(b.position, c);
    assert_eq!(b.last_position, c);
    assert_eq!(b.colour, Colour { red: 65, green: 75, blue: 254 });
}

#[test]
fn spawn_with_smallest_draws_takes_smallest_radius() {
    let mut w = World::new();
    let d = SpawnDraws { first: 0, second: 0, red: 0, green: 0, blue: 0 };
    assert!(w.spawn(Point { x: 0, y: 0 }, &d));
    assert_eq!(w.bodies()[0].radius, SMALLEST_RADIUS);
    assert_eq!(w.bodies()[0].colour, Colour { red: 55, green: 55, blue: 55 });
}

#[test]
fn spawn_radius_capped_by_neighbour() {
    let mut w = World::from_bodies(vec![resting(0, 0, 10 * SCALE)]).unwrap();
    assert!(w.spawn(Point { x: 25 * SCALE, y: 0 }, &largest_draws()));
    assert_eq!(w.bodies().len(), 2);
    assert_eq!(w.bodies()[1].radius, 15 * SCALE);
}

#[test]
fn spawn_radius_capped_by_arena() {
    let mut w = World::new();
    assert!(w.spawn(Point { x: 0, y: -340 * SCALE }, &largest_draws()));
    assert_eq!(w.bodies()[0].radius, 10 * SCALE);
}

#[test]
fn spawn_inside_body_is_refused() {
    let mut w = World::from_bodies(vec![resting(0, 0, 20 * SCALE)]).unwrap();
    assert!(!w.spawn(Point { x: 3 * SCALE, y: 4 * SCALE }, &largest_draws()));
    assert_eq!(w.bodies().len(), 1);
}

#[test]
fn spawn_in_narrow_gap_is_refused() {
    let mut w = World::from_bodies(vec![resting(0, 0, 10 * SCALE)]).unwrap();
    assert!(!w.spawn(Point { x: 14 * SCALE, y: 0 }, &largest_draws()));
    assert_eq!(w.bodies().len(), 1);
}

#[test]
fn spawn_outside_arena_is_refused() {
    let mut w = World::new();
    assert!(!w.spawn(Point { x: 400 * SCALE, y: 0 }, &largest_draws()));
    assert!(!w.spawn(Point { x: i64::MIN, y: i64::MAX }, &largest_draws()));
    assert!(w.bodies().is_empty());
}

#[test]
fn remove_takes_all_bodies_under_cursor() {
    let r = 10 * SCALE;
    let far = resting(100 * SCALE, 0, r);
    let mut w = World::from_bodies(vec![
        resting(0, 0, r),
        far,
        resting(5 * SCALE, 0, r),
        resting(0, 5 * SCALE, r),
    ])
    .unwrap();
    w.remove_at(Point { x: SCALE, y: SCALE });
    assert_eq!(w.bodies().len(), 1);
    assert_eq!(w.bodies()[0], far);
}

#[test]
fn remove_on_edge_keeps_body() {
    let r = 10 * SCALE;
    let mut w = World::from_bodies(vec![resting(0, 0, r)]).unwrap();
    w.remove_at(Point { x: r, y: 0 });
    assert_eq!(w.bodies().len(), 1);
    w.remove_at(Point { x: i64::MAX, y: i64::MIN });
    assert_eq!(w.bodies().len(), 1);
    w.remove_at(Point { x: r - 1, y: 0 });
    assert!(w.bodies().is_empty());
}

#[test]
fn clear_twice_leaves_nothing() {
    let mut w = World::from_bodies(vec![resting(0, 0, SMALLEST_RADIUS), resting(50 * SCALE, 0, SMALLEST_RADIUS)]).unwrap();
    w.clear();
    assert!(w.bodies().is_empty());
    w.clear();
    assert!(w.bodies().is_empty());
}

#[test]
fn from_bodies_validates_each_body() {
    assert!(World::from_bodies(vec![resting(0, 0, SMALLEST_RADIUS - 1)]).is_none());
    assert!(World::from_bodies(vec![resting(0, 0, LARGEST_RADIUS + 1)]).is_none());
    assert!(World::from_bodies(vec![resting(OUTER_RADIUS, 0, SMALLEST_RADIUS)]).is_none());
    assert!(World::from_bodies(vec![resting(OUTER_RADIUS - SMALLEST_RADIUS, 0, SMALLEST_RADIUS)]).is_some());
    let moving = Body {
        position: Point { x: 0, y: 0 },
        last_position: Point { x: i64::MAX, y: 0 },
        radius: SMALLEST_RADIUS,
        colour: grey(),
    };
    assert!(World::from_bodies(vec![moving]).is_none());
}

#[test]
fn spawn_succeeds_beside_thousands_of_bodies() {
    let many = vec![resting(0, 0, SMALLEST_RADIUS); 9000];
    let mut w = World::from_bodies(many).unwrap();
    assert!(w.spawn(Point { x: 100 * SCALE, y: 0 }, &largest_draws()));
    assert_eq!(w.bodies().len(), 9001);
}
