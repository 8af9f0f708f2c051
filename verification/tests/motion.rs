use boids::fixed::ONE;
use boids::motion::{apply_constraint, constrain, integrate, move_points, DAMPING, GRAVITY, PADDING};
use boids::point::{Particle, ParticleStore, Point};
use boids::quadtree::QuadTree;
use boids::rect::Rect;
use boids::vec2::Vec2;

/// A sixty-fourth of a second.
const DT: i32 = 1024;

fn at(x: i32, y: i32) -> Vec2 {
    Vec2::new(x * ONE, y * ONE)
}

fn resting(id: u64, pos: Vec2) -> Particle {
    let mut point = Point::new(Vec2::new(0, 0));
    point.last_pos = pos;
    Particle { id, pos, point }
}

fn walls() -> Rect {
    Rect::new(at(0, 0), at(1000, 800))
}

#[test]
fn motion_constants_have_their_documented_values() {
    assert_eq!(GRAVITY, 370 * ONE);
    assert_eq!(DAMPING, 40);
    assert_eq!(PADDING, ONE);
}

#[test]
fn particle_at_rest_without_pull_stays() {
    let mut p = resting(1, at(300, -200));
    p.point.accel = Vec2::new(0, GRAVITY);
    let q = integrate(p, DT);
    assert_eq!(q.pos, p.pos);
    assert_eq!(q.point.last_pos, p.pos);
    assert_eq!(q.point.accel, Vec2::new(0, 0));
    assert_eq!(q.id, 1);
}

#[test]
fn step_of_no_duration_only_carries_the_displacement() {
    let mut p = resting(1, at(300, -200));
    p.point.last_pos = at(299, -198);
    let q = integrate(p, 0);
    assert_eq!(q.pos, at(301, -202));
    assert_eq!(q.point.last_pos, at(300, -200));
}

#[test]
fn first_step_under_gravity_falls_by_the_expected_amount() {
    let q = integrate(resting(1, at(300, -200)), DT);
    // 370 / 64^2 of a unit
    assert_eq!(q.pos, Vec2::new(300 * ONE, -200 * ONE - 5920));
    assert_eq!(q.point.last_pos, at(300, -200));
    assert_eq!(q.point.radius, 10 * ONE);
}

#[test]
fn second_step_is_damped() {
    let q = integrate(integrate(resting(1, at(300, -200)), DT), DT);
    // displacement -5920, pull (-24248320 + 40 * 5920) / 4096 rounded toward zero
    assert_eq!(q.pos, Vec2::new(300 * ONE, -200 * ONE - 5920 - 5920 - 5862));
    assert_eq!(q.point.last_pos, Vec2::new(300 * ONE, -200 * ONE - 5920));
}

#[test]
fn pending_acceleration_is_used_once() {
    let mut p = resting(1, at(300, -200));
    p.point.accel = Vec2::new(4096 * ONE, GRAVITY);
    let q = integrate(p, DT);
    assert_eq!(q.pos, at(301, -200));
    assert_eq!(q.point.accel, Vec2::new(0, 0));
    let r = integrate(q, DT);
    // carried on by the displacement of one unit, less the damping
    assert_eq!(r.pos.x, 302 * ONE - 640);
}

#[test]
fn fall_follows_the_recurrence_within_tolerance() {
    let mut p = resting(1, at(300, 0));
    let mut y = 0.0f64;
    let mut last = 0.0f64;
    let dt2 = 1.0f64 / 4096.0;
    for step in 1..=60 {
        p = integrate(p, DT);
        let disp = y - last;
        last = y;
        y = y + disp + (-370.0 - disp * 40.0) * dt2;
        let got = p.pos.y as f64 / 65536.0;
        assert!((got - y).abs() < 0.05, "step {}: {} against {}", step, got, y);
        assert_eq!(p.pos.x, 300 * ONE);
    }
    // without damping the fall would be 370 * (60/64)^2 / 2 + half a step; damping holds it back
    assert!(y < -100.0 && y > -170.0);
}

#[test]
fn integrate_saturates_at_the_range_of_coordinates() {
    let mut p = resting(1, Vec2::new(i32::MAX - 5, i32::MIN + 5));
    p.point.last_pos = Vec2::new(0, 0);
    let q = integrate(p, 0);
    assert_eq!(q.pos, Vec2::new(i32::MAX, i32::MIN));
}

#[test]
fn left_wall_sets_back_and_stops() {
    let mut p = resting(1, at(-5, -100));
    p.point.last_pos = at(3, -90);
    let q = constrain(p, &walls());
    assert_eq!(q.pos, at(11, -100));
    assert_eq!(q.point.last_pos, at(11, -90));
}

#[test]
fn right_wall_sets_back_and_stops() {
    let mut p = resting(1, at(1005, -100));
    p.point.last_pos = at(990, -90);
    let q = constrain(p, &walls());
    assert_eq!(q.pos, at(989, -100));
    assert_eq!(q.point.last_pos, at(989, -90));
}

#[test]
fn top_wall_sets_back_and_stops() {
    let mut p = resting(1, at(500, 3));
    p.point.last_pos = at(490, -20);
    let q = constrain(p, &walls());
    assert_eq!(q.pos, at(500, -11));
    assert_eq!(q.point.last_pos, at(490, -11));
}

#[test]
fn bottom_wall_sets_back_and_stops() {
    let mut p = resting(1, at(500, -900));
    p.point.last_pos = at(490, -700);
    let q = constrain(p, &walls());
    assert_eq!(q.pos, at(500, -789));
    assert_eq!(q.point.last_pos, at(490, -789));
}

#[test]
fn corner_is_held_on_both_axes() {
    let q = constrain(resting(1, at(2000, 2000)), &walls());
    assert_eq!(q.pos, at(989, -11));
    assert_eq!(q.point.last_pos, at(989, -11));
}

#[test]
fn rim_that_touches_a_wall_counts_as_a_hit() {
    let mut p = resting(1, at(11, -100));
    p.point.last_pos = at(20, -100);
    let q = constrain(p, &walls());
    assert_eq!(q.pos, at(11, -100));
    assert_eq!(q.point.last_pos, at(11, -100));
    let mut free = resting(1, Vec2::new(11 * ONE + 1, -100 * ONE));
    free.point.last_pos = at(20, -100);
    assert_eq!(constrain(free, &walls()), free);
}

#[test]
fn particle_inside_is_left_alone() {
    let mut p = resting(1, at(500, -400));
    p.point.last_pos = at(480, -390);
    p.point.accel = Vec2::new(7, 8);
    assert_eq!(constrain(p, &walls()), p);
}

#[test]
fn radius_of_the_particle_decides_the_distance() {
    let mut p = resting(1, at(-5, -100));
    p.point.radius = 30 * ONE;
    let q = constrain(p, &walls());
    assert_eq!(q.pos, at(31, -100));
}

#[test]
fn in_a_room_too_narrow_the_later_wall_wins() {
    let narrow = Rect::new(at(0, 0), at(10, 10));
    let q = constrain(resting(1, at(5, -5)), &narrow);
    assert_eq!(q.pos, at(-1, 1));
    assert_eq!(q.point.last_pos, at(-1, 1));
}

#[test]
fn move_points_advances_all_and_refills_the_tree() {
    let mut store = ParticleStore::new();
    store.add(resting(5, at(100, -100)));
    store.add(resting(6, at(900, -700)));
    let mut tree = QuadTree::new(at(0, 0), at(1000, 800), 10);
    tree.insert_point(77, at(1, -1));
    move_points(&mut store, &mut tree, DT);
    assert_eq!(store.get(0).pos, Vec2::new(100 * ONE, -100 * ONE - 5920));
    assert_eq!(store.get(1).pos, Vec2::new(900 * ONE, -700 * ONE - 5920));
    assert_eq!(store.get(0).point.last_pos, at(100, -100));
    assert_eq!(
        tree.query_area(&walls()),
        vec![
            (5, Vec2::new(100 * ONE, -100 * ONE - 5920)),
            (6, Vec2::new(900 * ONE, -700 * ONE - 5920)),
        ]
    );
}

#[test]
fn move_points_does_not_store_what_left_the_tree() {
    let mut store = ParticleStore::new();
    store.add(resting(5, at(100, -100)));
    store.add(resting(6, at(100, -799)));
    let mut tree = QuadTree::new(at(0, 0), at(1000, 800), 10);
    for _ in 0..20 {
        move_points(&mut store, &mut tree, DT);
    }
    assert!(store.get(1).pos.y < -800 * ONE);
    let found = tree.query_area(&walls());
    assert_eq!(found.len(), 1);
    assert_eq!(found[0].0, 5);
    assert_eq!(found[0].1, store.get(0).pos);
}

#[test]
fn apply_constraint_holds_every_particle() {
    let mut store = ParticleStore::new();
    store.add(resting(1, at(-50, -100)));
    store.add(resting(2, at(500, -400)));
    store.add(resting(3, at(500, -2000)));
    let tree = QuadTree::new(at(0, 0), at(1000, 800), 10);
    apply_constraint(&mut store, &tree);
    assert_eq!(store.get(0).pos, at(11, -100));
    assert_eq!(store.get(1).pos, at(500, -400));
    assert_eq!(store.get(2).pos, at(500, -789));
    assert_eq!(store.find(3), Some(2));
}

#[test]
fn short_fall_is_close_to_the_parabola() {
    let mut p = resting(1, at(300, 0));
    for _ in 0..5 {
        p = integrate(p, DT);
    }
    // from rest, k steps without damping fall by g * dt^2 * k * (k + 1) / 2
    let parabola = -370.0f64 / 4096.0 * 15.0;
    let got = p.pos.y as f64 / 65536.0;
    assert!((got - parabola).abs() < 0.1, "{} against {}", got, parabola);
    assert!(got > parabola);
}
