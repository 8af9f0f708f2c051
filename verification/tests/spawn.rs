use boids::fixed::ONE;
use boids::point::RADIUS;
use boids::quadtree::QuadTree;
use boids::rect::Rect;
use boids::spawn::{
    gen_dir, heading_of, may_spawn, place_point, spawn, with_sign, DIR_MIN, SPAWN_DEPTH,
    SPAWN_WIDTH, SPEED_MAX, SPEED_MIN,
};
use boids::vec2::Vec2;

fn at(x: i32, y: i32) -> Vec2 {
    Vec2::new(x * ONE, y * ONE)
}

#[test]
fn spawn_constants_have_their_documented_values() {
    assert_eq!(SPAWN_WIDTH, 800 * ONE);
    assert_eq!(SPAWN_DEPTH, 700 * ONE);
    assert_eq!(SPEED_MIN, ONE);
    assert_eq!(SPEED_MAX, 25 * ONE);
    assert!(DIR_MIN as f64 / 65536.0 >= 0.1);
    assert!((DIR_MIN - 1) as f64 / 65536.0 < 0.1);
}

#[test]
fn with_sign_negates_on_request() {
    assert_eq!(with_sign(false, 7), 7);
    assert_eq!(with_sign(true, 7), -7);
    assert_eq!(with_sign(true, 0), 0);
    assert_eq!(with_sign(true, i32::MAX), -i32::MAX);
}

#[test]
fn gen_dir_stays_in_its_range() {
    for _ in 0..2000 {
        let d = gen_dir();
        assert!((d >= DIR_MIN && d < ONE) || (d > -ONE && d <= -DIR_MIN), "{}", d);
    }
}

#[test]
fn gen_dir_varies_in_sign_and_size() {
    let drawn: Vec<i32> = (0..200).map(|_| gen_dir()).collect();
    assert!(drawn.iter().any(|d| *d > 0));
    assert!(drawn.iter().any(|d| *d < 0));
    let mut sizes: Vec<i32> = drawn.iter().map(|d| d.abs()).collect();
    sizes.sort();
    sizes.dedup();
    assert!(sizes.len() > 20);
    assert!(sizes.iter().any(|s| *s != DIR_MIN));
}

#[test]
fn heading_has_the_given_length_along_the_given_direction() {
    assert_eq!(heading_of(3 * ONE, 4 * ONE, 10 * ONE), at(6, 8));
    assert_eq!(heading_of(-3 * ONE, 4 * ONE, 10 * ONE), at(-6, 8));
    assert_eq!(heading_of(0, -5, 7 * ONE), at(0, -7));
    assert_eq!(heading_of(ONE, 0, 0), at(0, 0));
}

#[test]
fn heading_rounds_toward_zero() {
    // the length of (1, 1) rounds down to 1
    assert_eq!(heading_of(1, 1, 10), Vec2::new(10, 10));
    // the length of (2, 2) rounds down to 2
    assert_eq!(heading_of(2, -2, 7), Vec2::new(7, -7));
    // the length of (30000, 40000) is 50000
    assert_eq!(heading_of(30_000, 40_000, 99_999), Vec2::new(59_999, 79_999));
    assert_eq!(heading_of(-30_000, -40_000, 99_999), Vec2::new(-59_999, -79_999));
}

#[test]
fn may_spawn_needs_the_button_and_the_strip() {
    assert!(may_spawn(at(400, -300), true));
    assert!(!may_spawn(at(400, -300), false));
    assert!(may_spawn(at(0, 0), true));
    assert!(may_spawn(at(800, -700), true));
    assert!(!may_spawn(Vec2::new(-1, -300 * ONE), true));
    assert!(!may_spawn(Vec2::new(800 * ONE + 1, -300 * ONE), true));
    assert!(!may_spawn(Vec2::new(400 * ONE, 1), true));
    assert!(!may_spawn(Vec2::new(400 * ONE, -700 * ONE - 1), true));
}

#[test]
fn spawned_particle_has_not_moved_yet() {
    let p = spawn(at(400, -300), 3 * ONE, 4 * ONE, 10 * ONE);
    assert_eq!(p.accel, at(6, 8));
    assert_eq!(p.last_pos, at(400, -300));
    assert_eq!(p.radius, RADIUS);
}

#[test]
fn place_point_makes_a_particle_and_stores_it() {
    let mut tree = QuadTree::new(at(0, 0), at(1000, 800), 10);
    let made = place_point(&mut tree, 42, at(400, -300), true);
    let p = made.unwrap();
    assert_eq!(p.last_pos, at(400, -300));
    assert_eq!(p.radius, RADIUS);
    let len = ((p.accel.x as f64).powi(2) + (p.accel.y as f64).powi(2)).sqrt() / 65536.0;
    assert!(len > 0.99 && len < 25.01, "{}", len);
    assert_ne!(p.accel.x, 0);
    assert_ne!(p.accel.y, 0);
    assert_eq!(tree.query_area(&Rect::new(at(0, 0), at(1000, 800))), vec![(42, at(400, -300))]);
}

#[test]
fn place_point_does_nothing_without_the_button_or_outside() {
    let mut tree = QuadTree::new(at(0, 0), at(1000, 800), 10);
    assert!(place_point(&mut tree, 1, at(400, -300), false).is_none());
    assert!(place_point(&mut tree, 2, at(900, -300), true).is_none());
    assert!(place_point(&mut tree, 3, at(400, -750), true).is_none());
    assert!(tree.elements.is_empty());
}

#[test]
fn place_point_draws_anew_each_time() {
    let mut tree = QuadTree::new(at(0, 0), at(1000, 800), 10);
    let mut seen = Vec::new();
    for id in 0..50u64 {
        let p = place_point(&mut tree, id, at(400, -300), true).unwrap();
        if !seen.contains(&p.accel) {
            seen.push(p.accel);
        }
    }
    assert!(seen.len() > 10);
    assert_eq!(tree.query_area(&Rect::new(at(0, 0), at(1000, 800))).len(), 50);
}
