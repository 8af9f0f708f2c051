use boids::fixed::ONE;
use boids::quadtree::{NodeReport, QuadTree};
use boids::rect::Rect;
use boids::vec2::Vec2;

fn at(x: i32, y: i32) -> Vec2 {
    Vec2::new(x * ONE, y * ONE)
}

fn world(capacity: usize) -> QuadTree {
    QuadTree::new(at(0, 0), at(1000, 800), capacity)
}

fn full() -> Rect {
    Rect::new(at(0, 0), at(1000, 800))
}

/// Points inside the world, from a fixed linear congruential sequence.
fn scattered(n: usize) -> Vec<(u64, Vec2)> {
    let mut state: u64 = 0x2545_f491_4f6c_dd1d;
    let mut out = Vec::new();
    for id in 0..n {
        state = state.wrapping_mul(6364136223846793005).wrapping_add(1442695040888963407);
        let x = ((state >> 33) % (1000 * 65536)) as i32;
        state = state.wrapping_mul(6364136223846793005).wrapping_add(1442695040888963407);
        let y = -(((state >> 33) % (800 * 65536)) as i32);
        out.push((id as u64, Vec2::new(x, y)));
    }
    out
}

fn sorted(mut items: Vec<(u64, Vec2)>) -> Vec<(u64, i32, i32)> {
    let mut keys: Vec<(u64, i32, i32)> = items.drain(..).map(|e| (e.0, e.1.x, e.1.y)).collect();
    keys.sort();
    keys
}

fn max_height(reports: &[NodeReport]) -> usize {
    reports.iter().map(|r| r.height).max().unwrap()
}

#[test]
fn new_tree_is_an_empty_leaf() {
    let t = world(10);
    assert!(!t.divided);
    assert!(t.quads.is_none());
    assert!(t.elements.is_empty());
    assert_eq!(t.height, 0);
    assert_eq!(t.capacity, 10);
    assert_eq!(t.bounds, full());
    assert!(t.query_area(&full()).is_empty());
}

#[test]
fn new_branch_keeps_what_it_is_given() {
    let b = Rect::new(at(500, -400), at(500, 400));
    let t = QuadTree::new_branch(b, 3, 2);
    assert_eq!(t.bounds, b);
    assert_eq!(t.capacity, 3);
    assert_eq!(t.height, 2);
    assert!(!t.divided);
    assert!(t.elements.is_empty());
}

#[test]
fn insert_point_outside_is_refused() {
    let mut t = world(10);
    assert!(!t.insert_point(1, at(-1, -5)));
    assert!(!t.insert_point(2, at(5, 1)));
    assert!(!t.insert_point(3, at(1000, -5)));
    assert!(!t.insert_point(4, at(5, -800)));
    assert!(t.elements.is_empty());
    assert!(t.query_area(&full()).is_empty());
}

#[test]
fn insert_point_takes_the_left_and_top_edges_only() {
    let mut t = world(10);
    assert!(t.insert_point(1, at(0, 0)));
    assert!(t.insert_point(2, at(0, -799)));
    assert!(t.insert_point(3, at(999, 0)));
    assert!(t.insert_point(4, Vec2::new(1000 * ONE - 1, -800 * ONE + 1)));
    assert!(!t.insert_point(5, at(1000, 0)));
    assert!(!t.insert_point(6, at(0, -800)));
    assert_eq!(t.elements.len(), 4);
}

#[test]
fn leaf_subdivides_when_it_reaches_capacity() {
    let mut t = world(4);
    for (k, p) in [at(10, -10), at(600, -10), at(10, -500)].iter().enumerate() {
        assert!(t.insert_point(k as u64, *p));
        assert!(!t.divided);
    }
    assert!(t.insert_point(3, at(600, -500)));
    assert!(t.divided);
    assert!(t.elements.is_empty());
    let q = t.quads.as_ref().unwrap();
    assert_eq!(q.q0.elements, vec![(0, at(10, -10))]);
    assert_eq!(q.q1.elements, vec![(1, at(600, -10))]);
    assert_eq!(q.q2.elements, vec![(2, at(10, -500))]);
    assert_eq!(q.q3.elements, vec![(3, at(600, -500))]);
    assert_eq!(q.q0.height, 1);
    assert_eq!(q.q3.capacity, 4);
}

#[test]
fn insert_into_a_branch_goes_to_one_quarter() {
    let mut t = world(4);
    t.subdivide();
    assert!(t.insert_point(7, at(500, -400)));
    let q = t.quads.as_ref().unwrap();
    assert!(q.q0.elements.is_empty());
    assert!(q.q1.elements.is_empty());
    assert!(q.q2.elements.is_empty());
    assert_eq!(q.q3.elements, vec![(7, at(500, -400))]);
    assert!(t.elements.is_empty());
}

#[test]
fn inserting_never_loses_a_point() {
    for capacity in [1usize, 2, 10, 64] {
        let points = scattered(300);
        let mut t = world(capacity);
        for (id, p) in points.iter() {
            assert!(t.insert_point(*id, *p));
        }
        let found = t.query_area(&full());
        assert_eq!(found.len(), 300);
        assert_eq!(sorted(found), sorted(points));
    }
}

#[test]
fn capacity_zero_still_keeps_every_point() {
    let points = scattered(40);
    let mut t = world(0);
    for (id, p) in points.iter() {
        assert!(t.insert_point(*id, *p));
    }
    assert!(t.divided);
    assert_eq!(sorted(t.query_area(&full())), sorted(points));
    assert_eq!(max_height(&t.tree_report()), 5);
}

#[test]
fn depth_stops_below_the_fifth_level() {
    let mut t = world(2);
    for id in 0..100u64 {
        assert!(t.insert_point(id, at(3, -3)));
    }
    let reports = t.tree_report();
    assert_eq!(max_height(&reports), 5);
    let deep: Vec<&NodeReport> = reports.iter().filter(|r| r.count > 0).collect();
    assert_eq!(deep.len(), 1);
    assert_eq!(deep[0].height, 5);
    assert_eq!(deep[0].count, 100);
    assert_eq!(t.query(at(3, -3)).len(), 100);
    assert_eq!(t.query_area(&full()).len(), 100);
}

#[test]
fn clear_leaves_nothing_behind() {
    let mut t = world(3);
    for (id, p) in scattered(50).iter() {
        t.insert_point(*id, *p);
    }
    assert!(t.divided);
    t.clear();
    assert!(!t.divided);
    assert!(t.elements.is_empty());
    assert!(t.query_area(&full()).is_empty());
    assert!(t.query(at(10, -10)).is_empty());
    // the subtrees stay, emptied
    assert!(t.quads.is_some());
    assert!(t.tree_report().iter().all(|r| r.count == 0));
    assert_eq!(t.bounds, full());
    assert_eq!(t.capacity, 3);
    assert_eq!(t.height, 0);
}

#[test]
fn refilling_after_clear_reproduces_the_structure() {
    let points = scattered(120);
    let mut t = world(5);
    for (id, p) in points.iter() {
        t.insert_point(*id, *p);
    }
    let before = t.tree_report();
    let found_before = t.query_area(&full());
    t.clear();
    for (id, p) in points.iter() {
        t.insert_point(*id, *p);
    }
    assert_eq!(t.tree_report(), before);
    assert_eq!(t.query_area(&full()), found_before);
    let mut fresh = world(5);
    for (id, p) in points.iter() {
        fresh.insert_point(*id, *p);
    }
    assert_eq!(fresh.tree_report(), before);
    assert_eq!(fresh.query_area(&full()), found_before);
}

#[test]
fn subdivide_quarters_the_bounds_and_hands_items_down() {
    let points = scattered(9);
    let mut t = world(100);
    for (id, p) in points.iter() {
        t.insert_point(*id, *p);
    }
    assert!(!t.divided);
    t.subdivide();
    assert!(t.divided);
    assert!(t.elements.is_empty());
    let q = t.quads.as_ref().unwrap();
    assert_eq!(q.q0.bounds, Rect::new(at(0, 0), at(500, 400)));
    assert_eq!(q.q1.bounds, Rect::new(at(500, 0), at(500, 400)));
    assert_eq!(q.q2.bounds, Rect::new(at(0, -400), at(500, 400)));
    assert_eq!(q.q3.bounds, Rect::new(at(500, -400), at(500, 400)));
    let children = [&q.q0, &q.q1, &q.q2, &q.q3];
    for (id, p) in points.iter() {
        let mut holders = 0;
        for c in children.iter() {
            let here = c.elements.iter().filter(|e| e.0 == *id).count();
            assert_eq!(here > 0, c.bounds.contains(*p));
            holders += here;
        }
        assert_eq!(holders, 1);
    }
    assert_eq!(sorted(t.query_area(&full())), sorted(points));
}

#[test]
fn subdivide_keeps_the_order_of_arrival() {
    let mut t = world(100);
    t.insert_point(5, at(10, -10));
    t.insert_point(6, at(700, -10));
    t.insert_point(7, at(20, -20));
    t.subdivide();
    let q = t.quads.as_ref().unwrap();
    assert_eq!(q.q0.elements, vec![(5, at(10, -10)), (7, at(20, -20))]);
    assert_eq!(q.q1.elements, vec![(6, at(700, -10))]);
}

#[test]
fn query_returns_the_leaf_of_the_point() {
    let mut t = world(4);
    t.insert_point(0, at(10, -10));
    t.insert_point(1, at(20, -20));
    t.insert_point(2, at(600, -10));
    t.insert_point(3, at(600, -500));
    assert!(t.divided);
    assert_eq!(t.query(at(100, -100)), vec![(0, at(10, -10)), (1, at(20, -20))]);
    assert_eq!(t.query(at(900, -1)), vec![(2, at(600, -10))]);
    assert_eq!(t.query(at(900, -700)), vec![(3, at(600, -500))]);
    assert!(t.query(at(100, -700)).is_empty());
}

#[test]
fn query_outside_the_tree_is_empty() {
    let mut t = world(4);
    t.insert_point(0, at(10, -10));
    assert!(t.query(at(-1, -10)).is_empty());
    assert!(t.query(at(10, 1)).is_empty());
    assert!(t.query(at(1000, -10)).is_empty());
    assert_eq!(t.query(at(999, -799)).len(), 1);
}

#[test]
fn query_area_finds_what_lies_in_the_rectangle() {
    let points = scattered(200);
    let mut t = world(4);
    for (id, p) in points.iter() {
        t.insert_point(*id, *p);
    }
    let r = Rect::new(at(250, -150), at(120, 90));
    let found = t.query_area(&r);
    for (id, p) in points.iter() {
        if r.contains(*p) {
            assert!(found.contains(&(*id, *p)));
        }
    }
    for e in found.iter() {
        assert!(points.contains(e));
    }
    assert!(found.len() < 200);
}

#[test]
fn query_area_beside_the_tree_is_empty() {
    let mut t = world(4);
    for (id, p) in scattered(20).iter() {
        t.insert_point(*id, *p);
    }
    assert!(t.query_area(&Rect::new(at(1000, 0), at(50, 50))).is_empty());
    assert!(t.query_area(&Rect::new(at(0, 50), at(50, 50))).is_empty());
    assert!(t.query_area(&Rect::new(at(-50, 0), at(50, 800))).is_empty());
}

#[test]
fn query_area_goes_quarter_by_quarter() {
    let mut t = world(4);
    t.insert_point(0, at(600, -500));
    t.insert_point(1, at(10, -500));
    t.insert_point(2, at(600, -10));
    t.insert_point(3, at(10, -10));
    assert_eq!(
        t.query_area(&full()),
        vec![(3, at(10, -10)), (2, at(600, -10)), (1, at(10, -500)), (0, at(600, -500))]
    );
}

#[test]
fn insert_with_a_rectangle_stores_its_corner() {
    let mut t = world(10);
    assert!(t.insert(1, &Rect::new(at(5, -5), at(30, 30))));
    assert_eq!(t.elements, vec![(1, at(5, -5))]);
    assert!(!t.insert(2, &Rect::new(at(1000, 0), at(30, 30))));
    assert!(!t.insert(3, &Rect::new(at(0, 30), at(30, 30))));
    assert_eq!(t.elements.len(), 1);
}

#[test]
fn insert_with_a_rectangle_may_store_a_corner_outside() {
    let mut t = world(10);
    assert!(t.insert(1, &Rect::new(at(-10, 10), at(30, 30))));
    assert_eq!(t.elements, vec![(1, at(-10, 10))]);
    t.subdivide();
    assert!(t.query_area(&full()).is_empty());
}

#[test]
fn insert_with_a_rectangle_into_a_branch_stores_nothing() {
    let mut t = world(2);
    t.insert_point(0, at(10, -10));
    t.insert_point(1, at(600, -10));
    assert!(t.divided);
    assert!(t.insert(9, &Rect::new(at(5, -5), at(30, 30))));
    assert_eq!(sorted(t.query_area(&full())), vec![(0, 10 * ONE, -10 * ONE), (1, 600 * ONE, -10 * ONE)]);
}

#[test]
fn insert_with_a_rectangle_fills_a_leaf() {
    let mut t = world(2);
    assert!(t.insert(0, &Rect::new(at(10, -10), at(5, 5))));
    assert!(!t.divided);
    assert!(t.insert(1, &Rect::new(at(600, -10), at(5, 5))));
    assert!(t.divided);
    assert_eq!(t.query(at(700, -20)), vec![(1, at(600, -10))]);
}

#[test]
fn tree_report_lists_nodes_before_their_subtrees() {
    let mut t = world(2);
    assert_eq!(
        t.tree_report(),
        vec![NodeReport { height: 0, count: 0, pos: at(0, 0), size: at(1000, 800) }]
    );
    t.insert_point(0, at(10, -10));
    t.insert_point(1, at(600, -10));
    let reports = t.tree_report();
    assert_eq!(reports.len(), 5);
    assert_eq!(reports[0], NodeReport { height: 0, count: 0, pos: at(0, 0), size: at(1000, 800) });
    assert_eq!(reports[1], NodeReport { height: 1, count: 1, pos: at(0, 0), size: at(500, 400) });
    assert_eq!(reports[2], NodeReport { height: 1, count: 1, pos: at(500, 0), size: at(500, 400) });
    assert_eq!(reports[3], NodeReport { height: 1, count: 0, pos: at(0, -400), size: at(500, 400) });
    assert_eq!(reports[4], NodeReport { height: 1, count: 0, pos: at(500, -400), size: at(500, 400) });
}

#[test]
fn quad_rects_gives_the_centre_of_each_leaf() {
    let mut t = world(2);
    assert_eq!(t.quad_rects(), vec![(at(500, -400), at(1000, 800))]);
    t.insert_point(0, at(10, -10));
    t.insert_point(1, at(600, -10));
    assert_eq!(
        t.quad_rects(),
        vec![
            (at(250, -200), at(500, 400)),
            (at(750, -200), at(500, 400)),
            (at(250, -600), at(500, 400)),
            (at(750, -600), at(500, 400)),
        ]
    );
    t.clear();
    assert_eq!(t.quad_rects().len(), 5);
}

#[test]
fn insert_with_a_rectangle_into_a_branch_of_capacity_zero_empties_it() {
    let mut t = world(0);
    t.insert_point(0, at(10, -10));
    t.insert_point(1, at(600, -10));
    assert_eq!(t.query_area(&full()).len(), 2);
    assert!(t.insert(9, &Rect::new(at(5, -5), at(30, 30))));
    assert!(t.divided);
    assert!(t.query_area(&full()).is_empty());
    assert_eq!(t.tree_report().len(), 5);
}

#[test]
fn every_stored_point_is_found_at_its_own_position() {
    let points = scattered(150);
    let mut t = world(3);
    for (id, p) in points.iter() {
        t.insert_point(*id, *p);
    }
    for (id, p) in points.iter() {
        assert!(t.query(*p).contains(&(*id, *p)));
    }
}
