//! The Verlet step and the walls.
use vstd::prelude::*;
use vstd::seq_lib::group_to_multiset_ensures;
use crate::fixed::{ONE, clamp_coord, div_trunc, quotient, saturate};
use crate::point::{Particle, ParticleStore, Point, has_id, knows, lemma_same_ids, same_ids};
use crate::quadtree::QuadTree;
use crate::rect::Rect;
use crate::shape::{Item, Shape, lemma_within_contains, within};
use crate::tree_laws::lemma_insert_all_holds;
use crate::vec2::Vec2;

verus! {

/// The downward acceleration on every particle: 370 units per second
/// squared.
pub const GRAVITY: i32 = 24_248_320;

/// How strongly the displacement of the last step is held back.
pub const DAMPING: i32 = 40;

/// The room kept between a particle's rim and a wall: one unit.
pub const PADDING: i32 = 65_536;

/// The square of a time step, as a fixed-point number.
pub open spec fn dt_squared(dt: int) -> int {
    (dt * dt) / (ONE as int)
}

/// One coordinate after a step: the position moves on by its last
/// displacement and by the acceleration, less the damped displacement, over
/// the squared time step.
pub open spec fn step_axis(pos: int, last: int, accel: int, dt2: int) -> i32 {
    let disp = pos - last;
    clamp_coord(pos + disp + div_trunc((accel - disp * DAMPING) * dt2, ONE as int))
}

/// A particle after one step of length `dt`: it has moved, remembers where
/// it was, and has used up its pending acceleration.
pub open spec fn integrated(p: Particle, dt: i32) -> Particle {
    let dt2 = dt_squared(dt as int);
    Particle {
        id: p.id,
        pos: Vec2 {
            x: step_axis(p.pos.x as int, p.point.last_pos.x as int, p.point.accel.x as int, dt2),
            y: step_axis(
                p.pos.y as int,
                p.point.last_pos.y as int,
                p.point.accel.y - GRAVITY,
                dt2,
            ),
        },
        point: Point { accel: Vec2::zero(), last_pos: p.pos, radius: p.point.radius },
    }
}

/// The identifiers and positions of `ps`, in their order.
pub open spec fn placed(ps: Seq<Particle>) -> Seq<Item> {
    Seq::new(ps.len(), |i: int| (ps[i].id, ps[i].pos))
}

/// A particle after the walls of `b` were applied: on each axis, a
/// particle whose rim reaches a wall is set back to where its rim, with
/// the padding, touches the wall, and forgets its motion on that axis. The
/// right wall is applied after the left, the bottom after the top.
pub open spec fn constrained(p: Particle, b: Rect) -> Particle {
    let rad = p.point.radius + PADDING;
    let hit_left = p.pos.x - rad <= b.spec_left();
    let hit_right = p.pos.x + rad >= b.spec_right();
    let hit_top = p.pos.y + rad >= b.spec_top();
    let hit_bottom = p.pos.y - rad <= b.spec_bottom();
    let x = if hit_right {
        clamp_coord(b.spec_right() - rad)
    } else if hit_left {
        clamp_coord(b.spec_left() + rad)
    } else {
        p.pos.x
    };
    let y = if hit_bottom {
        clamp_coord(b.spec_bottom() + rad)
    } else if hit_top {
        clamp_coord(b.spec_top() - rad)
    } else {
        p.pos.y
    };
    Particle {
        id: p.id,
        pos: Vec2 { x, y },
        point: Point {
            accel: p.point.accel,
            last_pos: Vec2 {
                x: if hit_left || hit_right { x } else { p.point.last_pos.x },
                y: if hit_top || hit_bottom { y } else { p.point.last_pos.y },
            },
            radius: p.point.radius,
        },
    }
}

/// Computes [`step_axis`] for a step whose square is `dt2`.
fn step(pos: i32, last: i32, accel: i64, dt2: i64) -> (r: i32)
    requires
        -0x1_0000_0000 <= accel <= 0x1_0000_0000,
        0 <= dt2 <= 0x4000_0000_0000,
    ensures
        r == step_axis(pos as int, last as int, accel as int, dt2 as int),
{
    let disp: i64 = pos as i64 - last as i64;
    assert(-0x28_0000_0000 <= disp * (DAMPING as i64) <= 0x28_0000_0000) by (nonlinear_arith)
        requires
            -0x1_0000_0000 <= disp <= 0x1_0000_0000,
            DAMPING == 40,
    ;
    let pull: i64 = accel - disp * (DAMPING as i64);
    assert(-0x1_0000_0000_0000_0000_0000_0000 <= pull * dt2 <= 0x1_0000_0000_0000_0000_0000_0000)
        by (nonlinear_arith)
        requires
            -0x100_0000_0000 <= pull <= 0x100_0000_0000,
            0 <= dt2 <= 0x4000_0000_0000,
    ;
    let moved: i128 = quotient(pull as i128 * dt2 as i128, ONE as i128);
    saturate(pos as i128 + disp as i128 + moved)
}

/// Advances one particle by a step of length `dt`.
pub fn integrate(p: Particle, dt: i32) -> (r: Particle)
    ensures
        r == integrated(p, dt),
{
    assert(0 <= dt * dt <= 0x4000_0000_0000_0000) by (nonlinear_arith)
        requires
            -0x8000_0000 <= dt <= 0x7fff_ffff,
    ;
    let dt2: i64 = (dt as i64 * dt as i64) / (ONE as i64);
    Particle {
        id: p.id,
        pos: Vec2 {
            x: step(p.pos.x, p.point.last_pos.x, p.point.accel.x as i64, dt2),
            y: step(p.pos.y, p.point.last_pos.y, p.point.accel.y as i64 - GRAVITY as i64, dt2),
        },
        point: Point { accel: Vec2 { x: 0, y: 0 }, last_pos: p.pos, radius: p.point.radius },
    }
}

/// Applies the walls of `b` to one particle.
pub fn constrain(p: Particle, b: &Rect) -> (r: Particle)
    ensures
        r == constrained(p, *b),
{
    let rad: i64 = p.point.radius as i64 + PADDING as i64;
    let px: i64 = p.pos.x as i64;
    let py: i64 = p.pos.y as i64;
    let mut r = p;
    if px - rad <= b.left() {
        let dist = saturate((b.left() + rad) as i128);
        r.pos.x = dist;
        r.point.last_pos.x = dist;
    }
    if px + rad >= b.right() {
        let dist = saturate((b.right() - rad) as i128);
        r.pos.x = dist;
        r.point.last_pos.x = dist;
    }
    if py + rad >= b.top() {
        let dist = saturate((b.top() - rad) as i128);
        r.pos.y = dist;
        r.point.last_pos.y = dist;
    }
    if py - rad <= b.bottom() {
        let dist = saturate((b.bottom() + rad) as i128);
        r.pos.y = dist;
        r.point.last_pos.y = dist;
    }
    r
}

/// One frame's first half: empties the tree, advances every particle by a
/// step of length `dt`, and stores each at its new position. A particle
/// that has left the tree's rectangle is advanced and not stored.
pub fn move_points(store: &mut ParticleStore, tree: &mut QuadTree, dt: i32)
    requires
        old(store).wf(),
        old(tree).wf(),
    ensures
        final(store).wf(),
        final(store).index == old(store).index,
        final(tree).wf(),
        old(tree).same_frame(*final(tree)),
        same_ids(old(store)@, final(store)@),
        forall|i: int|
            0 <= i < old(store)@.len() ==> #[trigger] final(store)@[i] == integrated(
                old(store)@[i],
                dt,
            ),
        final(tree)@ == Shape::Leaf(Seq::empty()).insert_all(
            old(tree).bounds,
            old(tree).capacity as nat,
            old(tree).height as nat,
            placed(final(store)@),
        ),
        final(tree)@.tidy(old(tree).bounds),
        final(tree)@.items().to_multiset() == within(
            placed(final(store)@),
            old(tree).bounds,
        ).to_multiset(),
        knows(final(store)@, final(tree)@.items()),
{
    tree.clear();
    let n = store.len();
    let mut i: usize = 0;
    assert(placed(store@).take(0) =~= Seq::empty());
    while i < n
        invariant
            i <= n,
            n == store@.len(),
            n == old(store)@.len(),
            store.wf(),
            store.index == old(store).index,
            tree.wf(),
            old(tree).same_frame(*tree),
            forall|j: int| 0 <= j < i ==> #[trigger] store@[j] == integrated(old(store)@[j], dt),
            forall|j: int| i <= j < n ==> #[trigger] store@[j] == old(store)@[j],
            tree@ == Shape::Leaf(Seq::empty()).insert_all(
                tree.bounds,
                tree.capacity as nat,
                tree.height as nat,
                placed(store@).take(i as int),
            ),
        decreases n - i,
    {
        let ghost before = store@;
        let moved = integrate(store.get(i), dt);
        store.put(i, moved);
        tree.insert_point(moved.id, moved.pos);
        proof {
            assert(placed(store@).take(i as int) =~= placed(before).take(i as int));
            assert(placed(store@).take(i + 1).drop_last() =~= placed(store@).take(i as int));
            assert(placed(store@).take(i + 1).last() == (moved.id, moved.pos));
        }
        i += 1;
    }
    proof {
        assert(placed(store@).take(n as int) =~= placed(store@));
        lemma_insert_all_holds(
            placed(store@),
            tree.bounds,
            tree.capacity as nat,
            tree.height as nat,
        );
        lemma_placed_known(store@, tree.bounds, tree@.items());
    }
}

/// What holds the same items as the particles that lie in a rectangle
/// bears their identifiers.
pub proof fn lemma_placed_known(ps: Seq<Particle>, b: Rect, items: Seq<Item>)
    requires
        items.to_multiset() == within(placed(ps), b).to_multiset(),
    ensures
        knows(ps, items),
{
    broadcast use group_to_multiset_ensures;

    assert forall|k: int| 0 <= k < items.len() implies has_id(ps, (#[trigger] items[k]).0) by {
        let e = items[k];
        assert(items.contains(e));
        assert(within(placed(ps), b).to_multiset().count(e) > 0);
        assert(within(placed(ps), b).contains(e));
        lemma_within_contains(placed(ps), b, e);
        let i = choose|i: int| 0 <= i < placed(ps).len() && placed(ps)[i] == e;
        assert(ps[i].id == e.0);
    }
}

/// Applies the walls of the tree's rectangle to every particle.
pub fn apply_constraint(store: &mut ParticleStore, tree: &QuadTree)
    requires
        old(store).wf(),
    ensures
        final(store).wf(),
        final(store).index == old(store).index,
        same_ids(old(store)@, final(store)@),
        knows(old(store)@, tree@.items()) ==> knows(final(store)@, tree@.items()),
        forall|i: int|
            0 <= i < old(store)@.len() ==> #[trigger] final(store)@[i] == constrained(
                old(store)@[i],
                tree.bounds,
            ),
{
    let n = store.len();
    let mut i: usize = 0;
    while i < n
        invariant
            i <= n,
            n == store@.len(),
            n == old(store)@.len(),
            store.wf(),
            store.index == old(store).index,
            forall|j: int|
                0 <= j < i ==> #[trigger] store@[j] == constrained(old(store)@[j], tree.bounds),
            forall|j: int| i <= j < n ==> #[trigger] store@[j] == old(store)@[j],
        decreases n - i,
    {
        let held = constrain(store.get(i), &tree.bounds);
        store.put(i, held);
        i += 1;
    }
    proof {
        lemma_same_ids(old(store)@, store@);
    }
}

/// A particle that rests, with nothing pulling on it, stays where it is.
pub proof fn lemma_rest_stays(p: Particle, dt: i32)
    requires
        p.point.last_pos == p.pos,
        p.point.accel.x == 0,
        p.point.accel.y == GRAVITY,
    ensures
        integrated(p, dt).pos == p.pos,
{
    let dt2 = dt_squared(dt as int);
    assert((0 - 0 * DAMPING) * dt2 == 0) by (nonlinear_arith);
    assert(div_trunc(0, ONE as int) == 0);
    assert(step_axis(p.pos.x as int, p.pos.x as int, 0, dt2) == p.pos.x);
    assert(step_axis(p.pos.y as int, p.pos.y as int, 0, dt2) == p.pos.y);
}

/// After the walls were applied, a particle's rim, with the padding, lies
/// within the walls, if the room between them is wide enough for it.
pub proof fn lemma_constrained_inside(p: Particle, b: Rect)
    requires
        b.spec_fits(),
        0 <= p.point.radius + PADDING,
        2 * (p.point.radius + PADDING) <= b.size.x,
        2 * (p.point.radius + PADDING) <= b.size.y,
    ensures
        b.spec_left() + (p.point.radius + PADDING) <= constrained(p, b).pos.x <= b.spec_right() - (
        p.point.radius + PADDING),
        b.spec_bottom() + (p.point.radius + PADDING) <= constrained(p, b).pos.y <= b.spec_top() - (
        p.point.radius + PADDING),
{
}

/// A particle beyond a wall is set to where its rim, with the padding,
/// touches that wall, and its last position goes with it on that axis.
pub proof fn lemma_constrained_at_wall(p: Particle, b: Rect)
    requires
        b.spec_fits(),
        0 <= p.point.radius + PADDING,
        2 * (p.point.radius + PADDING) <= b.size.x,
        2 * (p.point.radius + PADDING) <= b.size.y,
    ensures
        p.pos.x < b.spec_left() ==> constrained(p, b).pos.x == b.spec_left() + p.point.radius
            + PADDING && constrained(p, b).point.last_pos.x == constrained(p, b).pos.x,
        p.pos.x > b.spec_right() ==> constrained(p, b).pos.x == b.spec_right() - p.point.radius
            - PADDING && constrained(p, b).point.last_pos.x == constrained(p, b).pos.x,
        p.pos.y > b.spec_top() ==> constrained(p, b).pos.y == b.spec_top() - p.point.radius
            - PADDING && constrained(p, b).point.last_pos.y == constrained(p, b).pos.y,
        p.pos.y < b.spec_bottom() ==> constrained(p, b).pos.y == b.spec_bottom() + p.point.radius
            + PADDING && constrained(p, b).point.last_pos.y == constrained(p, b).pos.y,
{
}

} // verus!
