//! The collision resolver: find close pairs through the tree, then push
//! each pair apart.
use vstd::prelude::*;
use vstd::seq_lib::group_to_multiset_ensures;
use crate::fixed::{
    clamp_coord, div_trunc, is_sqrt, isqrt, lemma_div_trunc_neg, lemma_sqrt_exists, quotient,
    saturate, sqrt_floor,
};
use crate::point::{
    Particle, ParticleStore, has_id, knows, lemma_same_ids, pairs_valid, same_ids, slot_of,
};
use crate::quadtree::QuadTree;
use crate::rect::Rect;
use crate::shape::{Item, Shape};
use crate::tree_laws::lemma_query_area_complete;
use crate::vec2::Vec2;

verus! {

/// Half the side of the square that is searched around a particle: ten
/// units.
pub const REACH: i32 = 655_360;

/// The distance below which two particles push each other apart:
/// twenty-one units, two radii and the padding.
pub const CONTACT: i32 = 1_376_256;

/// The square of [`CONTACT`].
pub const CONTACT_SQUARED: i64 = 1_894_080_577_536;

/// The squared distance up to which a neighbour is taken for a partner:
/// 421 square units.
pub const LOOSE_SQUARED: i64 = 1_808_181_231_616;

/// The squared distance below which two particles count as one place: a
/// ten-thousandth of a square unit.
pub const EPSILON_SQUARED: i64 = 429_496;

/// How often the resolver runs in a frame.
pub const PASSES: usize = 2;

/// The square that is searched around `a`.
pub open spec fn query_rect(a: Vec2) -> Rect {
    Rect {
        pos: Vec2 { x: clamp_coord(a.x - REACH), y: clamp_coord(a.y + REACH) },
        size: Vec2 { x: (2 * REACH) as i32, y: (2 * REACH) as i32 },
    }
}

/// The squared distance between two points.
pub open spec fn dist2(a: Vec2, b: Vec2) -> int {
    (a.x - b.x) * (a.x - b.x) + (a.y - b.y) * (a.y - b.y)
}

/// Whether `b` is close enough to `a` to be examined as a partner.
pub open spec fn near(a: Vec2, b: Vec2) -> bool {
    EPSILON_SQUARED < dist2(a, b) <= LOOSE_SQUARED
}

/// Whether two particles at `a` and `b` overlap.
pub open spec fn touching(a: Vec2, b: Vec2) -> bool {
    EPSILON_SQUARED < dist2(a, b) <= CONTACT_SQUARED
}

/// The pairs that the particle `id` at `a` forms with the candidates: one
/// for each candidate that is another particle and near, in their order.
pub open spec fn partners(id: u64, a: Vec2, cands: Seq<Item>) -> Seq<(u64, u64)>
    decreases cands.len(),
{
    if cands.len() == 0 {
        Seq::empty()
    } else {
        let rest = partners(id, a, cands.drop_last());
        let c = cands.last();
        if c.0 != id && near(a, c.1) {
            rest.push((id, c.0))
        } else {
            rest
        }
    }
}

/// The pairs of one pass: for each particle in turn, its partners among
/// what the tree holds around it. The tree's positions are those of its
/// last filling.
pub open spec fn broad_phase(ps: Seq<Particle>, tree: Shape, b: Rect) -> Seq<(u64, u64)>
    decreases ps.len(),
{
    if ps.len() == 0 {
        Seq::empty()
    } else {
        broad_phase(ps.drop_last(), tree, b) + partners(
            ps.last().id,
            ps.last().pos,
            tree.query_area(b, query_rect(ps.last().pos)),
        )
    }
}

/// By how much the particle at `a` is moved away from the one at `b`:
/// three eighths of the overlap, along the line through both.
pub open spec fn push_of(a: Vec2, b: Vec2) -> (int, int) {
    let dist = sqrt_floor(dist2(a, b));
    let delta = div_trunc(3 * (CONTACT - dist), 8);
    (div_trunc((a.x - b.x) * delta, dist), div_trunc((a.y - b.y) * delta, dist))
}

/// Two positions after their particles were pushed apart: each moved by
/// the same amount in opposite directions if they overlap, else unmoved.
pub open spec fn pushed(a: Vec2, b: Vec2) -> (Vec2, Vec2) {
    if touching(a, b) {
        let c = push_of(a, b);
        (
            Vec2 { x: clamp_coord(a.x + c.0), y: clamp_coord(a.y + c.1) },
            Vec2 { x: clamp_coord(b.x - c.0), y: clamp_coord(b.y - c.1) },
        )
    } else {
        (a, b)
    }
}

/// The particle `p` at another position.
pub open spec fn moved_to(p: Particle, pos: Vec2) -> Particle {
    Particle { id: p.id, pos, point: p.point }
}

/// The particles after one pair was resolved, from the positions they have
/// now.
pub open spec fn resolved(ps: Seq<Particle>, pair: (u64, u64)) -> Seq<Particle>
    recommends
        has_id(ps, pair.0),
        has_id(ps, pair.1),
        pair.0 != pair.1,
{
    let i = slot_of(ps, pair.0);
    let j = slot_of(ps, pair.1);
    let to = pushed(ps[i].pos, ps[j].pos);
    ps.update(i, moved_to(ps[i], to.0)).update(j, moved_to(ps[j], to.1))
}

/// The particles after each pair was resolved, one after the other.
pub open spec fn resolved_all(ps: Seq<Particle>, pairs: Seq<(u64, u64)>) -> Seq<Particle>
    decreases pairs.len(),
{
    if pairs.len() == 0 {
        ps
    } else {
        resolved(resolved_all(ps, pairs.drop_last()), pairs.last())
    }
}

/// The particles after one pass over the tree.
pub open spec fn collided(ps: Seq<Particle>, tree: Shape, b: Rect) -> Seq<Particle> {
    resolved_all(ps, broad_phase(ps, tree, b))
}

/// The particles after `n` passes over the same tree.
pub open spec fn collided_times(ps: Seq<Particle>, tree: Shape, b: Rect, n: nat) -> Seq<Particle>
    decreases n,
{
    if n == 0 {
        ps
    } else {
        collided(collided_times(ps, tree, b, (n - 1) as nat), tree, b)
    }
}

/// Computes [`query_rect`].
pub fn query_rect_of(a: Vec2) -> (r: Rect)
    ensures
        r == query_rect(a),
{
    Rect {
        pos: Vec2 {
            x: saturate(a.x as i128 - REACH as i128),
            y: saturate(a.y as i128 + REACH as i128),
        },
        size: Vec2 { x: 2 * REACH, y: 2 * REACH },
    }
}

/// Computes [`dist2`].
pub fn dist2_of(a: Vec2, b: Vec2) -> (d: i128)
    ensures
        d == dist2(a, b),
        0 <= d,
{
    let dx: i128 = a.x as i128 - b.x as i128;
    let dy: i128 = a.y as i128 - b.y as i128;
    assert(0 <= dx * dx <= 0x1_0000_0000_0000_0000) by (nonlinear_arith)
        requires
            -0x1_0000_0000 <= dx <= 0x1_0000_0000,
    ;
    assert(0 <= dy * dy <= 0x1_0000_0000_0000_0000) by (nonlinear_arith)
        requires
            -0x1_0000_0000 <= dy <= 0x1_0000_0000,
    ;
    dx * dx + dy * dy
}

/// Pushes two overlapping particles apart; see [`pushed`].
pub fn push_apart(a: Vec2, b: Vec2) -> (r: (Vec2, Vec2))
    ensures
        r == pushed(a, b),
{
    let d2 = dist2_of(a, b);
    if d2 <= CONTACT_SQUARED as i128 && d2 > EPSILON_SQUARED as i128 {
        let dist = isqrt(d2 as u64) as i128;
        assert(0 < dist <= CONTACT) by (nonlinear_arith)
            requires
                is_sqrt(d2 as int, dist as int),
                429_496 < d2 <= 1_894_080_577_536,
                CONTACT == 1_376_256,
        ;
        let delta: i128 = (3 * (CONTACT as i128 - dist)) / 8;
        let dx: i128 = a.x as i128 - b.x as i128;
        let dy: i128 = a.y as i128 - b.y as i128;
        assert(-0x1_0000_0000_0000_0000 <= dx * delta <= 0x1_0000_0000_0000_0000)
            by (nonlinear_arith)
            requires
                -0x1_0000_0000 <= dx <= 0x1_0000_0000,
                0 <= delta <= 0x1_0000_0000,
        ;
        assert(-0x1_0000_0000_0000_0000 <= dy * delta <= 0x1_0000_0000_0000_0000)
            by (nonlinear_arith)
            requires
                -0x1_0000_0000 <= dy <= 0x1_0000_0000,
                0 <= delta <= 0x1_0000_0000,
        ;
        let cx = quotient(dx * delta, dist);
        let cy = quotient(dy * delta, dist);
        (
            Vec2 { x: saturate(a.x as i128 + cx), y: saturate(a.y as i128 + cy) },
            Vec2 { x: saturate(b.x as i128 - cx), y: saturate(b.y as i128 - cy) },
        )
    } else {
        (a, b)
    }
}

/// Collects the pairs of one pass; see [`broad_phase`].
pub fn find_pairs(store: &ParticleStore, tree: &QuadTree) -> (pairs: Vec<(u64, u64)>)
    requires
        tree.wf(),
        knows(store@, tree@.items()),
    ensures
        pairs@ == broad_phase(store@, tree@, tree.bounds),
        pairs_valid(store@, pairs@),
{
    let mut pairs: Vec<(u64, u64)> = Vec::new();
    let n = store.len();
    let mut i: usize = 0;
    assert(store@.take(0) =~= Seq::empty());
    while i < n
        invariant
            i <= n,
            n == store@.len(),
            tree.wf(),
            knows(store@, tree@.items()),
            pairs_valid(store@, pairs@),
            pairs@ == broad_phase(store@.take(i as int), tree@, tree.bounds),
        decreases n - i,
    {
        let me = store.get(i);
        let cands = tree.query_area(&query_rect_of(me.pos));
        let ghost before = pairs@;
        let mut k: usize = 0;
        assert(cands@.take(0) =~= Seq::empty());
        while k < cands.len()
            invariant
                k <= cands.len(),
                me == store@[i as int],
                i < store@.len(),
                knows(store@, tree@.items()),
                cands@.to_multiset().subset_of(tree@.items().to_multiset()),
                pairs_valid(store@, pairs@),
                pairs@ == before + partners(me.id, me.pos, cands@.take(k as int)),
            decreases cands.len() - k,
        {
            let c = cands[k];
            assert(cands@.take(k + 1).drop_last() =~= cands@.take(k as int));
            if me.id != c.0 {
                let d2 = dist2_of(me.pos, c.1);
                if d2 <= LOOSE_SQUARED as i128 && d2 > EPSILON_SQUARED as i128 {
                    proof {
                        broadcast use group_to_multiset_ensures;

                        assert(cands@[k as int] == c);
                        assert(cands@.contains(c));
                        assert(tree@.items().to_multiset().count(c) > 0);
                        assert(tree@.items().contains(c));
                        let at = choose|at: int|
                            0 <= at < tree@.items().len() && tree@.items()[at] == c;
                        assert(has_id(store@, tree@.items()[at].0));
                    }
                    pairs.push((me.id, c.0));
                }
            }
            assert(pairs@ =~= before + partners(me.id, me.pos, cands@.take(k + 1)));
            k += 1;
        }
        proof {
            assert(cands@.take(cands.len() as int) =~= cands@);
            assert(store@.take(i + 1).drop_last() =~= store@.take(i as int));
            assert(store@.take(i + 1).last() == me);
        }
        i += 1;
    }
    assert(store@.take(n as int) =~= store@);
    pairs
}

/// Resolves one pair; see [`resolved`].
pub fn resolve_pair(store: &mut ParticleStore, a: u64, b: u64)
    requires
        old(store).wf(),
        has_id(old(store)@, a),
        has_id(old(store)@, b),
        a != b,
    ensures
        final(store).wf(),
        final(store).index == old(store).index,
        same_ids(old(store)@, final(store)@),
        final(store)@ == resolved(old(store)@, (a, b)),
{
    let i = store.find(a).unwrap();
    let j = store.find(b).unwrap();
    let pa = store.get(i);
    let pb = store.get(j);
    let to = push_apart(pa.pos, pb.pos);
    store.put(i, Particle { id: pa.id, pos: to.0, point: pa.point });
    store.put(j, Particle { id: pb.id, pos: to.1, point: pb.point });
}

/// Resolves the pairs one after the other; see [`resolved_all`].
pub fn resolve_pairs(store: &mut ParticleStore, pairs: &Vec<(u64, u64)>)
    requires
        old(store).wf(),
        pairs_valid(old(store)@, pairs@),
    ensures
        final(store).wf(),
        final(store).index == old(store).index,
        same_ids(old(store)@, final(store)@),
        final(store)@ == resolved_all(old(store)@, pairs@),
{
    let mut k: usize = 0;
    assert(pairs@.take(0) =~= Seq::empty());
    while k < pairs.len()
        invariant
            k <= pairs.len(),
            store.wf(),
            store.index == old(store).index,
            same_ids(old(store)@, store@),
            pairs_valid(store@, pairs@),
            store@ == resolved_all(old(store)@, pairs@.take(k as int)),
        decreases pairs.len() - k,
    {
        let pair = pairs[k];
        let ghost before = store@;
        resolve_pair(store, pair.0, pair.1);
        proof {
            lemma_same_ids(before, store@);
            assert(pairs@.take(k + 1).drop_last() =~= pairs@.take(k as int));
        }
        k += 1;
    }
    assert(pairs@.take(pairs.len() as int) =~= pairs@);
}

/// One pass of the resolver: the pairs are collected from the tree as it
/// stands, then resolved in their order. The tree may hold only particles
/// of the store.
pub fn collision_pass(store: &mut ParticleStore, tree: &QuadTree)
    requires
        old(store).wf(),
        tree.wf(),
        knows(old(store)@, tree@.items()),
    ensures
        final(store).wf(),
        final(store).index == old(store).index,
        same_ids(old(store)@, final(store)@),
        knows(final(store)@, tree@.items()),
        final(store)@ == collided(old(store)@, tree@, tree.bounds),
{
    let pairs = find_pairs(store, tree);
    resolve_pairs(store, &pairs);
    proof {
        lemma_same_ids(old(store)@, store@);
    }
}

/// Runs `passes` passes of the resolver over the same tree, which is not
/// refilled in between.
pub fn resolve_collisions(store: &mut ParticleStore, tree: &QuadTree, passes: usize)
    requires
        old(store).wf(),
        tree.wf(),
        knows(old(store)@, tree@.items()),
    ensures
        final(store).wf(),
        final(store).index == old(store).index,
        same_ids(old(store)@, final(store)@),
        knows(final(store)@, tree@.items()),
        final(store)@ == collided_times(old(store)@, tree@, tree.bounds, passes as nat),
{
    let mut pass: usize = 0;
    while pass < passes
        invariant
            pass <= passes,
            tree.wf(),
            store.wf(),
            store.index == old(store).index,
            same_ids(old(store)@, store@),
            knows(store@, tree@.items()),
            store@ == collided_times(old(store)@, tree@, tree.bounds, pass as nat),
        decreases passes - pass,
    {
        collision_pass(store, tree);
        pass += 1;
    }
}

/// The resolver of one frame: [`PASSES`] passes over the same tree.
pub fn point_collision(store: &mut ParticleStore, tree: &QuadTree)
    requires
        old(store).wf(),
        tree.wf(),
        knows(old(store)@, tree@.items()),
    ensures
        final(store).wf(),
        final(store).index == old(store).index,
        same_ids(old(store)@, final(store)@),
        knows(final(store)@, tree@.items()),
        final(store)@ == collided_times(old(store)@, tree@, tree.bounds, PASSES as nat),
{
    resolve_collisions(store, tree, PASSES);
}

/// The square searched around a particle holds the particle, unless it
/// lies at the rim of the representable range.
pub proof fn lemma_query_rect_holds_centre(a: Vec2)
    requires
        i32::MIN <= a.x - REACH,
        a.y + REACH <= i32::MAX,
    ensures
        query_rect(a).spec_contains(a),
{
}

/// The push keeps the middle between the two particles where it was,
/// unless a coordinate would leave the representable range.
pub proof fn lemma_push_keeps_midpoint(a: Vec2, b: Vec2)
    requires
        touching(a, b),
        i32::MIN <= a.x + push_of(a, b).0 <= i32::MAX,
        i32::MIN <= a.y + push_of(a, b).1 <= i32::MAX,
        i32::MIN <= b.x - push_of(a, b).0 <= i32::MAX,
        i32::MIN <= b.y - push_of(a, b).1 <= i32::MAX,
    ensures
        pushed(a, b).0.x + pushed(a, b).1.x == a.x + b.x,
        pushed(a, b).0.y + pushed(a, b).1.y == a.y + b.y,
{
}

/// Particles that do not overlap are not moved.
pub proof fn lemma_push_leaves_apart(a: Vec2, b: Vec2)
    requires
        !touching(a, b),
    ensures
        pushed(a, b) == (a, b),
{
}

/// The push is opposite for the two particles: asked from the other side,
/// it moves each of them to the same place.
pub proof fn lemma_push_symmetric(a: Vec2, b: Vec2)
    ensures
        dist2(b, a) == dist2(a, b),
        touching(b, a) == touching(a, b),
        touching(a, b) ==> push_of(b, a) == (-push_of(a, b).0, -push_of(a, b).1),
        pushed(b, a) == (pushed(a, b).1, pushed(a, b).0),
{
    let dx = a.x - b.x;
    let dy = a.y - b.y;
    assert((b.x - a.x) * (b.x - a.x) == dx * dx) by (nonlinear_arith)
        requires
            b.x - a.x == -dx,
    ;
    assert((b.y - a.y) * (b.y - a.y) == dy * dy) by (nonlinear_arith)
        requires
            b.y - a.y == -dy,
    ;
    if touching(a, b) {
        let dist = sqrt_floor(dist2(a, b));
        let delta = div_trunc(3 * (CONTACT - dist), 8);
        lemma_sqrt_exists(dist2(a, b));
        assert(dist > 0) by (nonlinear_arith)
            requires
                0 <= dist,
                dist2(a, b) > 0,
                dist2(a, b) < (dist + 1) * (dist + 1),
        ;
        assert((b.x - a.x) * delta == -(dx * delta)) by (nonlinear_arith)
            requires
                b.x - a.x == -dx,
        ;
        assert((b.y - a.y) * delta == -(dy * delta)) by (nonlinear_arith)
            requires
                b.y - a.y == -dy,
        ;
        lemma_div_trunc_neg(dx * delta, dist);
        lemma_div_trunc_neg(dy * delta, dist);
    }
}

/// The push never brings a pair closer together, unless a coordinate
/// would leave the representable range.
pub proof fn lemma_push_separates(a: Vec2, b: Vec2)
    requires
        touching(a, b),
        i32::MIN <= a.x + push_of(a, b).0 <= i32::MAX,
        i32::MIN <= a.y + push_of(a, b).1 <= i32::MAX,
        i32::MIN <= b.x - push_of(a, b).0 <= i32::MAX,
        i32::MIN <= b.y - push_of(a, b).1 <= i32::MAX,
    ensures
        dist2(pushed(a, b).0, pushed(a, b).1) >= dist2(a, b),
{
    let dx = a.x - b.x;
    let dy = a.y - b.y;
    let dist = sqrt_floor(dist2(a, b));
    let delta = div_trunc(3 * (CONTACT - dist), 8);
    let cx = push_of(a, b).0;
    let cy = push_of(a, b).1;
    lemma_sqrt_exists(dist2(a, b));
    assert(0 < dist <= CONTACT) by (nonlinear_arith)
        requires
            is_sqrt(dist2(a, b), dist),
            429_496 < dist2(a, b) <= 1_894_080_577_536,
            CONTACT == 1_376_256,
    ;
    assert(delta >= 0);
    assert(dx * cx >= 0) by (nonlinear_arith)
        requires
            delta >= 0,
            dist > 0,
            cx == if dx * delta >= 0 {
                (dx * delta) / dist
            } else {
                -((-(dx * delta)) / dist)
            },
    ;
    assert(dy * cy >= 0) by (nonlinear_arith)
        requires
            delta >= 0,
            dist > 0,
            cy == if dy * delta >= 0 {
                (dy * delta) / dist
            } else {
                -((-(dy * delta)) / dist)
            },
    ;
    assert((dx + 2 * cx) * (dx + 2 * cx) >= dx * dx) by (nonlinear_arith)
        requires
            dx * cx >= 0,
    ;
    assert((dy + 2 * cy) * (dy + 2 * cy) >= dy * dy) by (nonlinear_arith)
        requires
            dy * cy >= 0,
    ;
    let to = pushed(a, b);
    assert(to.0.x - to.1.x == dx + 2 * cx);
    assert(to.0.y - to.1.y == dy + 2 * cy);
}

/// Among the candidates, every other particle that is near is paired.
pub proof fn lemma_partners_finds(id: u64, a: Vec2, cands: Seq<Item>, c: Item)
    requires
        cands.contains(c),
        c.0 != id,
        near(a, c.1),
    ensures
        partners(id, a, cands).contains((id, c.0)),
    decreases cands.len(),
{
    let rest = partners(id, a, cands.drop_last());
    let i = choose|i: int| 0 <= i < cands.len() && cands[i] == c;
    if i == cands.len() - 1 {
        assert(rest.push((id, c.0)).last() == (id, c.0));
    } else {
        assert(cands.drop_last()[i] == c);
        lemma_partners_finds(id, a, cands.drop_last(), c);
        let j = choose|j: int| 0 <= j < rest.len() && rest[j] == (id, c.0);
        let last = cands.last();
        if last.0 != id && near(a, last.1) {
            assert(rest.push((id, last.0))[j] == (id, c.0));
        }
    }
}

/// The broad phase misses no neighbour: a particle is paired with every
/// other particle that the tree holds inside the square searched around
/// it and that is near.
pub proof fn lemma_broad_phase_finds(ps: Seq<Particle>, tree: Shape, b: Rect, i: int, c: Item)
    requires
        0 <= i < ps.len(),
        b.spec_fits(),
        tree.tidy(b),
        tree.items().contains(c),
        query_rect(ps[i].pos).spec_contains(c.1),
        c.0 != ps[i].id,
        near(ps[i].pos, c.1),
    ensures
        broad_phase(ps, tree, b).contains((ps[i].id, c.0)),
    decreases ps.len(),
{
    let head = broad_phase(ps.drop_last(), tree, b);
    let tail = partners(
        ps.last().id,
        ps.last().pos,
        tree.query_area(b, query_rect(ps.last().pos)),
    );
    if i == ps.len() - 1 {
        lemma_query_area_complete(tree, b, query_rect(ps[i].pos), c);
        lemma_partners_finds(
            ps[i].id,
            ps[i].pos,
            tree.query_area(b, query_rect(ps[i].pos)),
            c,
        );
        let j = choose|j: int| 0 <= j < tail.len() && tail[j] == (ps[i].id, c.0);
        assert((head + tail)[head.len() + j] == (ps[i].id, c.0));
    } else {
        assert(ps.drop_last()[i] == ps[i]);
        lemma_broad_phase_finds(ps.drop_last(), tree, b, i, c);
        let j = choose|j: int| 0 <= j < head.len() && head[j] == (ps[i].id, c.0);
        assert((head + tail)[j] == (ps[i].id, c.0));
    }
}

} // verus!
