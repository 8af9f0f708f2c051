//! The quadtree: a four-way spatial index over identified points.
use vstd::prelude::*;
use crate::rect::Rect;
use crate::shape::{Item, Shape, MAX_DEPTH, all_within, lemma_split_route, split};
use crate::tree_laws::{
    lemma_insert_holds, lemma_query_area_full, lemma_query_area_sound, lemma_split_holds,
};
use crate::fixed::{clamp_coord, div_trunc, saturate};
use crate::vec2::Vec2;

verus! {

/// A copy of `v`.
fn copy_items(v: &Vec<Item>) -> (r: Vec<Item>)
    ensures
        r@ == v@,
{
    let mut r: Vec<Item> = Vec::new();
    let mut i: usize = 0;
    while i < v.len()
        invariant
            i <= v.len(),
            r@ == v@.take(i as int),
        decreases v.len() - i,
    {
        r.push(v[i]);
        assert(v@.take(i as int).push(v@[i as int]) =~= v@.take(i + 1));
        i += 1;
    }
    assert(v@.take(v.len() as int) =~= v@);
    r
}

/// The four subtrees of a node, created together. `q0` covers the quarter
/// that shares the node's corner, `q1` the one to its right, `q2` the one
/// below it and `q3` the one diagonally opposite.
#[derive(Debug)]
pub struct Quads {
    pub q0: QuadTree,
    pub q1: QuadTree,
    pub q2: QuadTree,
    pub q3: QuadTree,
}

/// A node of the tree, and with it the subtree below.
///
/// A node that is not `divided` is a leaf and holds its items in
/// `elements`. A divided node holds none and hands every item down to
/// `quads`. A leaf may keep the subtrees it had before it was cleared; they
/// are then empty throughout.
#[derive(Debug)]
pub struct QuadTree {
    pub quads: Option<Box<Quads>>,
    pub height: usize,
    pub bounds: Rect,
    pub capacity: usize,
    pub elements: Vec<Item>,
    pub divided: bool,
}

/// What one node says of itself in a dump of the tree.
#[derive(Clone, Copy, Debug, PartialEq, Eq, Structural)]
pub struct NodeReport {
    pub height: usize,
    pub count: usize,
    pub pos: Vec2,
    pub size: Vec2,
}

/// The middle of `b`, with halves rounded toward zero.
pub open spec fn centre(b: Rect) -> Vec2 {
    Vec2 {
        x: clamp_coord(b.pos.x + div_trunc(b.size.x as int, 2)),
        y: clamp_coord(b.pos.y - div_trunc(b.size.y as int, 2)),
    }
}

impl View for QuadTree {
    type V = Shape;

    /// The shape of the tree. Subtrees kept below a leaf are no part of it.
    open spec fn view(&self) -> Shape {
        self.shape()
    }
}

impl QuadTree {
    pub open spec fn shape(self) -> Shape
        decreases self,
    {
        match self.quads {
            Some(q) if self.divided => Shape::Branch(
                Box::new(q.q0.shape()),
                Box::new(q.q1.shape()),
                Box::new(q.q2.shape()),
                Box::new(q.q3.shape()),
            ),
            _ => Shape::Leaf(self.elements@),
        }
    }

    /// Whether the node and everything kept below it is an empty leaf.
    pub open spec fn blank(self) -> bool
        decreases self,
    {
        &&& !self.divided
        &&& self.elements@.len() == 0
        &&& match self.quads {
            Some(q) => q.q0.blank() && q.q1.blank() && q.q2.blank() && q.q3.blank(),
            None => true,
        }
    }

    /// The invariant of the tree: the rectangle's far corner is
    /// representable; a divided node has subtrees and no items of its own;
    /// subtrees cover the four quarters, lie one level deeper and share the
    /// capacity; below a leaf they are blank.
    pub open spec fn wf(self) -> bool
        decreases self,
    {
        &&& self.bounds.spec_fits()
        &&& self.divided ==> self.quads.is_some() && self.elements@.len() == 0
        &&& match self.quads {
            Some(q) => {
                &&& q.q0.wf() && q.q1.wf() && q.q2.wf() && q.q3.wf()
                &&& q.q0.bounds == self.bounds.spec_quadrant(0)
                &&& q.q1.bounds == self.bounds.spec_quadrant(1)
                &&& q.q2.bounds == self.bounds.spec_quadrant(2)
                &&& q.q3.bounds == self.bounds.spec_quadrant(3)
                &&& q.q0.height == self.height + 1 && q.q1.height == self.height + 1
                &&& q.q2.height == self.height + 1 && q.q3.height == self.height + 1
                &&& q.q0.capacity == self.capacity && q.q1.capacity == self.capacity
                &&& q.q2.capacity == self.capacity && q.q3.capacity == self.capacity
                &&& !self.divided ==> q.q0.blank() && q.q1.blank() && q.q2.blank() && q.q3.blank()
            },
            None => true,
        }
    }

    /// Whether `t` is `self` but for what it holds.
    pub open spec fn same_frame(self, t: QuadTree) -> bool {
        &&& t.bounds == self.bounds
        &&& t.capacity == self.capacity
        &&& t.height == self.height
    }

    /// Whether `t` has the nodes of `self`, each with its rectangle, capacity
    /// and depth, whatever they hold.
    pub open spec fn same_skeleton(self, t: QuadTree) -> bool
        decreases self,
    {
        &&& self.same_frame(t)
        &&& match (self.quads, t.quads) {
            (Some(p), Some(q)) => {
                &&& p.q0.same_skeleton(q.q0)
                &&& p.q1.same_skeleton(q.q1)
                &&& p.q2.same_skeleton(q.q2)
                &&& p.q3.same_skeleton(q.q3)
            },
            (None, None) => true,
            _ => false,
        }
    }

    /// An empty root over the rectangle at `pos` of size `size`.
    pub fn new(pos: Vec2, size: Vec2, capacity: usize) -> (t: QuadTree)
        requires
            (Rect { pos, size }).spec_fits(),
        ensures
            t.wf(),
            t@ == Shape::Leaf(Seq::empty()),
            t.bounds == (Rect { pos, size }),
            t.capacity == capacity,
            t.height == 0,
            !t.divided,
            t.quads.is_none(),
    {
        QuadTree {
            quads: None,
            height: 0,
            bounds: Rect::new(pos, size),
            capacity,
            elements: Vec::new(),
            divided: false,
        }
    }

    /// An empty node at depth `height`.
    pub fn new_branch(bounds: Rect, capacity: usize, height: usize) -> (t: QuadTree)
        requires
            bounds.spec_fits(),
        ensures
            t.wf(),
            t.blank(),
            t@ == Shape::Leaf(Seq::empty()),
            t.bounds == bounds,
            t.capacity == capacity,
            t.height == height,
            t.quads.is_none(),
    {
        QuadTree { quads: None, height, bounds, capacity, elements: Vec::new(), divided: false }
    }

    /// Stores `id` at `point`. Returns whether the point lies in the tree's
    /// rectangle; if not, nothing changes.
    pub fn insert_point(&mut self, id: u64, point: Vec2) -> (ok: bool)
        requires
            old(self).wf(),
        ensures
            final(self).wf(),
            old(self).same_frame(*final(self)),
            ok == old(self).bounds.spec_contains(point),
            final(self)@ == old(self)@.insert(
                old(self).bounds,
                old(self).capacity as nat,
                old(self).height as nat,
                (id, point),
            ),
            !ok ==> *final(self) == *old(self),
            old(self)@.tidy(old(self).bounds) ==> final(self)@.tidy(old(self).bounds),
            old(self)@.tidy(old(self).bounds) && ok ==> final(self)@.items().to_multiset()
                == old(self)@.items().to_multiset().insert((id, point)),
        decreases usize::MAX - old(self).height, 2int,
    {
        proof {
            if self@.tidy(self.bounds) {
                lemma_insert_holds(
                    self@,
                    self.bounds,
                    self.capacity as nat,
                    self.height as nat,
                    (id, point),
                );
            }
        }
        if !self.bounds.contains(point) {
            return false;
        }
        if !self.divided {
            self.elements.push((id, point));
        } else {
            return self.route(id, point);
        }
        if self.elements.len() >= self.capacity && self.height <= MAX_DEPTH {
            self.subdivide();
        }
        true
    }

    /// Hands an item down to the quarter that holds its position.
    fn route(&mut self, id: u64, point: Vec2) -> (ok: bool)
        requires
            old(self).wf(),
            old(self).divided,
            old(self).bounds.spec_contains(point),
        ensures
            final(self).wf(),
            final(self).divided,
            old(self).same_frame(*final(self)),
            ok,
            final(self)@ == old(self)@.route(
                old(self).bounds,
                old(self).capacity as nat,
                old(self).height as nat,
                (id, point),
            ),
        decreases usize::MAX - old(self).height, 0int,
    {
        proof {
            self.bounds.lemma_quadrants_partition(point);
        }
        match self.quads.as_mut() {
            None => false,
            Some(q) => q.q0.insert_point(id, point) || q.q1.insert_point(id, point)
                || q.q2.insert_point(id, point) || q.q3.insert_point(id, point),
        }
    }

    /// Turns the node into a branch over four new leaves and hands its
    /// items down to them, in their order. An item whose position lies
    /// outside the node's rectangle is dropped.
    pub fn subdivide(&mut self)
        requires
            old(self).wf(),
            old(self).height < usize::MAX,
        ensures
            final(self).wf(),
            final(self).divided,
            old(self).same_frame(*final(self)),
            final(self)@ == split(
                old(self).elements@,
                old(self).bounds,
                old(self).capacity as nat,
                old(self).height as nat,
            ),
            final(self)@.tidy(old(self).bounds),
            all_within(old(self).elements@, old(self).bounds)
                ==> final(self)@.items().to_multiset() == old(self).elements@.to_multiset(),
        decreases usize::MAX - old(self).height, 1int,
    {
        proof {
            lemma_split_holds(
                self.elements@,
                self.bounds,
                self.capacity as nat,
                self.height as nat,
            );
        }
        self.divided = true;
        let below = self.height + 1;
        self.quads = Some(
            Box::new(
                Quads {
                    q0: QuadTree::new_branch(self.bounds.quadrant(0), self.capacity, below),
                    q1: QuadTree::new_branch(self.bounds.quadrant(1), self.capacity, below),
                    q2: QuadTree::new_branch(self.bounds.quadrant(2), self.capacity, below),
                    q3: QuadTree::new_branch(self.bounds.quadrant(3), self.capacity, below),
                },
            ),
        );
        let mut moved: Vec<Item> = Vec::new();
        std::mem::swap(&mut self.elements, &mut moved);
        let ghost b = self.bounds;
        let ghost cap = self.capacity as nat;
        let ghost h = self.height as nat;
        let mut i: usize = 0;
        assert(moved@.take(0) =~= Seq::empty());
        while i < moved.len()
            invariant
                i <= moved.len(),
                moved@ == old(self).elements@,
                self.wf(),
                self.divided,
                old(self).same_frame(*self),
                b == self.bounds,
                cap == self.capacity,
                h == self.height,
                self@ == split(moved@.take(i as int), b, cap, h),
            decreases moved.len() - i,
        {
            let (id, point) = moved[i];
            proof {
                lemma_split_route(moved@.take(i as int), b, cap, h, (id, point));
                assert(moved@.take(i as int).push((id, point)) =~= moved@.take(i + 1));
                b.lemma_quadrants_partition(point);
            }
            if self.bounds.contains(point) {
                self.route(id, point);
            }
            i += 1;
        }
        assert(moved@.take(moved.len() as int) =~= moved@);
    }

    /// Offers `id` with a rectangle in place of a point. Returns whether
    /// the rectangle overlaps the tree's; see [`Shape::insert_corner`] for
    /// what is stored.
    pub fn insert(&mut self, id: u64, rect: &Rect) -> (ok: bool)
        requires
            old(self).wf(),
        ensures
            final(self).wf(),
            old(self).same_frame(*final(self)),
            ok == old(self).bounds.spec_overlaps(rect),
            !ok ==> *final(self) == *old(self),
            final(self)@ == old(self)@.insert_corner(
                old(self).bounds,
                old(self).capacity as nat,
                old(self).height as nat,
                id,
                *rect,
            ),
    {
        if !self.bounds.overlaps(rect) {
            return false;
        }
        if !self.divided {
            self.elements.push((id, rect.pos));
        }
        if self.elements.len() >= self.capacity && self.height <= MAX_DEPTH {
            self.subdivide();
        }
        true
    }

    /// The items of the leaf whose rectangle holds `point`, or nothing when
    /// the point lies outside the tree.
    pub fn query(&self, point: Vec2) -> (found: Vec<Item>)
        requires
            self.wf(),
        ensures
            found@ == self@.query(self.bounds, point),
        decreases self,
    {
        if !self.bounds.contains(point) {
            return Vec::new();
        }
        if !self.divided {
            return copy_items(&self.elements);
        }
        proof {
            self.bounds.lemma_quadrants_partition(point);
        }
        match self.quads.as_ref() {
            None => Vec::new(),
            Some(q) => {
                let r0 = q.q0.query(point);
                if !r0.is_empty() {
                    return r0;
                }
                let r1 = q.q1.query(point);
                if !r1.is_empty() {
                    return r1;
                }
                let r2 = q.q2.query(point);
                if !r2.is_empty() {
                    return r2;
                }
                let r3 = q.q3.query(point);
                if !r3.is_empty() {
                    return r3;
                }
                assert(self@.query(self.bounds, point) =~= Seq::empty());
                Vec::new()
            },
        }
    }

    /// The items of every leaf whose rectangle overlaps `rect`.
    pub fn query_area(&self, rect: &Rect) -> (found: Vec<Item>)
        requires
            self.wf(),
        ensures
            found@ == self@.query_area(self.bounds, *rect),
            found@.to_multiset().subset_of(self@.items().to_multiset()),
            self@.tidy(self.bounds) && self.bounds.spec_inside(rect) ==> found@ == self@.items(),
        decreases self,
    {
        proof {
            lemma_query_area_sound(self@, self.bounds, *rect);
            if self@.tidy(self.bounds) && self.bounds.spec_inside(rect) {
                lemma_query_area_full(self@, self.bounds, *rect);
            }
        }
        if !self.bounds.overlaps(rect) {
            return Vec::new();
        }
        let mut elements = copy_items(&self.elements);
        match self.quads.as_ref() {
            None => {},
            Some(q) => {
                let mut r0 = q.q0.query_area(rect);
                elements.append(&mut r0);
                let mut r1 = q.q1.query_area(rect);
                elements.append(&mut r1);
                let mut r2 = q.q2.query_area(rect);
                elements.append(&mut r2);
                let mut r3 = q.q3.query_area(rect);
                elements.append(&mut r3);
                assert(elements@ =~= self@.query_area(self.bounds, *rect));
            },
        }
        elements
    }

    /// The reports of the node and of every node kept below it, a node
    /// before its subtrees.
    pub open spec fn reports(self) -> Seq<NodeReport>
        decreases self,
    {
        seq![
            NodeReport {
                height: self.height,
                count: self.elements@.len() as usize,
                pos: self.bounds.pos,
                size: self.bounds.size,
            },
        ] + match self.quads {
            Some(q) => q.q0.reports() + q.q1.reports() + q.q2.reports() + q.q3.reports(),
            None => Seq::empty(),
        }
    }

    /// The centre and size of every undivided node, those kept below a
    /// leaf included, a node before its subtrees.
    pub open spec fn outlines(self) -> Seq<(Vec2, Vec2)>
        decreases self,
    {
        (if self.divided {
            Seq::empty()
        } else {
            seq![(centre(self.bounds), self.bounds.size)]
        }) + match self.quads {
            Some(q) => q.q0.outlines() + q.q1.outlines() + q.q2.outlines() + q.q3.outlines(),
            None => Seq::empty(),
        }
    }

    /// Dumps the tree; see [`QuadTree::reports`].
    pub fn tree_report(&self) -> (lines: Vec<NodeReport>)
        ensures
            lines@ == self.reports(),
        decreases self,
    {
        let mut lines: Vec<NodeReport> = Vec::new();
        lines.push(
            NodeReport {
                height: self.height,
                count: self.elements.len(),
                pos: self.bounds.pos,
                size: self.bounds.size,
            },
        );
        match self.quads.as_ref() {
            None => {},
            Some(q) => {
                let mut r0 = q.q0.tree_report();
                lines.append(&mut r0);
                let mut r1 = q.q1.tree_report();
                lines.append(&mut r1);
                let mut r2 = q.q2.tree_report();
                lines.append(&mut r2);
                let mut r3 = q.q3.tree_report();
                lines.append(&mut r3);
            },
        }
        assert(lines@ =~= self.reports());
        lines
    }

    /// The rectangles to draw; see [`QuadTree::outlines`].
    pub fn quad_rects(&self) -> (rects: Vec<(Vec2, Vec2)>)
        ensures
            rects@ == self.outlines(),
        decreases self,
    {
        let mut rects: Vec<(Vec2, Vec2)> = Vec::new();
        if !self.divided {
            let half = self.bounds.half_size();
            let pos = Vec2 {
                x: saturate(self.bounds.pos.x as i128 + half.x as i128),
                y: saturate(self.bounds.pos.y as i128 - half.y as i128),
            };
            rects.push((pos, self.bounds.size));
        }
        match self.quads.as_ref() {
            None => {},
            Some(q) => {
                let mut r0 = q.q0.quad_rects();
                rects.append(&mut r0);
                let mut r1 = q.q1.quad_rects();
                rects.append(&mut r1);
                let mut r2 = q.q2.quad_rects();
                rects.append(&mut r2);
                let mut r3 = q.q3.quad_rects();
                rects.append(&mut r3);
            },
        }
        assert(rects@ =~= self.outlines());
        rects
    }

    /// Empties the node and every subtree kept below it. The subtrees stay
    /// allocated: every node is afterwards an empty leaf where it was.
    pub fn clear(&mut self)
        requires
            old(self).wf(),
        ensures
            final(self).wf(),
            final(self).blank(),
            old(self).same_skeleton(*final(self)),
            final(self)@ == Shape::Leaf(Seq::empty()),
        decreases *old(self),
    {
        self.divided = false;
        self.elements.clear();
        match self.quads.as_mut() {
            None => {},
            Some(q) => {
                q.q0.clear();
                q.q1.clear();
                q.q2.clear();
                q.q3.clear();
            },
        }
    }
}

} // verus!
