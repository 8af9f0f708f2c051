//! Axis-aligned rectangles with half-open containment.
use vstd::prelude::*;
use crate::fixed::{ONE, div_trunc};
use crate::vec2::Vec2;

verus! {

/// An axis-aligned rectangle anchored at its top-left corner `pos` and
/// extending `size.x` to the right and `size.y` downward.
#[derive(Clone, Copy, Debug, PartialEq, Eq, Structural)]
pub struct Rect {
    pub pos: Vec2,
    pub size: Vec2,
}

impl Rect {
    pub open spec fn spec_left(&self) -> int {
        self.pos.x as int
    }

    pub open spec fn spec_right(&self) -> int {
        self.pos.x + self.size.x
    }

    pub open spec fn spec_top(&self) -> int {
        self.pos.y as int
    }

    pub open spec fn spec_bottom(&self) -> int {
        self.pos.y - self.size.y
    }

    /// Half of the size on each axis, rounded toward zero.
    pub open spec fn spec_half_size(&self) -> Vec2 {
        Vec2 {
            x: div_trunc(self.size.x as int, 2) as i32,
            y: div_trunc(self.size.y as int, 2) as i32,
        }
    }

    /// Whether `p` lies inside: the left and top edges belong to the
    /// rectangle, the right and bottom edges do not.
    pub open spec fn spec_contains(&self, p: Vec2) -> bool {
        &&& self.spec_left() <= p.x < self.spec_right()
        &&& self.spec_top() >= p.y > self.spec_bottom()
    }

    /// Whether the interiors of the two rectangles meet.
    pub open spec fn spec_overlaps(&self, r: &Rect) -> bool {
        &&& r.spec_left() < self.spec_right()
        &&& self.spec_left() < r.spec_right()
        &&& r.spec_top() > self.spec_bottom()
        &&& self.spec_top() > r.spec_bottom()
    }

    /// Whether the corner opposite to `pos` is itself a representable point.
    pub open spec fn spec_fits(&self) -> bool {
        &&& i32::MIN <= self.spec_right() <= i32::MAX
        &&& i32::MIN <= self.spec_bottom() <= i32::MAX
    }

    /// The `k`-th quarter of the rectangle: 0 shares its corner, 1 lies to the
    /// right of it, 2 below it, 3 diagonally opposite. The quarters to the
    /// right and below take what is left after halving, so a side of odd
    /// length loses nothing.
    pub open spec fn spec_quadrant(&self, k: int) -> Rect {
        let h = self.spec_half_size();
        let east = k == 1 || k == 3;
        let south = k == 2 || k == 3;
        Rect {
            pos: Vec2 {
                x: if east { (self.pos.x + h.x) as i32 } else { self.pos.x },
                y: if south { (self.pos.y - h.y) as i32 } else { self.pos.y },
            },
            size: Vec2 {
                x: if east { (self.size.x - h.x) as i32 } else { h.x },
                y: if south { (self.size.y - h.y) as i32 } else { h.y },
            },
        }
    }

    /// Whether every point of `self` is a point of `outer`.
    pub open spec fn spec_inside(&self, outer: &Rect) -> bool {
        forall|p: Vec2| #[trigger] self.spec_contains(p) ==> outer.spec_contains(p)
    }

    pub fn new(pos: Vec2, size: Vec2) -> (r: Rect)
        ensures
            r == (Rect { pos, size }),
    {
        Rect { pos, size }
    }

    pub fn left(&self) -> (v: i64)
        ensures
            v == self.spec_left(),
    {
        self.pos.x as i64
    }

    pub fn right(&self) -> (v: i64)
        ensures
            v == self.spec_right(),
    {
        self.pos.x as i64 + self.size.x as i64
    }

    pub fn top(&self) -> (v: i64)
        ensures
            v == self.spec_top(),
    {
        self.pos.y as i64
    }

    pub fn bottom(&self) -> (v: i64)
        ensures
            v == self.spec_bottom(),
    {
        self.pos.y as i64 - self.size.y as i64
    }

    #[verifier::when_used_as_spec(spec_half_size)]
    pub fn half_size(&self) -> (h: Vec2)
        ensures
            h == self.spec_half_size(),
    {
        Vec2 { x: self.size.x / 2, y: self.size.y / 2 }
    }

    #[verifier::when_used_as_spec(spec_contains)]
    pub fn contains(&self, p: Vec2) -> (inside: bool)
        ensures
            inside == self.spec_contains(p),
    {
        (self.left() <= p.x as i64 && (p.x as i64) < self.right()) && (self.top() >= p.y as i64
            && p.y as i64 > self.bottom())
    }

    #[verifier::when_used_as_spec(spec_overlaps)]
    pub fn overlaps(&self, r: &Rect) -> (meet: bool)
        ensures
            meet == self.spec_overlaps(r),
    {
        r.left() < self.right() && self.left() < r.right() && r.top() > self.bottom() && self.top()
            > r.bottom()
    }

    #[verifier::when_used_as_spec(spec_fits)]
    pub fn fits(&self) -> (ok: bool)
        ensures
            ok == self.spec_fits(),
    {
        let r = self.right();
        let b = self.bottom();
        -2147483648i64 <= r && r <= 2147483647i64 && -2147483648i64 <= b && b <= 2147483647i64
    }
    /// Computes [`Rect::spec_quadrant`].
    pub fn quadrant(&self, k: usize) -> (q: Rect)
        requires
            self.spec_fits(),
            k < 4,
        ensures
            q == self.spec_quadrant(k as int),
            q.spec_fits(),
    {
        let h = self.half_size();
        let east = k == 1 || k == 3;
        let south = k == 2 || k == 3;
        Rect {
            pos: Vec2 {
                x: if east { self.pos.x + h.x } else { self.pos.x },
                y: if south { self.pos.y - h.y } else { self.pos.y },
            },
            size: Vec2 {
                x: if east { self.size.x - h.x } else { h.x },
                y: if south { self.size.y - h.y } else { h.y },
            },
        }
    }

    /// Overlap does not depend on which rectangle is asked.
    pub proof fn lemma_overlaps_symmetric(a: Rect, b: Rect)
        ensures
            a.spec_overlaps(&b) == b.spec_overlaps(&a),
    {
    }

    /// Rectangles that only share a boundary line do not overlap.
    pub proof fn lemma_touching_do_not_overlap(a: Rect, b: Rect)
        requires
            a.spec_right() == b.spec_left() || a.spec_left() == b.spec_right() || a.spec_bottom()
                == b.spec_top() || a.spec_top() == b.spec_bottom(),
        ensures
            !a.spec_overlaps(&b),
    {
    }

    /// A rectangle that holds a point overlaps every rectangle that holds
    /// the same point.
    pub proof fn lemma_shared_point_overlaps(a: Rect, b: Rect, p: Vec2)
        requires
            a.spec_contains(p),
            b.spec_contains(p),
        ensures
            a.spec_overlaps(&b),
    {
    }

    /// The quarters of a rectangle that fits fit too.
    pub proof fn lemma_quadrants_fit(self)
        requires
            self.spec_fits(),
        ensures
            self.spec_quadrant(0).spec_fits(),
            self.spec_quadrant(1).spec_fits(),
            self.spec_quadrant(2).spec_fits(),
            self.spec_quadrant(3).spec_fits(),
    {
    }

    /// The four quarters tile the rectangle: a point lies in the rectangle
    /// exactly when it lies in one of the quarters, and never in two.
    pub proof fn lemma_quadrants_partition(self, p: Vec2)
        requires
            self.spec_fits(),
        ensures
            self.spec_contains(p) == (self.spec_quadrant(0).spec_contains(p)
                || self.spec_quadrant(1).spec_contains(p) || self.spec_quadrant(2).spec_contains(p)
                || self.spec_quadrant(3).spec_contains(p)),
            forall|j: int, k: int|
                0 <= j < k < 4 ==> !(self.spec_quadrant(j).spec_contains(p)
                    && self.spec_quadrant(k).spec_contains(p)),
            forall|k: int| 0 <= k < 4 ==> (#[trigger] self.spec_quadrant(k)).spec_fits(),
    {
    }
}

impl Default for Rect {
    /// The unit square hanging from the origin.
    fn default() -> (r: Rect)
        ensures
            r == (Rect { pos: Vec2 { x: 0, y: 0 }, size: Vec2 { x: ONE, y: ONE } }),
    {
        Rect { pos: Vec2 { x: 0, y: 0 }, size: Vec2 { x: ONE, y: ONE } }
    }
}

} // verus!
