//! The mathematical model of the tree: what a tree holds and where, as a
//! function of the rectangle it covers, its capacity and its depth.
use vstd::prelude::*;
use crate::rect::Rect;
use crate::vec2::Vec2;

verus! {

/// An identifier and the position it was inserted at.
pub type Item = (u64, Vec2);

/// The deepest level at which a node still subdivides.
pub const MAX_DEPTH: usize = 4;

/// The shape of a tree. A leaf holds its items in the order of their
/// arrival; a branch holds none and has four subtrees, one per quarter.
pub enum Shape {
    Leaf(Seq<Item>),
    Branch(Box<Shape>, Box<Shape>, Box<Shape>, Box<Shape>),
}

/// The items of `es` whose position lies in `b`, in their order.
pub open spec fn within(es: Seq<Item>, b: Rect) -> Seq<Item>
    decreases es.len(),
{
    if es.len() == 0 {
        Seq::empty()
    } else {
        let rest = within(es.drop_last(), b);
        if b.spec_contains(es.last().1) {
            rest.push(es.last())
        } else {
            rest
        }
    }
}

/// Whether every item of `es` lies in `b`.
pub open spec fn all_within(es: Seq<Item>, b: Rect) -> bool {
    forall|i: int| 0 <= i < es.len() ==> b.spec_contains((#[trigger] es[i]).1)
}

/// How many more levels may open below a node of depth `h`.
pub open spec fn budget(h: nat) -> nat {
    if h <= MAX_DEPTH {
        (MAX_DEPTH + 1 - h) as nat
    } else {
        0
    }
}

/// Whether a leaf of depth `h` that has just grown to `n` items subdivides.
pub open spec fn overfull(n: nat, cap: nat, h: nat) -> bool {
    n >= cap && h <= MAX_DEPTH
}

/// The tree that grows when the items of `es` are inserted, in their order,
/// into an empty leaf that covers `b`.
pub open spec fn built(es: Seq<Item>, b: Rect, cap: nat, h: nat) -> Shape
    decreases 2 * budget(h),
{
    let mine = within(es, b);
    if mine.len() > 0 && overfull(mine.len(), cap, h) {
        split(mine, b, cap, h)
    } else {
        Shape::Leaf(mine)
    }
}

/// The branch that a node covering `b` becomes when it subdivides while
/// holding `es`: each quarter grows from the items that lie in it.
pub open spec fn split(es: Seq<Item>, b: Rect, cap: nat, h: nat) -> Shape
    decreases 2 * budget(h + 1) + 1,
{
    Shape::Branch(
        Box::new(built(es, b.spec_quadrant(0), cap, h + 1)),
        Box::new(built(es, b.spec_quadrant(1), cap, h + 1)),
        Box::new(built(es, b.spec_quadrant(2), cap, h + 1)),
        Box::new(built(es, b.spec_quadrant(3), cap, h + 1)),
    )
}

impl Shape {
    /// Everything held in the tree: the leaves' items, quarter by quarter.
    pub open spec fn items(self) -> Seq<Item>
        decreases self,
    {
        match self {
            Shape::Leaf(es) => es,
            Shape::Branch(a, b, c, d) => a.items() + b.items() + c.items() + d.items(),
        }
    }

    /// Whether every item lies in the rectangle of the leaf that holds it,
    /// for a tree that covers `b`.
    pub open spec fn tidy(self, b: Rect) -> bool
        decreases self,
    {
        match self {
            Shape::Leaf(es) => all_within(es, b),
            Shape::Branch(q0, q1, q2, q3) => {
                &&& q0.tidy(b.spec_quadrant(0))
                &&& q1.tidy(b.spec_quadrant(1))
                &&& q2.tidy(b.spec_quadrant(2))
                &&& q3.tidy(b.spec_quadrant(3))
            },
        }
    }

    /// The tree after the insertion of `e`. A point outside `b` changes
    /// nothing. A leaf takes the item and subdivides when that fills it; a
    /// branch hands the item down.
    pub open spec fn insert(self, b: Rect, cap: nat, h: nat, e: Item) -> Shape
        decreases self, 1int,
    {
        if !b.spec_contains(e.1) {
            self
        } else {
            match self {
                Shape::Leaf(es) => if overfull(es.push(e).len(), cap, h) {
                    split(es.push(e), b, cap, h)
                } else {
                    Shape::Leaf(es.push(e))
                },
                Shape::Branch(..) => self.route(b, cap, h, e),
            }
        }
    }

    /// A branch after `e` went to the first quarter that holds its
    /// position; a leaf, or a branch none of whose quarters holds it, is
    /// left as it is.
    pub open spec fn route(self, b: Rect, cap: nat, h: nat, e: Item) -> Shape
        decreases self, 0int,
    {
        match self {
            Shape::Leaf(_) => self,
            Shape::Branch(q0, q1, q2, q3) => if b.spec_quadrant(0).spec_contains(e.1) {
                Shape::Branch(Box::new(q0.insert(b.spec_quadrant(0), cap, h + 1, e)), q1, q2, q3)
            } else if b.spec_quadrant(1).spec_contains(e.1) {
                Shape::Branch(q0, Box::new(q1.insert(b.spec_quadrant(1), cap, h + 1, e)), q2, q3)
            } else if b.spec_quadrant(2).spec_contains(e.1) {
                Shape::Branch(q0, q1, Box::new(q2.insert(b.spec_quadrant(2), cap, h + 1, e)), q3)
            } else if b.spec_quadrant(3).spec_contains(e.1) {
                Shape::Branch(q0, q1, q2, Box::new(q3.insert(b.spec_quadrant(3), cap, h + 1, e)))
            } else {
                self
            },
        }
    }

    /// The tree after an item was offered with the rectangle `r` in place
    /// of a point. Nothing changes unless `r` overlaps `b`. A leaf then
    /// stores the rectangle's corner, whether or not the corner lies in
    /// `b`, and subdivides when that fills it. A branch stores nothing; one
    /// of capacity zero subdivides anew and so loses what it held.
    pub open spec fn insert_corner(self, b: Rect, cap: nat, h: nat, id: u64, r: Rect) -> Shape {
        if !b.spec_overlaps(&r) {
            self
        } else {
            match self {
                Shape::Leaf(es) => if overfull(es.push((id, r.pos)).len(), cap, h) {
                    split(es.push((id, r.pos)), b, cap, h)
                } else {
                    Shape::Leaf(es.push((id, r.pos)))
                },
                Shape::Branch(..) => if overfull(0, cap, h) {
                    split(Seq::empty(), b, cap, h)
                } else {
                    self
                },
            }
        }
    }

    /// The tree after the insertion of each item of `es`, in their order.
    pub open spec fn insert_all(self, b: Rect, cap: nat, h: nat, es: Seq<Item>) -> Shape
        decreases es.len(),
    {
        if es.len() == 0 {
            self
        } else {
            self.insert_all(b, cap, h, es.drop_last()).insert(b, cap, h, es.last())
        }
    }

    /// The items of the leaf whose rectangle holds `p`; none when `p` lies
    /// outside `b`.
    pub open spec fn query(self, b: Rect, p: Vec2) -> Seq<Item>
        decreases self,
    {
        if !b.spec_contains(p) {
            Seq::empty()
        } else {
            match self {
                Shape::Leaf(es) => es,
                Shape::Branch(q0, q1, q2, q3) => if b.spec_quadrant(0).spec_contains(p) {
                    q0.query(b.spec_quadrant(0), p)
                } else if b.spec_quadrant(1).spec_contains(p) {
                    q1.query(b.spec_quadrant(1), p)
                } else if b.spec_quadrant(2).spec_contains(p) {
                    q2.query(b.spec_quadrant(2), p)
                } else {
                    q3.query(b.spec_quadrant(3), p)
                },
            }
        }
    }

    /// The items of every leaf whose rectangle overlaps `r`, quarter by
    /// quarter.
    pub open spec fn query_area(self, b: Rect, r: Rect) -> Seq<Item>
        decreases self,
    {
        if !b.spec_overlaps(&r) {
            Seq::empty()
        } else {
            match self {
                Shape::Leaf(es) => es,
                Shape::Branch(q0, q1, q2, q3) => q0.query_area(b.spec_quadrant(0), r)
                    + q1.query_area(b.spec_quadrant(1), r) + q2.query_area(b.spec_quadrant(2), r)
                    + q3.query_area(b.spec_quadrant(3), r),
            }
        }
    }
}

/// Filtering after appending an item appends it when it passes.
pub proof fn lemma_within_push(es: Seq<Item>, b: Rect, e: Item)
    ensures
        within(es.push(e), b) == if b.spec_contains(e.1) {
            within(es, b).push(e)
        } else {
            within(es, b)
        },
{
    assert(es.push(e).drop_last() =~= es);
}

/// What passed the filter lies in the rectangle, and passes it again.
pub proof fn lemma_within_all_within(es: Seq<Item>, b: Rect)
    ensures
        all_within(within(es, b), b),
        within(es, b).len() <= es.len(),
        all_within(es, b) ==> within(es, b) == es,
    decreases es.len(),
{
    if es.len() > 0 {
        lemma_within_all_within(es.drop_last(), b);
        if all_within(es, b) {
            assert(all_within(es.drop_last(), b));
            assert(es.drop_last().push(es.last()) =~= es);
        }
    } else {
        assert(within(es, b) =~= es);
    }
}

/// What passed the filter was in the sequence.
pub proof fn lemma_within_contains(es: Seq<Item>, b: Rect, e: Item)
    requires
        within(es, b).contains(e),
    ensures
        es.contains(e),
        b.spec_contains(e.1),
    decreases es.len(),
{
    if es.len() > 0 {
        let rest = within(es.drop_last(), b);
        if b.spec_contains(es.last().1) && e == es.last() {
            assert(es[es.len() - 1] == e);
        } else {
            if b.spec_contains(es.last().1) {
                let i = choose|i: int| 0 <= i < rest.push(es.last()).len() && rest.push(
                    es.last(),
                )[i] == e;
                assert(rest[i] == e);
            }
            lemma_within_contains(es.drop_last(), b, e);
            let j = choose|j: int| 0 <= j < es.drop_last().len() && es.drop_last()[j] == e;
            assert(es[j] == e);
        }
    }
}

/// A tree grown from a sequence depends on it only through the items that
/// lie in its rectangle.
pub proof fn lemma_built_skips(es: Seq<Item>, b: Rect, cap: nat, h: nat, e: Item)
    requires
        !b.spec_contains(e.1),
    ensures
        built(es.push(e), b, cap, h) == built(es, b, cap, h),
{
    lemma_within_push(es, b, e);
}

/// Inserting into a grown tree gives the tree grown from the longer
/// sequence.
pub proof fn lemma_built_insert(es: Seq<Item>, b: Rect, cap: nat, h: nat, e: Item)
    requires
        b.spec_fits(),
    ensures
        built(es, b, cap, h).insert(b, cap, h, e) == built(es.push(e), b, cap, h),
    decreases 2 * budget(h),
{
    lemma_within_push(es, b, e);
    let mine = within(es, b);
    if b.spec_contains(e.1) && mine.len() > 0 && overfull(mine.len(), cap, h) {
        lemma_split_route(mine, b, cap, h, e);
    }
}

/// Handing an item down a branch whose quarters were grown from `es` gives
/// the branch whose quarters are grown from `es` and the item.
pub proof fn lemma_split_route(es: Seq<Item>, b: Rect, cap: nat, h: nat, e: Item)
    requires
        b.spec_fits(),
    ensures
        split(es, b, cap, h).route(b, cap, h, e) == split(es.push(e), b, cap, h),
    decreases 2 * budget(h + 1) + 1,
{
    b.lemma_quadrants_partition(e.1);
    let q0 = b.spec_quadrant(0);
    let q1 = b.spec_quadrant(1);
    let q2 = b.spec_quadrant(2);
    let q3 = b.spec_quadrant(3);
    if q0.spec_contains(e.1) {
        lemma_built_insert(es, q0, cap, h + 1, e);
    } else {
        lemma_built_skips(es, q0, cap, h + 1, e);
    }
    if q1.spec_contains(e.1) {
        lemma_built_insert(es, q1, cap, h + 1, e);
    } else {
        lemma_built_skips(es, q1, cap, h + 1, e);
    }
    if q2.spec_contains(e.1) {
        lemma_built_insert(es, q2, cap, h + 1, e);
    } else {
        lemma_built_skips(es, q2, cap, h + 1, e);
    }
    if q3.spec_contains(e.1) {
        lemma_built_insert(es, q3, cap, h + 1, e);
    } else {
        lemma_built_skips(es, q3, cap, h + 1, e);
    }
}

/// Inserting a sequence of items into an empty leaf, one after the other,
/// grows the tree that the sequence determines: the structure depends on
/// the items and their order alone.
pub proof fn lemma_insert_all_is_built(es: Seq<Item>, b: Rect, cap: nat, h: nat)
    requires
        b.spec_fits(),
    ensures
        Shape::Leaf(Seq::empty()).insert_all(b, cap, h, es) == built(es, b, cap, h),
    decreases es.len(),
{
    if es.len() == 0 {
        assert(within(es, b) =~= Seq::empty());
    } else {
        lemma_insert_all_is_built(es.drop_last(), b, cap, h);
        lemma_built_insert(es.drop_last(), b, cap, h, es.last());
        assert(es.drop_last().push(es.last()) =~= es);
    }
}

} // verus!
