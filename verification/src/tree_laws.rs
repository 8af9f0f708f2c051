//! What holds of every tree: nothing is lost, nothing is doubled, and an
//! area query finds what lies in its rectangle.
use vstd::prelude::*;
use vstd::seq_lib::{group_to_multiset_ensures, lemma_multiset_commutative};
use crate::rect::Rect;
use crate::shape::{
    Item, Shape, all_within, budget, built, lemma_insert_all_is_built, lemma_within_all_within,
    overfull, split, within,
};

verus! {

/// A branch holds what its four subtrees hold.
pub proof fn lemma_branch_items(q0: Shape, q1: Shape, q2: Shape, q3: Shape)
    ensures
        Shape::Branch(Box::new(q0), Box::new(q1), Box::new(q2), Box::new(q3)).items().to_multiset()
            == q0.items().to_multiset().add(q1.items().to_multiset()).add(
            q2.items().to_multiset(),
        ).add(q3.items().to_multiset()),
{
    lemma_multiset_commutative(q0.items(), q1.items());
    lemma_multiset_commutative(q0.items() + q1.items(), q2.items());
    lemma_multiset_commutative(q0.items() + q1.items() + q2.items(), q3.items());
}

/// The items in a rectangle are the items in its four quarters, each
/// counted once.
pub proof fn lemma_quarters_share(es: Seq<Item>, b: Rect)
    requires
        b.spec_fits(),
    ensures
        within(es, b).to_multiset() == within(es, b.spec_quadrant(0)).to_multiset().add(
            within(es, b.spec_quadrant(1)).to_multiset(),
        ).add(within(es, b.spec_quadrant(2)).to_multiset()).add(
            within(es, b.spec_quadrant(3)).to_multiset(),
        ),
    decreases es.len(),
{
    broadcast use group_to_multiset_ensures;

    let m0 = within(es, b.spec_quadrant(0)).to_multiset();
    let m1 = within(es, b.spec_quadrant(1)).to_multiset();
    let m2 = within(es, b.spec_quadrant(2)).to_multiset();
    let m3 = within(es, b.spec_quadrant(3)).to_multiset();
    if es.len() == 0 {
        assert(within(es, b).to_multiset() =~= m0.add(m1).add(m2).add(m3));
    } else {
        let init = es.drop_last();
        let e = es.last();
        lemma_quarters_share(init, b);
        b.lemma_quadrants_partition(e.1);
        assert(within(es, b).to_multiset() =~= m0.add(m1).add(m2).add(m3));
    }
}

/// A grown tree is tidy and holds exactly the items of the sequence that
/// lie in its rectangle.
pub proof fn lemma_built_holds(es: Seq<Item>, b: Rect, cap: nat, h: nat)
    requires
        b.spec_fits(),
    ensures
        built(es, b, cap, h).tidy(b),
        built(es, b, cap, h).items().to_multiset() == within(es, b).to_multiset(),
    decreases 2 * budget(h),
{
    let mine = within(es, b);
    lemma_within_all_within(es, b);
    if mine.len() > 0 && overfull(mine.len(), cap, h) {
        lemma_split_holds(mine, b, cap, h);
        lemma_within_all_within(mine, b);
    }
}

/// Subdivision loses and doubles nothing: the new branch is tidy and holds
/// exactly the items that lie in its rectangle, each in the subtree of the
/// quarter that its position lies in.
pub proof fn lemma_split_holds(es: Seq<Item>, b: Rect, cap: nat, h: nat)
    requires
        b.spec_fits(),
    ensures
        split(es, b, cap, h).tidy(b),
        split(es, b, cap, h).items().to_multiset() == within(es, b).to_multiset(),
        all_within(es, b) ==> split(es, b, cap, h).items().to_multiset() == es.to_multiset(),
        forall|k: int|
            0 <= k < 4 ==> (#[trigger] built(es, b.spec_quadrant(k), cap, h + 1)).items().to_multiset()
                == within(es, b.spec_quadrant(k)).to_multiset(),
    decreases 2 * budget(h + 1) + 1,
{
    b.lemma_quadrants_fit();
    lemma_built_holds(es, b.spec_quadrant(0), cap, h + 1);
    lemma_built_holds(es, b.spec_quadrant(1), cap, h + 1);
    lemma_built_holds(es, b.spec_quadrant(2), cap, h + 1);
    lemma_built_holds(es, b.spec_quadrant(3), cap, h + 1);
    lemma_branch_items(
        built(es, b.spec_quadrant(0), cap, h + 1),
        built(es, b.spec_quadrant(1), cap, h + 1),
        built(es, b.spec_quadrant(2), cap, h + 1),
        built(es, b.spec_quadrant(3), cap, h + 1),
    );
    lemma_quarters_share(es, b);
    lemma_within_all_within(es, b);
}

/// Insertion keeps a tree tidy and adds exactly the new item, once, when
/// its position lies in the tree's rectangle; otherwise it changes nothing.
pub proof fn lemma_insert_holds(s: Shape, b: Rect, cap: nat, h: nat, e: Item)
    requires
        b.spec_fits(),
        s.tidy(b),
    ensures
        s.insert(b, cap, h, e).tidy(b),
        b.spec_contains(e.1) ==> s.insert(b, cap, h, e).items().to_multiset()
            == s.items().to_multiset().insert(e),
        !b.spec_contains(e.1) ==> s.insert(b, cap, h, e) == s,
    decreases s,
{
    broadcast use group_to_multiset_ensures;

    if b.spec_contains(e.1) {
        match s {
            Shape::Leaf(es) => {
                let more = es.push(e);
                assert(all_within(more, b));
                if overfull(more.len(), cap, h) {
                    lemma_split_holds(more, b, cap, h);
                }
            },
            Shape::Branch(q0, q1, q2, q3) => {
                b.lemma_quadrants_partition(e.1);
                b.lemma_quadrants_fit();
                lemma_branch_items(*q0, *q1, *q2, *q3);
                if b.spec_quadrant(0).spec_contains(e.1) {
                    let n = q0.insert(b.spec_quadrant(0), cap, h + 1, e);
                    lemma_insert_holds(*q0, b.spec_quadrant(0), cap, h + 1, e);
                    lemma_branch_items(n, *q1, *q2, *q3);
                    assert(s.insert(b, cap, h, e).items().to_multiset()
                        =~= s.items().to_multiset().insert(e));
                } else if b.spec_quadrant(1).spec_contains(e.1) {
                    let n = q1.insert(b.spec_quadrant(1), cap, h + 1, e);
                    lemma_insert_holds(*q1, b.spec_quadrant(1), cap, h + 1, e);
                    lemma_branch_items(*q0, n, *q2, *q3);
                    assert(s.insert(b, cap, h, e).items().to_multiset()
                        =~= s.items().to_multiset().insert(e));
                } else if b.spec_quadrant(2).spec_contains(e.1) {
                    let n = q2.insert(b.spec_quadrant(2), cap, h + 1, e);
                    lemma_insert_holds(*q2, b.spec_quadrant(2), cap, h + 1, e);
                    lemma_branch_items(*q0, *q1, n, *q3);
                    assert(s.insert(b, cap, h, e).items().to_multiset()
                        =~= s.items().to_multiset().insert(e));
                } else {
                    let n = q3.insert(b.spec_quadrant(3), cap, h + 1, e);
                    lemma_insert_holds(*q3, b.spec_quadrant(3), cap, h + 1, e);
                    lemma_branch_items(*q0, *q1, *q2, n);
                    assert(s.insert(b, cap, h, e).items().to_multiset()
                        =~= s.items().to_multiset().insert(e));
                }
            },
        }
    }
}

/// After any number of insertions into an empty tree, the tree holds
/// exactly the items whose position lay in its rectangle: no point that
/// was accepted is lost, and none is held twice.
pub proof fn lemma_insert_all_holds(es: Seq<Item>, b: Rect, cap: nat, h: nat)
    requires
        b.spec_fits(),
    ensures
        Shape::Leaf(Seq::empty()).insert_all(b, cap, h, es).tidy(b),
        Shape::Leaf(Seq::empty()).insert_all(b, cap, h, es).items().to_multiset() == within(
            es,
            b,
        ).to_multiset(),
        all_within(es, b) ==> Shape::Leaf(Seq::empty()).insert_all(
            b,
            cap,
            h,
            es,
        ).items().to_multiset() == es.to_multiset(),
{
    lemma_insert_all_is_built(es, b, cap, h);
    lemma_built_holds(es, b, cap, h);
    lemma_within_all_within(es, b);
}

/// In a tidy tree every item lies in the tree's rectangle.
pub proof fn lemma_tidy_items(s: Shape, b: Rect)
    requires
        b.spec_fits(),
        s.tidy(b),
    ensures
        all_within(s.items(), b),
    decreases s,
{
    match s {
        Shape::Leaf(es) => {},
        Shape::Branch(q0, q1, q2, q3) => {
            b.lemma_quadrants_fit();
            lemma_tidy_items(*q0, b.spec_quadrant(0));
            lemma_tidy_items(*q1, b.spec_quadrant(1));
            lemma_tidy_items(*q2, b.spec_quadrant(2));
            lemma_tidy_items(*q3, b.spec_quadrant(3));
            assert forall|i: int| 0 <= i < s.items().len() implies b.spec_contains(
                (#[trigger] s.items()[i]).1,
            ) by {
                b.lemma_quadrants_partition(s.items()[i].1);
                let n0 = q0.items().len();
                let n1 = q1.items().len();
                let n2 = q2.items().len();
                if i < n0 {
                    assert(s.items()[i] == q0.items()[i]);
                } else if i < n0 + n1 {
                    assert(s.items()[i] == q1.items()[i - n0]);
                } else if i < n0 + n1 + n2 {
                    assert(s.items()[i] == q2.items()[i - n0 - n1]);
                } else {
                    assert(s.items()[i] == q3.items()[i - n0 - n1 - n2]);
                }
            }
        },
    }
}

/// A query over a rectangle that covers the tree's returns everything the
/// tree holds.
pub proof fn lemma_query_area_full(s: Shape, b: Rect, r: Rect)
    requires
        b.spec_fits(),
        s.tidy(b),
        b.spec_inside(&r),
    ensures
        s.query_area(b, r) == s.items(),
    decreases s,
{
    lemma_tidy_items(s, b);
    if s.items().len() > 0 {
        let p = s.items()[0].1;
        assert(b.spec_contains(p));
        Rect::lemma_shared_point_overlaps(b, r, p);
    }
    match s {
        Shape::Leaf(es) => {
            assert(s.query_area(b, r) =~= es);
        },
        Shape::Branch(q0, q1, q2, q3) => {
            b.lemma_quadrants_fit();
            assert forall|k: int| 0 <= k < 4 implies (#[trigger] b.spec_quadrant(k)).spec_inside(
                &r,
            ) by {
                assert forall|p: crate::vec2::Vec2| #[trigger]
                    b.spec_quadrant(k).spec_contains(p) implies r.spec_contains(p) by {
                    b.lemma_quadrants_partition(p);
                }
            }
            lemma_query_area_full(*q0, b.spec_quadrant(0), r);
            lemma_query_area_full(*q1, b.spec_quadrant(1), r);
            lemma_query_area_full(*q2, b.spec_quadrant(2), r);
            lemma_query_area_full(*q3, b.spec_quadrant(3), r);
            assert(s.query_area(b, r) =~= s.items());
        },
    }
}

/// An area query finds every item whose position lies in the queried
/// rectangle, whichever leaf holds it.
pub proof fn lemma_query_area_complete(s: Shape, b: Rect, r: Rect, e: Item)
    requires
        b.spec_fits(),
        s.tidy(b),
        s.items().contains(e),
        r.spec_contains(e.1),
    ensures
        s.query_area(b, r).contains(e),
    decreases s,
{
    lemma_tidy_items(s, b);
    assert(b.spec_contains(e.1));
    Rect::lemma_shared_point_overlaps(b, r, e.1);
    match s {
        Shape::Leaf(es) => {},
        Shape::Branch(q0, q1, q2, q3) => {
            b.lemma_quadrants_fit();
            let i = choose|i: int| 0 <= i < s.items().len() && s.items()[i] == e;
            let n0 = q0.items().len();
            let n1 = q1.items().len();
            let n2 = q2.items().len();
            let a0 = q0.query_area(b.spec_quadrant(0), r);
            let a1 = q1.query_area(b.spec_quadrant(1), r);
            let a2 = q2.query_area(b.spec_quadrant(2), r);
            let a3 = q3.query_area(b.spec_quadrant(3), r);
            if i < n0 {
                assert(q0.items()[i] == e);
                lemma_query_area_complete(*q0, b.spec_quadrant(0), r, e);
                let j = choose|j: int| 0 <= j < a0.len() && a0[j] == e;
                assert((a0 + a1 + a2 + a3)[j] == e);
            } else if i < n0 + n1 {
                assert(q1.items()[i - n0] == e);
                lemma_query_area_complete(*q1, b.spec_quadrant(1), r, e);
                let j = choose|j: int| 0 <= j < a1.len() && a1[j] == e;
                assert((a0 + a1 + a2 + a3)[a0.len() + j] == e);
            } else if i < n0 + n1 + n2 {
                assert(q2.items()[i - n0 - n1] == e);
                lemma_query_area_complete(*q2, b.spec_quadrant(2), r, e);
                let j = choose|j: int| 0 <= j < a2.len() && a2[j] == e;
                assert((a0 + a1 + a2 + a3)[a0.len() + a1.len() + j] == e);
            } else {
                assert(q3.items()[i - n0 - n1 - n2] == e);
                lemma_query_area_complete(*q3, b.spec_quadrant(3), r, e);
                let j = choose|j: int| 0 <= j < a3.len() && a3[j] == e;
                assert((a0 + a1 + a2 + a3)[a0.len() + a1.len() + a2.len() + j] == e);
            }
        },
    }
}

/// A point query at the position of an item that the tree holds finds the
/// item.
pub proof fn lemma_query_finds(s: Shape, b: Rect, e: Item)
    requires
        b.spec_fits(),
        s.tidy(b),
        s.items().contains(e),
    ensures
        s.query(b, e.1).contains(e),
    decreases s,
{
    lemma_tidy_items(s, b);
    assert(b.spec_contains(e.1));
    match s {
        Shape::Leaf(es) => {},
        Shape::Branch(q0, q1, q2, q3) => {
            b.lemma_quadrants_fit();
            b.lemma_quadrants_partition(e.1);
            let i = choose|i: int| 0 <= i < s.items().len() && s.items()[i] == e;
            let n0 = q0.items().len();
            let n1 = q1.items().len();
            let n2 = q2.items().len();
            if i < n0 {
                assert(q0.items()[i] == e);
                lemma_tidy_items(*q0, b.spec_quadrant(0));
                lemma_query_finds(*q0, b.spec_quadrant(0), e);
            } else if i < n0 + n1 {
                assert(q1.items()[i - n0] == e);
                lemma_tidy_items(*q1, b.spec_quadrant(1));
                lemma_query_finds(*q1, b.spec_quadrant(1), e);
            } else if i < n0 + n1 + n2 {
                assert(q2.items()[i - n0 - n1] == e);
                lemma_tidy_items(*q2, b.spec_quadrant(2));
                lemma_query_finds(*q2, b.spec_quadrant(2), e);
            } else {
                assert(q3.items()[i - n0 - n1 - n2] == e);
                lemma_tidy_items(*q3, b.spec_quadrant(3));
                lemma_query_finds(*q3, b.spec_quadrant(3), e);
            }
        },
    }
}

/// An area query returns nothing that the tree does not hold, and nothing
/// more often than the tree holds it.
pub proof fn lemma_query_area_sound(s: Shape, b: Rect, r: Rect)
    ensures
        s.query_area(b, r).to_multiset().subset_of(s.items().to_multiset()),
    decreases s,
{
    broadcast use group_to_multiset_ensures;

    match s {
        Shape::Leaf(es) => {
            if !b.spec_overlaps(&r) {
                assert(s.query_area(b, r).to_multiset() =~= vstd::multiset::Multiset::empty());
            }
        },
        Shape::Branch(q0, q1, q2, q3) => {
            if !b.spec_overlaps(&r) {
                assert(s.query_area(b, r).to_multiset() =~= vstd::multiset::Multiset::empty());
            } else {
                let a0 = q0.query_area(b.spec_quadrant(0), r);
                let a1 = q1.query_area(b.spec_quadrant(1), r);
                let a2 = q2.query_area(b.spec_quadrant(2), r);
                let a3 = q3.query_area(b.spec_quadrant(3), r);
                lemma_query_area_sound(*q0, b.spec_quadrant(0), r);
                lemma_query_area_sound(*q1, b.spec_quadrant(1), r);
                lemma_query_area_sound(*q2, b.spec_quadrant(2), r);
                lemma_query_area_sound(*q3, b.spec_quadrant(3), r);
                lemma_branch_items(*q0, *q1, *q2, *q3);
                lemma_multiset_commutative(a0, a1);
                lemma_multiset_commutative(a0 + a1, a2);
                lemma_multiset_commutative(a0 + a1 + a2, a3);
            }
        },
    }
}

/// A tree that was cleared answers every area query with nothing, and
/// filling it again grows the tree that the same items grow in a new one.
pub proof fn lemma_cleared_is_new(es: Seq<Item>, b: Rect, cap: nat, h: nat, r: Rect)
    requires
        b.spec_fits(),
    ensures
        Shape::Leaf(Seq::empty()).query_area(b, r) == Seq::<Item>::empty(),
        Shape::Leaf(Seq::empty()).insert_all(b, cap, h, es) == built(es, b, cap, h),
{
    lemma_insert_all_is_built(es, b, cap, h);
}

} // verus!
