//! Particles and the store that keeps them by identifier.
use std::collections::HashMap;
use vstd::prelude::*;
use vstd::std_specs::hash::group_hash_axioms;
use crate::shape::Item;
use crate::vec2::Vec2;

verus! {

/// The radius that a new particle gets: ten units.
pub const RADIUS: i32 = 655_360;

/// What a particle carries besides its position.
#[derive(Clone, Copy, Debug, PartialEq, Eq, Structural)]
pub struct Point {
    /// The acceleration gathered for the next step.
    pub accel: Vec2,
    /// The position before the last step.
    pub last_pos: Vec2,
    pub radius: i32,
}

impl Point {
    /// A particle state with the given pending acceleration.
    pub fn new(accel: Vec2) -> (p: Point)
        ensures
            p == (Point { accel, last_pos: Vec2::zero(), radius: RADIUS }),
    {
        Point { accel, last_pos: Vec2 { x: 0, y: 0 }, radius: RADIUS }
    }
}

/// A particle: its identifier, where it is, and its state.
#[derive(Clone, Copy, Debug, PartialEq, Eq, Structural)]
pub struct Particle {
    pub id: u64,
    pub pos: Vec2,
    pub point: Point,
}

/// Whether some particle of `ps` has the identifier `id`.
pub open spec fn has_id(ps: Seq<Particle>, id: u64) -> bool {
    exists|i: int| 0 <= i < ps.len() && (#[trigger] ps[i]).id == id
}

/// The place in `ps` of a particle with the identifier `id`.
pub open spec fn slot_of(ps: Seq<Particle>, id: u64) -> int {
    choose|i: int| 0 <= i < ps.len() && (#[trigger] ps[i]).id == id
}

/// Whether no two particles of `ps` share an identifier.
pub open spec fn distinct_ids(ps: Seq<Particle>) -> bool {
    forall|i: int, j: int|
        0 <= i < ps.len() && 0 <= j < ps.len() && (#[trigger] ps[i]).id == (#[trigger] ps[j]).id
            ==> i == j
}

/// Whether `qs` has the particles of `ps`, each in its place and under its
/// identifier, whatever else changed.
pub open spec fn same_ids(ps: Seq<Particle>, qs: Seq<Particle>) -> bool {
    &&& ps.len() == qs.len()
    &&& forall|i: int| 0 <= i < ps.len() ==> (#[trigger] qs[i]).id == ps[i].id
}

/// Whether each of `items` bears the identifier of a particle of `ps`.
pub open spec fn knows(ps: Seq<Particle>, items: Seq<Item>) -> bool {
    forall|k: int| 0 <= k < items.len() ==> has_id(ps, (#[trigger] items[k]).0)
}

/// Whether each pair names two particles of `ps`, and not one twice.
pub open spec fn pairs_valid(ps: Seq<Particle>, pairs: Seq<(u64, u64)>) -> bool {
    forall|k: int|
        0 <= k < pairs.len() ==> has_id(ps, (#[trigger] pairs[k]).0) && has_id(ps, pairs[k].1)
            && pairs[k].0 != pairs[k].1
}

/// Particles that keep their identifiers keep what is known of them.
pub proof fn lemma_same_ids(ps: Seq<Particle>, qs: Seq<Particle>)
    requires
        same_ids(ps, qs),
    ensures
        forall|id: u64| has_id(qs, id) == has_id(ps, id),
        forall|items: Seq<Item>| knows(ps, items) ==> knows(qs, items),
        forall|pairs: Seq<(u64, u64)>| pairs_valid(ps, pairs) ==> pairs_valid(qs, pairs),
{
    assert forall|id: u64| has_id(qs, id) == has_id(ps, id) by {
        if has_id(ps, id) {
            let i = choose|i: int| 0 <= i < ps.len() && (#[trigger] ps[i]).id == id;
            assert(qs[i].id == id);
        }
        if has_id(qs, id) {
            let i = choose|i: int| 0 <= i < qs.len() && (#[trigger] qs[i]).id == id;
            assert(ps[i].id == id);
        }
    }
}

/// The particles of a simulation, in a fixed order, with an index from
/// identifier to place.
pub struct ParticleStore {
    pub particles: Vec<Particle>,
    pub index: HashMap<u64, usize>,
}

impl View for ParticleStore {
    type V = Seq<Particle>;

    open spec fn view(&self) -> Seq<Particle> {
        self.particles@
    }
}

impl ParticleStore {
    /// The invariant of the store: the index maps each particle's
    /// identifier to its place, and nothing else.
    pub open spec fn wf(&self) -> bool {
        &&& forall|i: int|
            0 <= i < self.particles@.len() ==> self.index@.contains_key(
                (#[trigger] self.particles@[i]).id,
            ) && self.index@[self.particles@[i].id] == i
        &&& forall|id: u64| #[trigger]
            self.index@.contains_key(id) ==> self.index@[id] < self.particles@.len()
                && self.particles@[self.index@[id] as int].id == id
    }

    /// In a valid store identifiers are distinct, and the index finds
    /// exactly the particles that are there.
    pub proof fn lemma_index(&self, id: u64)
        requires
            self.wf(),
        ensures
            distinct_ids(self@),
            has_id(self@, id) == self.index@.contains_key(id),
            has_id(self@, id) ==> slot_of(self@, id) == self.index@[id],
    {
        if self.index@.contains_key(id) {
            assert(self@[self.index@[id] as int].id == id);
        }
    }

    /// An empty store.
    pub fn new() -> (s: ParticleStore)
        ensures
            s.wf(),
            s@ == Seq::<Particle>::empty(),
    {
        ParticleStore { particles: Vec::new(), index: HashMap::new() }
    }

    /// Adds a particle at the end, unless its identifier is taken.
    pub fn add(&mut self, p: Particle) -> (ok: bool)
        requires
            old(self).wf(),
        ensures
            final(self).wf(),
            ok == !has_id(old(self)@, p.id),
            ok ==> final(self)@ == old(self)@.push(p),
            !ok ==> final(self)@ == old(self)@,
    {
        broadcast use group_hash_axioms;

        proof {
            self.lemma_index(p.id);
        }
        if self.index.contains_key(&p.id) {
            return false;
        }
        let at = self.particles.len();
        self.index.insert(p.id, at);
        self.particles.push(p);
        assert forall|id: u64| #[trigger] self.index@.contains_key(id) implies self.index@[id]
            < self.particles@.len() && self.particles@[self.index@[id] as int].id == id by {
            if id != p.id {
                assert(old(self).index@.contains_key(id));
            }
        }
        true
    }

    /// The number of particles.
    pub fn len(&self) -> (n: usize)
        ensures
            n == self@.len(),
    {
        self.particles.len()
    }

    /// The particle at place `i`.
    pub fn get(&self, i: usize) -> (p: Particle)
        requires
            i < self@.len(),
        ensures
            p == self@[i as int],
    {
        self.particles[i]
    }

    /// The place of the particle with the identifier `id`.
    pub fn find(&self, id: u64) -> (at: Option<usize>)
        requires
            self.wf(),
        ensures
            at.is_some() == has_id(self@, id),
            at matches Some(i) ==> i == slot_of(self@, id) && i < self@.len() && self@[i as int].id
                == id,
    {
        broadcast use group_hash_axioms;

        proof {
            self.lemma_index(id);
        }
        match self.index.get(&id) {
            Some(i) => Some(*i),
            None => None,
        }
    }

    /// Replaces the particle at place `i` by `p`, which keeps its
    /// identifier.
    pub fn put(&mut self, i: usize, p: Particle)
        requires
            old(self).wf(),
            i < old(self)@.len(),
            p.id == old(self)@[i as int].id,
        ensures
            final(self).wf(),
            final(self)@ == old(self)@.update(i as int, p),
            final(self).index == old(self).index,
    {
        self.particles.set(i, p);
        assert forall|j: int| 0 <= j < self.particles@.len() implies self.index@.contains_key(
            (#[trigger] self.particles@[j]).id,
        ) && self.index@[self.particles@[j].id] == j by {
            assert(old(self).particles@[j].id == self.particles@[j].id);
        }
        assert forall|id: u64| #[trigger] self.index@.contains_key(id) implies self.index@[id]
            < self.particles@.len() && self.particles@[self.index@[id] as int].id == id by {
            assert(old(self).particles@[old(self).index@[id] as int].id == id);
        }
    }
}

} // verus!
