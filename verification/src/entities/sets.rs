use vstd::prelude::*;
use vstd::std_specs::btree::increasing_seq;
use vstd::std_specs::cmp::OrdSpec;
use vstd::laws_cmp::obeys_cmp;
use vstd::std_specs::iter::IteratorSpec;
use std::collections::BTreeSet;
use crate::entities::defs::{Definitions, SetId, MAX_SETS, id_range};
use crate::entities::id::{EntityId, Ids, CAPACITY, swept_to, killed_in, slot_after_kills, next_dead_generation};

verus! {

broadcast use vstd::std_specs::btree::group_btree_axioms, vstd::laws_cmp::group_laws_cmp;

/// A membership key, ordered as (set, slot, generation).
pub type SetKey = (u16, u16, u16);

pub open spec fn set_key(set: u16, entity: EntityId) -> SetKey {
    (set, entity.idx(), entity.gen())
}

/// `a` sorts before `b`: by slot, then generation.
pub open spec fn id_before(a: EntityId, b: EntityId) -> bool {
    a.idx() < b.idx() || (a.idx() == b.idx() && a.gen() < b.gen())
}

/// Ids in strictly increasing (slot, generation) order.
pub open spec fn ids_ascending(s: Seq<EntityId>) -> bool {
    forall|i: int, j: int| 0 <= i < j < s.len() ==> id_before(#[trigger] s[i], #[trigger] s[j])
}

/// Lexicographic order on keys.
pub open spec fn key_before(a: SetKey, b: SetKey) -> bool {
    a.0 < b.0 || (a.0 == b.0 && (a.1 < b.1 || (a.1 == b.1 && a.2 < b.2)))
}

/// In the iteration order of an ordered set, earlier keys sort first.
proof fn lemma_ascending_keys(s: Seq<&SetKey>, i: int, j: int)
    requires
        increasing_seq(s),
        0 <= i < j < s.len(),
    ensures
        key_before(*s[i], *s[j]),
{
    broadcast use vstd::laws_cmp::group_laws_cmp;

    assert(obeys_cmp::<u16>());
    assert(obeys_cmp::<SetKey>());
    assert(obeys_cmp::<&SetKey>());
    vstd::std_specs::btree::axiom_increasing_seq_meaning::<&SetKey>(s);
    assert(OrdSpec::cmp_spec(&s[i], &s[j]) is Less);
    let a = *s[i];
    let b = *s[j];
    assert(a.cmp_spec(&b) is Less);
}

/// Sparse set memberships. Absence = not a member; a dead entity's
/// memberships are purged, so iteration never filters. Membership is
/// stored twice, in lockstep: the ordered keys here (for iteration) and
/// each entity's inline bits in `Ids` (for the O(1) `contains`), which is
/// why the mutators take `&mut Ids`.
#[derive(Clone)]
pub struct Sets {
    keys: BTreeSet<SetKey>,
    /// Number of defined sets.
    count: u16,
}

impl Sets {
    /// The stored membership keys.
    pub closed spec fn keys(&self) -> Set<SetKey> {
        self.keys@
    }

    /// How many sets are defined.
    pub closed spec fn count(&self) -> u16 {
        self.count
    }

    pub open spec fn has(&self, set: u16, entity: EntityId) -> bool {
        self.keys().contains(set_key(set, entity))
    }

    pub closed spec fn wf(&self) -> bool {
        &&& self.count as int <= MAX_SETS
        &&& self.keys@.finite()
        &&& forall|k: SetKey| #[trigger] self.keys@.contains(k) ==> k.0 < self.count
    }

    /// The two halves of membership agree: a key is stored exactly for the
    /// live members, and no live entity carries a bit past the defined
    /// sets.
    pub open spec fn in_lockstep(&self, ids: &Ids) -> bool {
        &&& forall|s: u16, e: EntityId| #[trigger] self.has(s, e) ==> ids.alive(e) && ids.member(e, s as int)
        &&& forall|s: u16, e: EntityId|
            ids.alive(e) && (s as int) < MAX_SETS && #[trigger] ids.member(e, s as int) ==> self.has(s, e)
    }

    /// No memberships; sized from the schema.
    pub fn new(defs: &Definitions) -> (sets: Sets)
        requires
            defs.wf(),
        ensures
            sets.wf(),
            sets.count() == id_range(defs.set_names().len()).len(),
            sets.keys() == Set::<SetKey>::empty(),
    {
        let count = defs.set_count() as u16;
        Sets { keys: BTreeSet::new(), count }
    }

    /// Adds `entity` to `set`, in both halves; true if it was not a member.
    pub fn add(&mut self, ids: &mut Ids, set: SetId, entity: EntityId) -> (added: bool)
        requires
            old(self).wf(),
            old(ids).wf(),
            set.0 < old(self).count(),
            old(ids).alive(entity),
        ensures
            final(self).wf(),
            final(ids).wf(),
            final(self).count() == old(self).count(),
            final(self).keys() == old(self).keys().insert(set_key(set.0, entity)),
            added == !old(self).has(set.0, entity),
            final(ids).bits(entity.idx() as int) == old(ids).bits(entity.idx() as int).update(set.0 as int, true),
            forall|i: int| 0 <= i < CAPACITY ==> #[trigger] final(ids).slot(i) == old(ids).slot(i),
            forall|i: int| 0 <= i < CAPACITY && i != entity.idx() ==> #[trigger] final(ids).bits(i) == old(ids).bits(i),
            final(ids).free() == old(ids).free(),
            final(ids).marks() == old(ids).marks(),
            old(self).in_lockstep(old(ids)) ==> final(self).in_lockstep(final(ids)),
    {
        proof {
            ids.lemma_wf();
        }
        ids.set_membership(entity, set, true);
        proof {
            ids.lemma_wf();
        }
        let added = self.keys.insert((set.0, entity.idx_u16(), entity.gen_u16()));
        proof {
            let k = set_key(set.0, entity);
            assert((set.0, entity.idx(), entity.gen()) == k);
            if old(self).in_lockstep(old(ids)) {
                assert forall|s: u16, e: EntityId| #[trigger] self.has(s, e) implies ids.alive(e) && ids.member(e, s as int) by {
                    if set_key(s, e) == set_key(set.0, entity) {
                        EntityId::lemma_id_parts(e, entity);
                        assert(e == entity && s == set.0);
                    } else {
                        assert(old(self).has(s, e));
                        assert(old(ids).alive(e) && old(ids).member(e, s as int));
                        if e.idx() == entity.idx() {
                            EntityId::lemma_id_parts(e, entity);
                        }
                    }
                }
                assert forall|s: u16, e: EntityId|
                    ids.alive(e) && (s as int) < MAX_SETS && #[trigger] ids.member(e, s as int) implies self.has(s, e) by {
                    if e.idx() == entity.idx() {
                        EntityId::lemma_id_parts(e, entity);
                        if s != set.0 {
                            assert(old(ids).member(e, s as int));
                        }
                    } else {
                        assert(old(ids).member(e, s as int));
                    }
                }
            }
        }
        added
    }

    /// Removes `entity` from `set`, in both halves; true if it was a
    /// member. A stored key must belong to a live entity (the dead are
    /// purged before their keys are touched again).
    pub fn remove(&mut self, ids: &mut Ids, set: SetId, entity: EntityId) -> (removed: bool)
        requires
            old(self).wf(),
            old(ids).wf(),
            old(self).has(set.0, entity) ==> old(ids).alive(entity),
        ensures
            final(self).wf(),
            final(ids).wf(),
            final(self).count() == old(self).count(),
            final(self).keys() == old(self).keys().remove(set_key(set.0, entity)),
            removed == old(self).has(set.0, entity),
            removed ==> final(ids).bits(entity.idx() as int) == old(ids).bits(entity.idx() as int).update(set.0 as int, false),
            !removed ==> final(ids).bits(entity.idx() as int) == old(ids).bits(entity.idx() as int),
            forall|i: int| 0 <= i < CAPACITY ==> #[trigger] final(ids).slot(i) == old(ids).slot(i),
            forall|i: int| 0 <= i < CAPACITY && i != entity.idx() ==> #[trigger] final(ids).bits(i) == old(ids).bits(i),
            final(ids).free() == old(ids).free(),
            final(ids).marks() == old(ids).marks(),
            old(self).in_lockstep(old(ids)) ==> final(self).in_lockstep(final(ids)),
    {
        let removed = self.keys.remove(&(set.0, entity.idx_u16(), entity.gen_u16()));
        proof {
            ids.lemma_wf();
        }
        if removed {
            ids.set_membership(entity, set, false);
        }
        proof {
            ids.lemma_wf();
        }
        proof {
            let k = set_key(set.0, entity);
            assert((set.0, entity.idx(), entity.gen()) == k);
            if old(self).in_lockstep(old(ids)) {
                assert forall|s: u16, e: EntityId| #[trigger] self.has(s, e) implies ids.alive(e) && ids.member(e, s as int) by {
                    assert(old(self).has(s, e));
                    if e.idx() == entity.idx() && removed {
                        EntityId::lemma_id_parts(e, entity);
                    }
                }
                assert forall|s: u16, e: EntityId|
                    ids.alive(e) && (s as int) < MAX_SETS && #[trigger] ids.member(e, s as int) implies self.has(s, e) by {
                    if e.idx() == entity.idx() && removed {
                        EntityId::lemma_id_parts(e, entity);
                    }
                    assert(old(ids).member(e, s as int));
                }
            }
        }
        removed
    }

    /// Fast membership through the inline bits.
    pub fn contains(&self, ids: &Ids, set: SetId, entity: EntityId) -> (b: bool)
        requires
            ids.wf(),
            ids.alive(entity) ==> (set.0 as int) < MAX_SETS,
        ensures
            b == ids.member(entity, set.0 as int),
            self.in_lockstep(ids) ==> b == self.has(set.0, entity),
    {
        ids.in_set(entity, set)
    }

    /// The members of `set`, in (slot, generation) order.
    pub fn iter(&self, set: SetId) -> (r: Vec<EntityId>)
        requires
            self.wf(),
        ensures
            forall|e: EntityId| #[trigger] r@.contains(e) <==> self.has(set.0, e),
            ids_ascending(r@),
    {
        let mut r: Vec<EntityId> = Vec::new();
        let ghost all = vstd::std_specs::btree::spec_btree_keys_iter(&self.keys).remaining();
        let ghost mut done: int = 0;
        for k in it: self.keys.iter()
            invariant
                all == it.seq(),
                done == it.index(),
                all.unref().to_set() == self.keys@,
                increasing_seq(all),
                forall|e: EntityId| #[trigger] r@.contains(e) <==> exists|i: int| 0 <= i < done && *all[i] == set_key(set.0, e),
                ids_ascending(r@),
        {
            proof {
                assert(*k == *all[done]);
            }
            if k.0 == set.0 {
                let e = EntityId::from_parts(k.1, k.2);
                proof {
                    EntityId::lemma_make(k.1, k.2);
                    assert(*all[done] == set_key(set.0, e));
                    assert forall|j: int| 0 <= j < r@.len() implies id_before(r@[j], e) by {
                        assert(r@.contains(r@[j]));
                        let i = choose|i: int| 0 <= i < done && *all[i] == set_key(set.0, r@[j]);
                        lemma_ascending_keys(all, i, done);
                    }
                }
                let ghost old_r = r@;
                r.push(e);
                proof {
                    assert(r@.drop_last() =~= old_r);
                    assert forall|e2: EntityId| #[trigger] r@.contains(e2) <==> exists|i: int| 0 <= i < done + 1 && *all[i] == set_key(set.0, e2) by {
                        assert(r@[r@.len() - 1] == e);
                        if r@.contains(e2) && e2 != e {
                            let j = choose|j: int| 0 <= j < r@.len() && r@[j] == e2;
                            assert(j != r@.len() - 1);
                            assert(old_r.contains(e2)) by { assert(old_r[j] == e2); }
                        }
                        if exists|i: int| 0 <= i < done + 1 && *all[i] == set_key(set.0, e2) {
                            let i = choose|i: int| 0 <= i < done + 1 && *all[i] == set_key(set.0, e2);
                            if i == done {
                                EntityId::lemma_id_parts(e2, e);
                                assert(e2 == e);
                            } else {
                                assert(old_r.contains(e2));
                                let j = choose|j: int| 0 <= j < old_r.len() && old_r[j] == e2;
                                assert(r@[j] == e2);
                            }
                        }
                    }
                }
            } else {
                proof {
                    assert forall|e2: EntityId| #[trigger] r@.contains(e2) <==> exists|i: int| 0 <= i < done + 1 && *all[i] == set_key(set.0, e2) by {
                        if exists|i: int| 0 <= i < done + 1 && *all[i] == set_key(set.0, e2) {
                            let i = choose|i: int| 0 <= i < done + 1 && *all[i] == set_key(set.0, e2);
                            assert(i != done);
                        }
                    }
                }
            }
            proof {
                done = done + 1;
            }
        }
        proof {
            assert(done == all.len());
        }
        proof {
            assert forall|e: EntityId| #[trigger] r@.contains(e) <==> self.has(set.0, e) by {
                let key = set_key(set.0, e);
                if self.has(set.0, e) {
                    assert(all.unref().to_set().contains(key));
                    let i = choose|i: int| 0 <= i < all.unref().len() && all.unref()[i] == key;
                    assert(*all[i] == key);
                }
                if r@.contains(e) {
                    let i = choose|i: int| 0 <= i < all.len() && *all[i] == key;
                    assert(all.unref()[i] == key);
                    assert(all.unref().contains(key));
                }
            }
        }
        r
    }
}

/// Whether `dead` holds `entity`'s slot and generation.
pub open spec fn names_dead(dead: Seq<EntityId>, slot: u16, generation: u16) -> bool {
    exists|k: int| 0 <= k < dead.len() && dead[k].idx() == slot && dead[k].gen() == generation
}

impl Sets {
    /// Remove the dead from every set: one point removal per (set, dead id).
    pub fn purge(&mut self, dead: &[EntityId])
        requires
            old(self).wf(),
        ensures
            final(self).wf(),
            final(self).count() == old(self).count(),
            forall|k: SetKey| #[trigger] final(self).keys().contains(k) <==> old(self).keys().contains(k)
                && !names_dead(dead@, k.1, k.2),
    {
        let mut j: usize = 0;
        while j < dead.len()
            invariant
                self.wf(),
                self.count() == old(self).count(),
                j <= dead@.len(),
                forall|k: SetKey| #[trigger] self.keys().contains(k) <==> old(self).keys().contains(k)
                    && !names_dead(dead@.take(j as int), k.1, k.2),
            decreases dead@.len() - j,
        {
            let d = dead[j];
            let ghost before = self.keys@;
            proof {
                lemma_key_order();
                assert(before == self.keys());
                assert forall|k: SetKey| #[trigger] before.contains(k) <==> old(self).keys().contains(k)
                    && !names_dead(dead@.take(j as int), k.1, k.2) by {
                    assert(self.keys().contains(k) == before.contains(k));
                }
                assert forall|k: SetKey| #[trigger] before.contains(k) implies k.0 < self.count by {
                    assert(self.keys@.contains(k));
                }
            }
            let mut set: u16 = 0;
            while set < self.count
                invariant
                    self.wf(),
                    self.count() == old(self).count(),
                    set <= self.count,
                    forall|k: SetKey| #[trigger] self.keys().contains(k) <==> before.contains(k)
                        && !(k.0 < set && k.1 == d.idx() && k.2 == d.gen()),
                decreases self.count - set,
            {
                let ghost prev = self.keys@;
                assert forall|k: SetKey| #[trigger] prev.contains(k) <==> before.contains(k)
                    && !(k.0 < set && k.1 == d.idx() && k.2 == d.gen()) by {
                    assert(self.keys().contains(k) == prev.contains(k));
                }
                let key = (set, d.idx_u16(), d.gen_u16());
                self.keys.remove(&key);
                proof {
                    assert(key == (set, d.idx(), d.gen()));
                    assert(self.keys@ == prev.remove(key));
                    assert forall|k: SetKey| #[trigger] self.keys().contains(k) <==> before.contains(k)
                        && !(k.0 < set + 1 && k.1 == d.idx() && k.2 == d.gen()) by {
                        assert(self.keys() == self.keys@);
                        if k == key {
                            assert(!self.keys@.contains(k));
                        } else {
                            assert(self.keys@.contains(k) == prev.contains(k));
                            assert(prev.contains(k) <==> before.contains(k) && !(k.0 < set && k.1 == d.idx() && k.2 == d.gen()));
                        }
                    }
                    assert forall|k: SetKey| #[trigger] self.keys@.contains(k) implies k.0 < self.count by {
                        assert(prev.contains(k));
                    }
                }
                set = set + 1;
            }
            proof {
                let t0 = dead@.take(j as int);
                let t1 = dead@.take(j + 1);
                assert(t1 =~= t0.push(d));
                assert(d == dead@[j as int]);
                assert forall|k: SetKey| #[trigger] self.keys().contains(k) <==> old(self).keys().contains(k)
                    && !names_dead(dead@.take(j + 1), k.1, k.2) by {
                    lemma_names_dead_push(t0, d, k.1, k.2);
                    if before.contains(k) {
                        assert(k.0 < self.count);
                    }
                }
            }
            j = j + 1;
        }
        proof {
            assert(dead@.take(dead@.len() as int) =~= dead@);
        }
    }

    /// How many memberships are stored.
    pub fn len(&self) -> (n: usize)
        requires
            self.wf(),
        ensures
            n == self.keys().len(),
    {
        self.keys.len()
    }
}

/// Membership keys are totally ordered, as the ordered set needs.
proof fn lemma_key_order()
    ensures
        obeys_cmp::<SetKey>(),
{
    broadcast use vstd::laws_cmp::group_laws_cmp;

    assert(obeys_cmp::<u16>());
}

proof fn lemma_names_dead_push(t: Seq<EntityId>, d: EntityId, slot: u16, generation: u16)
    ensures
        names_dead(t.push(d), slot, generation) <==> names_dead(t, slot, generation) || (d.idx()
            == slot && d.gen() == generation),
{
    let t1 = t.push(d);
    if names_dead(t, slot, generation) {
        let k = choose|k: int| 0 <= k < t.len() && t[k].idx() == slot && t[k].gen() == generation;
        assert(t1[k] == t[k]);
    }
    if d.idx() == slot && d.gen() == generation {
        assert(t1[t.len() as int] == d);
    }
    if names_dead(t1, slot, generation) && !(d.idx() == slot && d.gen() == generation) {
        let k = choose|k: int| 0 <= k < t1.len() && t1[k].idx() == slot && t1[k].gen() == generation;
        assert(k < t.len());
        assert(t[k] == t1[k]);
    }
}

/// Spawning keeps the two halves of membership in lockstep: the fresh
/// entity is in no set on either side.
pub proof fn lemma_spawn_keeps_lockstep(sets: Sets, before: Ids, after: Ids, id: EntityId)
    requires
        before.wf(),
        sets.in_lockstep(&before),
        !before.alive(id),
        forall|x: EntityId| #[trigger] before.alive(x) ==> after.alive(x),
        forall|x: EntityId| #[trigger] after.alive(x) && x != id ==> before.alive(x),
        forall|i: int| 0 <= i < CAPACITY ==> #[trigger] after.bits(i) == before.bits(i),
        forall|i: int| 0 <= i < CAPACITY ==> #[trigger] before.slot(i).idx() == i,
        forall|i: int| 0 <= i < CAPACITY && (before.slot(i).gen() as int) % 2 == 0 ==> forall|b: int|
            0 <= b < 64 ==> !#[trigger] before.bits(i)[b],
        after.alive(id),
        before.slot(id.idx() as int).gen() % 2 == 0,
    ensures
        sets.in_lockstep(&after),
{
    assert forall|s: u16, e: EntityId| #[trigger] sets.has(s, e) implies after.alive(e) && after.member(e, s as int) by {
        assert(before.alive(e) && before.member(e, s as int));
    }
    assert forall|s: u16, e: EntityId|
        after.alive(e) && (s as int) < MAX_SETS && #[trigger] after.member(e, s as int) implies sets.has(s, e) by {
        if e == id {
            assert(!after.bits(id.idx() as int)[s as int]);
        } else {
            assert(before.alive(e));
            assert(before.member(e, s as int));
        }
    }
}

/// A sweep followed by a purge of the dead restores the lockstep of the two
/// halves of membership.
pub proof fn lemma_sweep_purge_keeps_lockstep(
    sets0: Sets,
    ids0: Ids,
    ids1: Ids,
    dead: Seq<EntityId>,
    sets1: Sets,
)
    requires
        ids0.wf(),
        ids1.wf(),
        sets0.in_lockstep(&ids0),
        swept_to(ids0, ids1, dead),
        forall|k: SetKey| #[trigger] sets1.keys().contains(k) <==> sets0.keys().contains(k)
            && !names_dead(dead, k.1, k.2),
    ensures
        sets1.in_lockstep(&ids1),
{
    ids0.lemma_wf();
    ids1.lemma_wf();
    assert forall|s: u16, e: EntityId| #[trigger] sets1.has(s, e) implies ids1.alive(e) && ids1.member(e, s as int) by {
        assert(sets0.has(s, e));
        assert(ids0.alive(e) && ids0.member(e, s as int));
        assert(!dead.contains(e)) by {
            if dead.contains(e) {
                let k = choose|k: int| 0 <= k < dead.len() && dead[k] == e;
                assert(names_dead(dead, e.idx(), e.gen()));
            }
        }
        let i = e.idx() as int;
        assert(slot_after_kills(ids1, ids0, dead, i));
        if killed_in(dead, i) {
            let k = choose|k: int| 0 <= k < dead.len() && dead[k].idx() == i;
            assert(dead.contains(dead[k]));
            assert(ids0.alive(dead[k]));
            EntityId::lemma_id_parts(dead[k], e);
        }
    }
    assert forall|s: u16, e: EntityId|
        ids1.alive(e) && (s as int) < MAX_SETS && #[trigger] ids1.member(e, s as int) implies sets1.has(s, e) by {
        assert(ids0.alive(e));
        let i = e.idx() as int;
        assert(slot_after_kills(ids1, ids0, dead, i));
        if killed_in(dead, i) {
            assert(ids1.slot(i) == EntityId::make(i as u16, next_dead_generation(ids0.slot(i).gen())));
            EntityId::lemma_make(i as u16, next_dead_generation(ids0.slot(i).gen()));
            assert(false);
        }
        assert(ids0.member(e, s as int));
        assert(sets0.has(s, e));
        assert(!names_dead(dead, e.idx(), e.gen())) by {
            if names_dead(dead, e.idx(), e.gen()) {
                let k = choose|k: int| 0 <= k < dead.len() && dead[k].idx() == e.idx() && dead[k].gen() == e.gen();
                EntityId::lemma_id_parts(dead[k], e);
                assert(killed_in(dead, i));
            }
        }
    }
}

} // verus!
