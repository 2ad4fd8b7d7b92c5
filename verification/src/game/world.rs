//! The authoritative sim state: the clock, the entity stores, the map, and
//! the double-buffered per-entity state the day pass rewrites.

use vstd::prelude::*;
use crate::entities::defs::{Definitions, RelationId, SetId, UVarId, VarId, id_range, MAX_SETS};
use crate::entities::id::{EntityId, Ids, CAPACITY, swept_ids, released_slots, slots_after_kills, swept_to, slot_after_kills, killed_in, next_dead_generation};
use crate::entities::names::Symbol;
use crate::entities::names::Names;
use crate::entities::relations::{RelationEntry, Relations, row_map, live_outgoing, live_incoming, live_via};
use crate::entities::table::{Table, is_default};
use crate::entities::tags::Tags;
use crate::entities::uvars::{Bits64, UVars};
use crate::entities::vars::Vars;
use crate::game::map::{CellPos, WorldMap};

verus! {

/// A point on the sim's clock: how many days have been accepted. ZII:
/// epoch zero is the dawn of the calendar.
#[derive(Clone, Copy, PartialEq, Eq, Structural, PartialOrd, Ord, Debug, Hash)]
pub struct Epoch(pub u64);

impl Default for Epoch {
    fn default() -> (e: Epoch)
        ensures
            e.0 == 0,
    {
        Epoch(0)
    }
}

impl Epoch {
    /// The far end of time: a deadline that never comes.
    pub fn never() -> (e: Epoch)
        ensures
            e.0 == u64::MAX,
    {
        Epoch(u64::MAX)
    }

    /// One day passes.
    pub fn advance(&mut self)
        requires
            old(self).0 < u64::MAX,
        ensures
            final(self).0 == old(self).0 + 1,
    {
        self.0 = self.0 + 1;
    }
}

/// Epochs store directly in u64 slots; the zero epoch reads as the dawn.
impl Bits64 for Epoch {
    open spec fn bits_of(self) -> u64 {
        self.0
    }

    open spec fn from_bits_spec(bits: u64) -> Epoch {
        Epoch(bits)
    }

    fn to_bits(self) -> (r: u64) {
        self.0
    }

    fn from_bits(bits: u64) -> (r: Epoch) {
        Epoch(bits)
    }

    proof fn lemma_round_trip(x: Epoch) {
    }
}

/// What an entity can be doing.
#[derive(Clone, Copy, PartialEq, Eq, Structural, Debug)]
pub enum ActivityVerb {
    Idle,
    Rest,
    Travel,
}

impl Default for ActivityVerb {
    fn default() -> (v: ActivityVerb)
        ensures
            v == ActivityVerb::Idle,
    {
        ActivityVerb::Idle
    }
}

/// What an entity is doing: a command extended in time. `until` is the
/// epoch it resolves at, `Epoch::never()` = open-ended; `destination` is
/// Travel's, the zero cell for the verbs that don't want one. The zero
/// activity is Idle, always due.
#[derive(Clone, Copy, PartialEq, Eq, Structural, Debug)]
pub struct Activity {
    pub verb: ActivityVerb,
    pub start: Epoch,
    pub until: Epoch,
    /// Where Travel is headed; the zero cell = no destination.
    pub destination: CellPos,
}

/// The idle activity.
pub open spec fn idle_activity() -> Activity {
    Activity { verb: ActivityVerb::Idle, start: Epoch(0), until: Epoch(0), destination: CellPos { x: 0, y: 0 } }
}

impl Default for Activity {
    fn default() -> (a: Activity)
        ensures
            a == idle_activity(),
    {
        Activity { verb: ActivityVerb::Idle, start: Epoch(0), until: Epoch(0), destination: CellPos::default() }
    }
}

/// The double-buffered half of the world: exactly the per-entity state the
/// day pass rewrites.
#[derive(Clone)]
pub struct WorldState {
    /// Scalar vars, each an `f32` held by its bit pattern.
    pub vars: Vars,
    pub uvars: UVars,
    /// The cell each entity stands on; zero = nowhere.
    pub positions: Table<CellPos>,
    pub activities: Table<Activity>,
    pub relations: Relations,
}

impl WorldState {
    pub open spec fn wf(&self) -> bool {
        &&& self.vars.wf()
        &&& self.uvars.wf()
        &&& self.positions.wf()
        &&& self.activities.wf()
        &&& self.relations.wf()
    }

    /// Stores sized to the schema, every value zero.
    pub fn new(defs: &Definitions) -> (s: WorldState)
        ensures
            s.wf(),
            s.vars.stride() == id_range(defs.var_names().len()).len(),
            s.uvars.stride() == id_range(defs.uvar_names().len()).len(),
            s.relations.kinds() as int == id_range(defs.relation_names().len()).len(),
    {
        WorldState {
            vars: Vars::new(defs),
            uvars: UVars::new(defs),
            positions: Table::new(),
            activities: Table::new(),
            relations: Relations::new(defs),
        }
    }
}

/// The authoritative sim state. Plain data: `Clone` is save.
#[derive(Clone)]
pub struct World {
    /// The sim's clock.
    pub epoch: Epoch,
    pub ids: Ids,
    /// The schema, kept queryable by name.
    pub defs: Definitions,
    pub names: Names,
    pub tags: Tags,
    /// The root of all randomness for the sim's rolls.
    pub seed: u64,
    /// The world's geography; spawn and sweep never touch it.
    pub map: WorldMap,
    /// The double-buffered per-entity state.
    pub state: WorldState,
}

impl World {
    /// Every store in order and sized to the schema.
    pub open spec fn wf(&self) -> bool {
        &&& self.ids.wf()
        &&& self.names.wf()
        &&& self.tags.wf()
        &&& self.map.wf()
        &&& self.state.wf()
        &&& self.rows_owned()
        &&& self.tags_live()
    }

    /// Every living slot's position and activity rows are its own, so
    /// reading them by a live id never meets another occupant's row.
    pub open spec fn rows_owned(&self) -> bool {
        forall|i: int|
            0 <= i < CAPACITY && (#[trigger] self.ids.slot(i)).valid() ==> self.state.positions.row(i).0 == self.ids.slot(i)
                && self.state.activities.row(i).0 == self.ids.slot(i)
    }

    /// Every tag names a live entity.
    pub open spec fn tags_live(&self) -> bool {
        forall|k: Seq<char>| #[trigger] self.tags.map().contains_key(k) ==> self.ids.alive(self.tags.map()[k])
    }

    /// A world at the dawn of time with no entities and an empty map.
    pub fn new(defs: Definitions, seed: u64) -> (w: World)
        ensures
            w.wf(),
            w.epoch.0 == 0,
            w.seed == seed,
            w.defs == defs,
            forall|id: EntityId| !(#[trigger] w.ids.alive(id)),
            w.ids.can_spawn(),
            w.state.vars.stride() == id_range(defs.var_names().len()).len(),
            w.state.uvars.stride() == id_range(defs.uvar_names().len()).len(),
            w.state.relations.kinds() as int == id_range(defs.relation_names().len()).len(),
    {
        let state = WorldState::new(&defs);
        World {
            epoch: Epoch(0),
            ids: Ids::new(),
            names: Names::new(),
            tags: Tags::default(),
            seed,
            map: WorldMap::empty(),
            state,
            defs,
        }
    }

    /// Allocates an entity and gives it a clean slate in every dense store.
    pub fn spawn(&mut self) -> (id: EntityId)
        requires
            old(self).wf(),
            old(self).ids.can_spawn(),
        ensures
            final(self).wf(),
            final(self).ids.alive(id),
            !old(self).ids.alive(id),
            forall|x: EntityId| #[trigger] old(self).ids.alive(x) ==> final(self).ids.alive(x),
            final(self).defs == old(self).defs,
            final(self).seed == old(self).seed,
            ({
                let f = old(self).ids.free().last();
                &&& id == EntityId::make(f, (old(self).ids.slot(f as int).gen() + 1) as u16)
                &&& final(self).ids.free() == old(self).ids.free().drop_last()
                &&& forall|i: int| 0 <= i < CAPACITY && i != f ==> #[trigger] final(self).ids.slot(i) == old(self).ids.slot(i)
            }),
            final(self).ids.marks() == old(self).ids.marks(),
            final(self).state.vars.stride() == old(self).state.vars.stride(),
            final(self).state.uvars.stride() == old(self).state.uvars.stride(),
            forall|s: int, v: int| 0 <= s < CAPACITY && 0 <= v < old(self).state.vars.stride() ==> #[trigger] final(self).state.vars.value(s, v)
                == if s == id.idx() { 0 } else { old(self).state.vars.value(s, v) },
            forall|s: int, v: int| 0 <= s < CAPACITY && 0 <= v < old(self).state.uvars.stride() ==> #[trigger] final(self).state.uvars.value(s, v)
                == if s == id.idx() { 0 } else { old(self).state.uvars.value(s, v) },
            final(self).state.positions.row(id.idx() as int).0 == id,
            is_default(final(self).state.positions.row(id.idx() as int).1),
            final(self).state.activities.row(id.idx() as int).0 == id,
            is_default(final(self).state.activities.row(id.idx() as int).1),
            forall|i: int| 0 <= i < CAPACITY && i != id.idx() ==> #[trigger] final(self).state.positions.row(i) == old(self).state.positions.row(i),
            forall|i: int| 0 <= i < CAPACITY && i != id.idx() ==> #[trigger] final(self).state.activities.row(i) == old(self).state.activities.row(i),
            final(self).state.relations == old(self).state.relations,
            final(self).names == old(self).names,
            final(self).tags == old(self).tags,
            final(self).map == old(self).map,
            final(self).epoch == old(self).epoch,
            forall|i: int| 0 <= i < CAPACITY ==> #[trigger] final(self).ids.bits(i) == old(self).ids.bits(i),
    {
        let id = self.ids.spawn();
        proof {
            self.ids.lemma_wf();
        }
        self.state.vars.reset(id);
        self.state.uvars.reset(id);
        self.state.positions.reset(id);
        self.state.activities.reset(id);
        id
    }

    /// Despawns every entity marked since the last sweep. Names and tags
    /// purge here; dense stores keep their rows (reads gate on liveness,
    /// spawn resets on reuse); relations filter dead endpoints at query
    /// time until the next rebuild drops them.
    pub fn sweep(&mut self)
        requires
            old(self).wf(),
        ensures
            final(self).wf(),
            ({
                let dead = swept_ids(old(self).ids.marks(), old(self).ids);
                &&& final(self).ids.marks().len() == 0
                &&& final(self).ids.free() == old(self).ids.free() + released_slots(dead)
                &&& slots_after_kills(final(self).ids, old(self).ids, dead)
                &&& swept_to(old(self).ids, final(self).ids, dead)
                &&& forall|x: EntityId| #[trigger] dead.contains(x) ==> old(self).ids.alive(x) && final(self).ids.stale(x)
                &&& forall|x: EntityId| #[trigger] old(self).ids.alive(x) && !dead.contains(x) ==> final(self).ids.alive(x)
                &&& final(self).names.vocabulary() == old(self).names.vocabulary()
                &&& forall|i: int| 0 <= i < CAPACITY ==> #[trigger] final(self).names.symbol(i) == if exists|k: int|
                    0 <= k < dead.len() && dead[k].idx() == i {
                    Symbol::default_spec()
                } else {
                    old(self).names.symbol(i)
                }
                &&& dead.len() == 0 ==> final(self).tags == old(self).tags
                &&& dead.len() > 0 ==> forall|k: Seq<char>| #[trigger] final(self).tags.map().contains_key(k) <==> old(self).tags.map().contains_key(k)
                    && final(self).ids.alive(old(self).tags.map()[k])
                &&& forall|k: Seq<char>| #[trigger] final(self).tags.map().contains_key(k) ==> final(self).tags.map()[k] == old(self).tags.map()[k]
            }),
            final(self).state == old(self).state,
            final(self).map == old(self).map,
            final(self).epoch == old(self).epoch,
            final(self).defs == old(self).defs,
            final(self).seed == old(self).seed,
    {
        let dead = self.ids.sweep();
        proof {
            assert forall|i: int| 0 <= i < CAPACITY && (#[trigger] self.ids.slot(i)).valid() implies self.state.positions.row(i).0
                == self.ids.slot(i) && self.state.activities.row(i).0 == self.ids.slot(i) by {
                assert(slot_after_kills(self.ids, old(self).ids, dead@, i));
                if killed_in(dead@, i) {
                    let k = choose|k: int| 0 <= k < dead@.len() && dead@[k].idx() == i;
                    assert(dead@.contains(dead@[k]));
                    EntityId::lemma_make(i as u16, next_dead_generation(old(self).ids.slot(i).gen()));
                }
            }
        }
        if dead.len() == 0 {
            return;
        }
        proof {
            assert forall|k: int| 0 <= k < dead@.len() implies (#[trigger] dead@[k].idx() as int) < CAPACITY by {
                assert(dead@.contains(dead@[k]));
            }
        }
        self.names.purge(dead.as_slice());
        self.tags.purge(&self.ids);
    }

    /// Records that `id` should die at the next sweep; until then it stays
    /// fully alive.
    pub fn mark_despawn(&mut self, id: EntityId)
        requires
            old(self).wf(),
            id.valid(),
        ensures
            final(self).wf(),
            final(self).ids.marks() == old(self).ids.marks().push(id),
            forall|i: int| 0 <= i < CAPACITY ==> #[trigger] final(self).ids.slot(i) == old(self).ids.slot(i),
            forall|i: int| 0 <= i < CAPACITY ==> #[trigger] final(self).ids.bits(i) == old(self).ids.bits(i),
            forall|x: EntityId| #[trigger] final(self).ids.alive(x) == old(self).ids.alive(x),
            *final(self) == (World { ids: final(self).ids, ..*old(self) }),
    {
        self.ids.mark_despawn(id);
        proof {
            assert forall|i: int| 0 <= i < CAPACITY && (#[trigger] self.ids.slot(i)).valid() implies self.state.positions.row(i).0
                == self.ids.slot(i) && self.state.activities.row(i).0 == self.ids.slot(i) by {
                assert(old(self).ids.slot(i) == self.ids.slot(i));
            }
            assert forall|x: EntityId| #[trigger] self.ids.alive(x) == old(self).ids.alive(x) by {
                if (x.idx() as int) < CAPACITY {
                    assert(old(self).ids.slot(x.idx() as int) == self.ids.slot(x.idx() as int));
                }
            }
        }
    }

    /// Puts the live entity `id` in set `set`.
    pub fn join_set(&mut self, id: EntityId, set: SetId)
        requires
            old(self).wf(),
            old(self).ids.alive(id),
            (set.0 as int) < MAX_SETS,
        ensures
            final(self).wf(),
            forall|i: int| 0 <= i < CAPACITY ==> #[trigger] final(self).ids.slot(i) == old(self).ids.slot(i),
            forall|x: EntityId| #[trigger] final(self).ids.alive(x) == old(self).ids.alive(x),
            final(self).ids.free() == old(self).ids.free(),
            final(self).ids.member(id, set.0 as int),
            forall|i: int| 0 <= i < CAPACITY && i != id.idx() ==> #[trigger] final(self).ids.bits(i) == old(self).ids.bits(i),
            *final(self) == (World { ids: final(self).ids, ..*old(self) }),
    {
        self.ids.set_membership(id, set, true);
        proof {
            old(self).ids.lemma_wf();
            assert(self.ids.slot(id.idx() as int) == old(self).ids.slot(id.idx() as int));
            assert forall|i: int| 0 <= i < CAPACITY && (#[trigger] self.ids.slot(i)).valid() implies self.state.positions.row(i).0
                == self.ids.slot(i) && self.state.activities.row(i).0 == self.ids.slot(i) by {
                assert(old(self).ids.slot(i) == self.ids.slot(i));
            }
            assert forall|x: EntityId| #[trigger] self.ids.alive(x) == old(self).ids.alive(x) by {
                if (x.idx() as int) < CAPACITY {
                    assert(old(self).ids.slot(x.idx() as int) == self.ids.slot(x.idx() as int));
                }
            }
        }
    }

    /// `id`'s scalar var, as the bits of an `f32`.
    pub fn get_var(&self, id: EntityId, var: VarId) -> (r: u32)
        requires
            self.wf(),
            (var.0 as int) < self.state.vars.stride(),
            (id.idx() as int) < CAPACITY,
        ensures
            r == self.state.vars.value(id.idx() as int, var.0 as int),
    {
        self.state.vars.get(id, var)
    }

    /// Sets `id`'s scalar var to the bits of an `f32`.
    pub fn set_var(&mut self, id: EntityId, var: VarId, value: u32)
        requires
            old(self).wf(),
            (var.0 as int) < old(self).state.vars.stride(),
            (id.idx() as int) < CAPACITY,
        ensures
            final(self).wf(),
            final(self).state.vars.stride() == old(self).state.vars.stride(),
            final(self).state.vars.value(id.idx() as int, var.0 as int) == value,
            forall|s: int, v: int|
                0 <= s < CAPACITY && 0 <= v < old(self).state.vars.stride() && (s != id.idx() || v != var.0)
                    ==> #[trigger] final(self).state.vars.value(s, v) == old(self).state.vars.value(s, v),
            *final(self) == (World { state: WorldState { vars: final(self).state.vars, ..old(self).state }, ..*old(self) }),
    {
        self.state.vars.set(id, var, value);
    }

    /// `id`'s u64 var, decoded.
    pub fn get_uvar<T: Bits64>(&self, id: EntityId, var: UVarId) -> (r: T)
        requires
            self.wf(),
            (var.0 as int) < self.state.uvars.stride(),
            (id.idx() as int) < CAPACITY,
        ensures
            r == T::from_bits_spec(self.state.uvars.value(id.idx() as int, var.0 as int)),
    {
        self.state.uvars.get(id, var)
    }

    /// Sets `id`'s u64 var to `value`, encoded.
    pub fn set_uvar<T: Bits64>(&mut self, id: EntityId, var: UVarId, value: T)
        requires
            old(self).wf(),
            (var.0 as int) < old(self).state.uvars.stride(),
            (id.idx() as int) < CAPACITY,
        ensures
            final(self).wf(),
            final(self).state.uvars.stride() == old(self).state.uvars.stride(),
            final(self).state.uvars.value(id.idx() as int, var.0 as int) == value.bits_of(),
            forall|s: int, v: int|
                0 <= s < CAPACITY && 0 <= v < old(self).state.uvars.stride() && (s != id.idx() || v != var.0)
                    ==> #[trigger] final(self).state.uvars.value(s, v) == old(self).state.uvars.value(s, v),
            *final(self) == (World { state: WorldState { uvars: final(self).state.uvars, ..old(self).state }, ..*old(self) }),
    {
        self.state.uvars.set(id, var, value);
    }

    /// Where `id` stands; its slot's row must still be its own.
    pub fn position(&self, id: EntityId) -> (p: CellPos)
        requires
            self.wf(),
            (id.idx() as int) < CAPACITY,
            self.state.positions.row(id.idx() as int).0 == id,
        ensures
            p == self.state.positions.row(id.idx() as int).1,
    {
        *self.state.positions.get(id)
    }

    /// Puts `id` on `pos`.
    pub fn set_position(&mut self, id: EntityId, pos: CellPos)
        requires
            old(self).wf(),
            old(self).ids.alive(id),
        ensures
            final(self).wf(),
            final(self).state.positions.row(id.idx() as int) == (id, pos),
            forall|i: int| 0 <= i < CAPACITY && i != id.idx() ==> #[trigger] final(self).state.positions.row(i) == old(self).state.positions.row(i),
            *final(self) == (World { state: WorldState { positions: final(self).state.positions, ..old(self).state }, ..*old(self) }),
    {
        self.state.positions.set(id, pos);
    }

    /// What `id` is doing; its slot's row must still be its own.
    pub fn activity(&self, id: EntityId) -> (a: Activity)
        requires
            self.wf(),
            (id.idx() as int) < CAPACITY,
            self.state.activities.row(id.idx() as int).0 == id,
        ensures
            a == self.state.activities.row(id.idx() as int).1,
    {
        *self.state.activities.get(id)
    }

    /// Sets what `id` is doing.
    pub fn set_activity(&mut self, id: EntityId, activity: Activity)
        requires
            old(self).wf(),
            old(self).ids.alive(id),
        ensures
            final(self).wf(),
            final(self).state.activities.row(id.idx() as int) == (id, activity),
            forall|i: int| 0 <= i < CAPACITY && i != id.idx() ==> #[trigger] final(self).state.activities.row(i) == old(self).state.activities.row(i),
            *final(self) == (World { state: WorldState { activities: final(self).state.activities, ..old(self).state }, ..*old(self) }),
    {
        self.state.activities.set(id, activity);
    }

    /// The weight of `source`'s edge of one kind to `target`, as `f32`
    /// bits; 0 = no relation.
    pub fn relation(&self, source: EntityId, relation: RelationId, target: EntityId) -> (r: u32)
        requires
            self.wf(),
        ensures
            r == (if self.state.relations.readable(&self.ids, source) && self.ids.alive(target) && row_map(
                self.state.relations.row(source.idx() as int),
            ).contains_key((relation.0, target)) {
                row_map(self.state.relations.row(source.idx() as int))[(relation.0, target)]
            } else {
                0u32
            }),
    {
        self.state.relations.get(&self.ids, source, relation, target)
    }

    /// `source`'s live outgoing relations, in (relation, target) order.
    pub fn related(&self, source: EntityId) -> (r: Vec<RelationEntry>)
        requires
            self.wf(),
        ensures
            r@ == (if self.state.relations.readable(&self.ids, source) {
                live_outgoing(&self.ids, source, self.state.relations.row(source.idx() as int))
            } else {
                Seq::empty()
            }),
    {
        self.state.relations.get_related(&self.ids, source)
    }

    /// Live targets of `source`'s relations of one kind, in target order.
    pub fn related_via(&self, source: EntityId, relation: RelationId) -> (r: Vec<(EntityId, u32)>)
        requires
            self.wf(),
        ensures
            r@ == (if self.state.relations.readable(&self.ids, source) {
                live_via(&self.ids, self.state.relations.row(source.idx() as int), relation.0)
            } else {
                Seq::empty()
            }),
    {
        self.state.relations.get_related_via(&self.ids, source, relation)
    }

    /// `target`'s live incoming relations, in (relation, source) order.
    pub fn related_to(&self, target: EntityId) -> (r: Vec<RelationEntry>)
        requires
            self.wf(),
        ensures
            r@ == (if self.state.relations.readable(&self.ids, target) {
                live_incoming(&self.ids, target, self.state.relations.rev_row(target.idx() as int))
            } else {
                Seq::empty()
            }),
    {
        self.state.relations.get_related_to(&self.ids, target)
    }

    /// Live sources of relations of one kind pointing at `target`, in
    /// source order.
    pub fn related_to_via(&self, target: EntityId, relation: RelationId) -> (r: Vec<(EntityId, u32)>)
        requires
            self.wf(),
        ensures
            r@ == (if self.state.relations.readable(&self.ids, target) {
                live_via(&self.ids, self.state.relations.rev_row(target.idx() as int), relation.0)
            } else {
                Seq::empty()
            }),
    {
        self.state.relations.get_related_to_via(&self.ids, target, relation)
    }
}

} // verus!
