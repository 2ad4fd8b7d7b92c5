//! The schema: which vars, relations and sets exist, as enums bridged onto
//! the entity ids. Definition order is identity.

use vstd::prelude::*;
use vstd::std_specs::convert::FromSpecImpl;
use crate::entities::defs::{Definitions, RelationId, SetId, UVarId, VarId};
use crate::entities::id::{EntityId, Ids};
use crate::entities::uvars::Bits64;
use crate::game::map::{CellPos, WorldMap};
use crate::game::world::World;

verus! {

/// The scalar vars.
#[derive(Clone, Copy, PartialEq, Eq, Structural, Debug)]
pub enum Var {
    Dummy,
}

impl Var {
    fn name(&self) -> (r: &'static str)
        ensures
            *self == Var::Dummy ==> r@ == "Dummy"@,
    {
        match self {
            Var::Dummy => "Dummy",
        }
    }
}

impl From<Var> for VarId {
    fn from(value: Var) -> (r: VarId) {
        match value {
            Var::Dummy => VarId(0),
        }
    }
}

impl FromSpecImpl<Var> for VarId {
    open spec fn obeys_from_spec() -> bool {
        true
    }

    open spec fn from_spec(v: Var) -> VarId {
        match v {
            Var::Dummy => VarId(0),
        }
    }
}

/// A person's gender, as stored in a u64 slot.
#[derive(Clone, Copy, PartialEq, Eq, Structural, Debug)]
pub enum Gender {
    Male,
    Female,
}

impl Default for Gender {
    fn default() -> (g: Gender)
        ensures
            g == Gender::Male,
    {
        Gender::Male
    }
}

impl Bits64 for Gender {
    open spec fn bits_of(self) -> u64 {
        match self {
            Gender::Male => 0,
            Gender::Female => 1,
        }
    }

    open spec fn from_bits_spec(bits: u64) -> Gender {
        if bits == 1 {
            Gender::Female
        } else {
            Gender::Male
        }
    }

    fn to_bits(self) -> (r: u64) {
        match self {
            Gender::Male => 0,
            Gender::Female => 1,
        }
    }

    fn from_bits(bits: u64) -> (r: Gender) {
        if bits == 1 {
            Gender::Female
        } else {
            Gender::Male
        }
    }

    proof fn lemma_round_trip(x: Gender) {
    }
}

/// The u64 vars: epochs, handles, and weak entity refs.
#[derive(Clone, Copy, PartialEq, Eq, Structural, Debug)]
pub enum UVar {
    Dummy,
    /// The epoch a person was born at; age and birthdays derive from it.
    BirthEpoch,
    /// Male or Female.
    Gender,
}

impl UVar {
    fn name(&self) -> (r: &'static str)
        ensures
            *self == UVar::Dummy ==> r@ == "Dummy"@,
            *self == UVar::BirthEpoch ==> r@ == "BirthEpoch"@,
            *self == UVar::Gender ==> r@ == "Gender"@,
    {
        match self {
            UVar::Dummy => "Dummy",
            UVar::BirthEpoch => "BirthEpoch",
            UVar::Gender => "Gender",
        }
    }
}

impl From<UVar> for UVarId {
    fn from(value: UVar) -> (r: UVarId) {
        match value {
            UVar::Dummy => UVarId(0),
            UVar::BirthEpoch => UVarId(1),
            UVar::Gender => UVarId(2),
        }
    }
}

impl FromSpecImpl<UVar> for UVarId {
    open spec fn obeys_from_spec() -> bool {
        true
    }

    open spec fn from_spec(v: UVar) -> UVarId {
        match v {
            UVar::Dummy => UVarId(0),
            UVar::BirthEpoch => UVarId(1),
            UVar::Gender => UVarId(2),
        }
    }
}

/// The relation kinds.
#[derive(Clone, Copy, PartialEq, Eq, Structural, Debug)]
pub enum Relation {
    Married,
    /// Character → settlement, the logical mirror of position: it follows
    /// the positions column, re-derived every rebuild.
    LocatedIn,
    /// Character → character: a personal oath of service.
    SwornTo,
    /// Character → settlement: personal rule over a place.
    Rules,
}

/// The kind a raw relation id names, if any.
pub open spec fn relation_of(id: u16) -> Option<Relation> {
    if id == 0 {
        Some(Relation::Married)
    } else if id == 1 {
        Some(Relation::LocatedIn)
    } else if id == 2 {
        Some(Relation::SwornTo)
    } else if id == 3 {
        Some(Relation::Rules)
    } else {
        None
    }
}

impl Relation {
    fn name(&self) -> (r: &'static str)
        ensures
            *self == Relation::Married ==> r@ == "Married"@,
            *self == Relation::LocatedIn ==> r@ == "LocatedIn"@,
            *self == Relation::SwornTo ==> r@ == "SwornTo"@,
            *self == Relation::Rules ==> r@ == "Rules"@,
    {
        match self {
            Relation::Married => "Married",
            Relation::LocatedIn => "LocatedIn",
            Relation::SwornTo => "SwornTo",
            Relation::Rules => "Rules",
        }
    }

    /// The kind a raw relation id names, if any.
    pub fn from_id(id: RelationId) -> (r: Option<Relation>)
        ensures
            r == relation_of(id.0),
    {
        if id.0 == 0 {
            Some(Relation::Married)
        } else if id.0 == 1 {
            Some(Relation::LocatedIn)
        } else if id.0 == 2 {
            Some(Relation::SwornTo)
        } else if id.0 == 3 {
            Some(Relation::Rules)
        } else {
            None
        }
    }

    /// Derived relations are never written: every rebuild recomputes them
    /// from world state, so they can't drift from what they mirror.
    pub fn is_derived(self) -> (b: bool)
        ensures
            b == (self == Relation::LocatedIn),
    {
        match self {
            Relation::LocatedIn => true,
            _ => false,
        }
    }
}

/// Whether a raw relation id names a derived kind — the rebuild's carry
/// drops these and re-derives them instead.
pub open spec fn derived_id(id: u16) -> bool {
    relation_of(id) == Some(Relation::LocatedIn)
}

/// Whether a raw relation id names a derived kind.
pub fn is_derived_id(id: RelationId) -> (b: bool)
    ensures
        b == derived_id(id.0),
{
    match Relation::from_id(id) {
        Some(r) => r.is_derived(),
        None => false,
    }
}

impl From<Relation> for RelationId {
    fn from(value: Relation) -> (r: RelationId) {
        match value {
            Relation::Married => RelationId(0),
            Relation::LocatedIn => RelationId(1),
            Relation::SwornTo => RelationId(2),
            Relation::Rules => RelationId(3),
        }
    }
}

impl FromSpecImpl<Relation> for RelationId {
    open spec fn obeys_from_spec() -> bool {
        true
    }

    open spec fn from_spec(v: Relation) -> RelationId {
        match v {
            Relation::Married => RelationId(0),
            Relation::LocatedIn => RelationId(1),
            Relation::SwornTo => RelationId(2),
            Relation::Rules => RelationId(3),
        }
    }
}

/// The settlement an entity standing at `pos` is in: the live blob owner of
/// the cell, or null. The zero position is nowhere.
pub open spec fn located_spec(pos: CellPos, map: &WorldMap, ids: &Ids) -> EntityId {
    if pos == (CellPos { x: 0, y: 0 }) {
        EntityId::null_spec()
    } else if ids.alive(map.cell_at(pos.x as int, pos.y as int).settlement) {
        map.cell_at(pos.x as int, pos.y as int).settlement
    } else {
        EntityId::null_spec()
    }
}

/// The settlement an entity standing at `pos` is in — the live blob owner
/// of the cell, or null: the zero position is nowhere, and cells outside
/// any blob carry no settlement.
pub fn located_at(pos: CellPos, map: &WorldMap, ids: &Ids) -> (place: EntityId)
    requires
        map.wf(),
        ids.wf(),
    ensures
        place == located_spec(pos, map, ids),
{
    if pos == CellPos::default() {
        return EntityId::null();
    }
    let place = map.cell(pos).settlement;
    if ids.is_alive(place) {
        place
    } else {
        EntityId::null()
    }
}

/// The set kinds.
#[derive(Clone, Copy, PartialEq, Eq, Structural, Debug)]
pub enum SetKind {
    Dummy,
    People,
    Settlements,
}

impl SetKind {
    fn name(&self) -> (r: &'static str)
        ensures
            *self == SetKind::Dummy ==> r@ == "Dummy"@,
            *self == SetKind::People ==> r@ == "People"@,
            *self == SetKind::Settlements ==> r@ == "Settlements"@,
    {
        match self {
            SetKind::Dummy => "Dummy",
            SetKind::People => "People",
            SetKind::Settlements => "Settlements",
        }
    }

    /// The set kind a raw set id names, if any.
    pub fn from_id(id: SetId) -> (r: Option<SetKind>)
        ensures
            r == (if id.0 == 0 {
                Some(SetKind::Dummy)
            } else if id.0 == 1 {
                Some(SetKind::People)
            } else if id.0 == 2 {
                Some(SetKind::Settlements)
            } else {
                None
            }),
    {
        if id.0 == 0 {
            Some(SetKind::Dummy)
        } else if id.0 == 1 {
            Some(SetKind::People)
        } else if id.0 == 2 {
            Some(SetKind::Settlements)
        } else {
            None
        }
    }
}

impl From<SetKind> for SetId {
    fn from(value: SetKind) -> (r: SetId) {
        match value {
            SetKind::Dummy => SetId(0),
            SetKind::People => SetId(1),
            SetKind::Settlements => SetId(2),
        }
    }
}

impl FromSpecImpl<SetKind> for SetId {
    open spec fn obeys_from_spec() -> bool {
        true
    }

    open spec fn from_spec(v: SetKind) -> SetId {
        match v {
            SetKind::Dummy => SetId(0),
            SetKind::People => SetId(1),
            SetKind::Settlements => SetId(2),
        }
    }
}

/// The game's schema, defined in enum order so each enum's value is its
/// id, and a fresh world on it.
pub fn init_world(seed: u64) -> (w: World)
    ensures
        w.wf(),
        w.epoch.0 == 0,
        w.seed == seed,
        w.defs.var_names() == seq!["Dummy"@],
        w.defs.uvar_names() == seq!["Dummy"@, "BirthEpoch"@, "Gender"@],
        w.defs.relation_names() == seq!["Married"@, "LocatedIn"@, "SwornTo"@, "Rules"@],
        w.defs.set_names() == seq!["Dummy"@, "People"@, "Settlements"@],
        w.state.vars.stride() == 1,
        w.state.uvars.stride() == 3,
        w.state.relations.kinds() == 4,
        forall|id: EntityId| !(#[trigger] w.ids.alive(id)),
        w.ids.can_spawn(),
{
    let mut defs = Definitions::default();
    defs.define_var(Var::Dummy.name());
    defs.define_uvar(UVar::Dummy.name());
    defs.define_uvar(UVar::BirthEpoch.name());
    defs.define_uvar(UVar::Gender.name());
    defs.define_relation(Relation::Married.name());
    defs.define_relation(Relation::LocatedIn.name());
    defs.define_relation(Relation::SwornTo.name());
    defs.define_relation(Relation::Rules.name());
    defs.define_set(SetKind::Dummy.name());
    defs.define_set(SetKind::People.name());
    defs.define_set(SetKind::Settlements.name());
    assert(defs.var_names() =~= seq!["Dummy"@]);
    assert(defs.uvar_names() =~= seq!["Dummy"@, "BirthEpoch"@, "Gender"@]);
    assert(defs.relation_names() =~= seq!["Married"@, "LocatedIn"@, "SwornTo"@, "Rules"@]);
    assert(defs.set_names() =~= seq!["Dummy"@, "People"@, "Settlements"@]);
    World::new(defs, seed)
}

} // verus!
