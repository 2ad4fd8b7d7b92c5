//! Derivations over the world, computed on the fly and never stored: ages,
//! birthdays, whether time may flow, who the player is, obituaries, and
//! the people roster the UI lists.

use vstd::prelude::*;
use vstd::utf8::*;
use crate::entities::defs::{RelationId, SetId, UVarId};
use crate::entities::id::{EntityId, CAPACITY};
use crate::entities::relations::live_via;
use crate::game::date::{Date, date_text, days_between};
use crate::game::world::{ActivityVerb, Epoch, World};
use crate::util::text::string_push_str;
use crate::game::interaction::Interaction;
use crate::game::map::{grid_index, CellPos};
use crate::game::draw_map::{build, draw_cell, DrawMap};
use crate::game::pathfinding::Pathfinding;
use crate::game::spatial_map::SpatialMap;
use crate::game::world::WorldState;

verus! {

broadcast use encode_utf8_decode_utf8;

/// The calendar day the sim begins on: centuries after the dawn, so every
/// starting birth date fits above epoch 0.
pub const START_DAY: u64 = 252000;

/// The schema's slots the sim reads.
pub const BIRTH_EPOCH: u16 = 1;
pub const GENDER: u16 = 2;
pub const MARRIED: u16 = 0;
pub const LOCATED_IN: u16 = 1;
pub const SWORN_TO: u16 = 2;
pub const RULES: u16 = 3;
pub const PEOPLE: u16 = 1;
pub const SETTLEMENTS: u16 = 2;

/// A world the sim runs on: well formed, with the sim's schema (one var,
/// three u64 vars, four relation kinds).
pub open spec fn sim_world(w: &World) -> bool {
    &&& w.wf()
    &&& w.state.vars.stride() == 1
    &&& w.state.uvars.stride() == 3
    &&& w.state.relations.kinds() == 4
    &&& w.defs.var_names().len() == 1
    &&& w.defs.uvar_names().len() == 3
    &&& w.defs.relation_names().len() == 4
}

/// The characters of slot `id`'s name.
pub open spec fn name_chars(w: &World, id: EntityId) -> Seq<char> {
    decode_utf8(w.names.name(id.idx() as int))
}

/// Slot `id`'s name.
pub fn name_of(world: &World, id: EntityId) -> (r: &str)
    requires
        world.wf(),
        (id.idx() as int) < CAPACITY,
    ensures
        r@ == name_chars(world, id),
{
    world.names.get(id)
}

/// The epoch `id` was born at.
pub open spec fn birth(w: &World, id: EntityId) -> u64 {
    w.state.uvars.value(id.idx() as int, BIRTH_EPOCH as int)
}

/// Days since birth, whichever way around (births never postdate now).
pub open spec fn days_alive_spec(w: &World, id: EntityId) -> u64 {
    if w.epoch.0 >= birth(w, id) {
        (w.epoch.0 - birth(w, id)) as u64
    } else {
        (birth(w, id) - w.epoch.0) as u64
    }
}

pub fn days_alive(world: &World, id: EntityId) -> (d: u64)
    requires
        sim_world(world),
        (id.idx() as int) < CAPACITY,
    ensures
        d == days_alive_spec(world, id),
{
    let birth: Epoch = world.get_uvar(id, UVarId(BIRTH_EPOCH));
    days_between(world.epoch, birth)
}

/// Whole years alive.
pub open spec fn age_spec(w: &World, id: EntityId) -> u32 {
    (days_alive_spec(w, id) / 360) as u32
}

pub fn age(world: &World, id: EntityId) -> (a: u32)
    requires
        sim_world(world),
        (id.idx() as int) < CAPACITY,
    ensures
        a == age_spec(world, id),
{
    let years = days_alive(world, id) / 360;
    (#[verifier::truncate] (years as u32))
}

/// Today is a whole number of years since birth.
pub open spec fn birthday_spec(w: &World, id: EntityId) -> bool {
    days_alive_spec(w, id) % 360 == 0
}

pub fn is_birthday(world: &World, id: EntityId) -> (b: bool)
    requires
        sim_world(world),
        (id.idx() as int) < CAPACITY,
    ensures
        b == birthday_spec(world, id),
{
    days_alive(world, id) % 360 == 0
}

/// The entity tagged "player", if any.
pub open spec fn player_spec(w: &World) -> Option<EntityId> {
    if w.tags.map().contains_key("player"@) {
        Some(w.tags.map()["player"@])
    } else {
        None
    }
}

/// The player, if one is tagged; always a live entity.
pub fn player(world: &World) -> (r: Option<EntityId>)
    requires
        world.wf(),
    ensures
        r == player_spec(world),
        r is Some ==> world.ids.alive(r.unwrap()),
{
    let r = world.tags.lookup("player");
    proof {
        reveal_strlit("player");
    }
    r
}

/// What `id` is doing.
pub open spec fn activity_spec(w: &World, id: EntityId) -> crate::game::world::Activity {
    w.state.activities.row(id.idx() as int).1
}

/// The sim steps only while the player is occupied: declined while the
/// player idles or there is none.
pub open spec fn time_may_flow_spec(w: &World) -> bool {
    match player_spec(w) {
        Some(p) => activity_spec(w, p).verb != ActivityVerb::Idle,
        None => false,
    }
}

pub fn time_may_flow(world: &World) -> (b: bool)
    requires
        world.wf(),
    ensures
        b == time_may_flow_spec(world),
{
    match player(world) {
        Some(p) => world.activity(p).verb != ActivityVerb::Idle,
        None => false,
    }
}

/// The live far ends of `id`'s edges of one kind, outgoing then incoming.
pub open spec fn via_out(w: &World, id: EntityId, kind: u16) -> Seq<(EntityId, u32)> {
    if w.state.relations.readable(&w.ids, id) {
        live_via(&w.ids, w.state.relations.row(id.idx() as int), kind)
    } else {
        Seq::empty()
    }
}

pub open spec fn via_in(w: &World, id: EntityId, kind: u16) -> Seq<(EntityId, u32)> {
    if w.state.relations.readable(&w.ids, id) {
        live_via(&w.ids, w.state.relations.rev_row(id.idx() as int), kind)
    } else {
        Seq::empty()
    }
}

/// The entities of a list of (entity, weight) pairs.
pub open spec fn firsts(s: Seq<(EntityId, u32)>) -> Seq<EntityId> {
    s.map_values(|p: (EntityId, u32)| p.0)
}

/// `id`'s spouses: marriage is declared one way in the data, so both
/// directions count.
pub open spec fn spouses(w: &World, id: EntityId) -> Seq<EntityId> {
    firsts(via_out(w, id, MARRIED)) + firsts(via_in(w, id, MARRIED))
}

/// The names of `ids`, joined by `sep`.
pub open spec fn joined_names(w: &World, ids: Seq<EntityId>, sep: Seq<char>) -> Seq<char>
    decreases ids.len(),
{
    if ids.len() == 0 {
        Seq::empty()
    } else if ids.len() == 1 {
        name_chars(w, ids[0])
    } else {
        joined_names(w, ids.drop_last(), sep) + sep + name_chars(w, ids.last())
    }
}

/// The date of an epoch.
pub open spec fn date_of(e: Epoch) -> Date {
    Date { year: e.0 / 360, month: (e.0 % 360 / 30 + 1) as u64, day: (e.0 % 30 + 1) as u64 }
}

/// The obituary line for `id`.
pub open spec fn death_notice(w: &World, id: EntityId) -> Seq<char> {
    let head = date_text(date_of(w.epoch)) + ": "@ + name_chars(w, id);
    if spouses(w, id).len() == 0 {
        head + " has died."@
    } else {
        head + " has died, survived by "@ + joined_names(w, spouses(w, id), ", "@) + "."@
    }
}

/// Appends the names of `ids` to `out`, joined by `sep`.
pub fn push_joined_names(out: &mut String, world: &World, ids: &Vec<EntityId>, sep: &str)
    requires
        world.wf(),
        forall|i: int| 0 <= i < ids@.len() ==> (#[trigger] ids@[i].idx() as int) < CAPACITY,
    ensures
        final(out)@ == old(out)@ + joined_names(world, ids@, sep@),
{
    let mut i: usize = 0;
    while i < ids.len()
        invariant
            world.wf(),
            forall|j: int| 0 <= j < ids@.len() ==> (#[trigger] ids@[j].idx() as int) < CAPACITY,
            i <= ids@.len(),
            out@ == old(out)@ + joined_names(world, ids@.take(i as int), sep@),
        decreases ids@.len() - i,
    {
        let ghost before = out@;
        assert(ids@.take(i + 1).drop_last() =~= ids@.take(i as int));
        if i > 0 {
            string_push_str(out, sep);
        }
        let id = ids[i];
        string_push_str(out, name_of(world, id));
        proof {
            assert(ids@.take(i + 1).last() == id);
            if i == 0 {
                assert(ids@.take(0) =~= Seq::<EntityId>::empty());
                assert(out@ =~= old(out)@ + joined_names(world, ids@.take(1), sep@));
            } else {
                assert(out@ =~= old(out)@ + joined_names(world, ids@.take(i + 1), sep@));
            }
        }
        i = i + 1;
    }
    assert(ids@.take(i as int) =~= ids@);
}

/// The entities of a list of (entity, weight) pairs, in order.
fn firsts_of(pairs: &Vec<(EntityId, u32)>) -> (r: Vec<EntityId>)
    ensures
        r@ == firsts(pairs@),
{
    let mut r: Vec<EntityId> = Vec::new();
    let mut i: usize = 0;
    while i < pairs.len()
        invariant
            i <= pairs@.len(),
            r@ == firsts(pairs@.take(i as int)),
        decreases pairs@.len() - i,
    {
        r.push(pairs[i].0);
        assert(firsts(pairs@.take(i + 1)) =~= firsts(pairs@.take(i as int)).push(pairs@[i as int].0));
        i = i + 1;
    }
    assert(pairs@.take(i as int) =~= pairs@);
    r
}

/// Every entity an incoming query hands back is alive.
pub proof fn lemma_via_in_live(w: &World, id: EntityId, kind: u16)
    requires
        w.wf(),
    ensures
        forall|i: int| 0 <= i < via_in(w, id, kind).len() ==> w.ids.alive(#[trigger] via_in(w, id, kind)[i].0),
{
    if w.state.relations.readable(&w.ids, id) {
        lemma_live_via_slots(w, w.state.relations.rev_row(id.idx() as int), kind);
    }
}

/// Every entity a relation query hands back is alive.
proof fn lemma_live_via_slots(w: &World, row: Seq<crate::entities::relations::Edge>, kind: u16)
    requires
        w.wf(),
    ensures
        forall|i: int| 0 <= i < live_via(&w.ids, row, kind).len() ==> w.ids.alive(#[trigger] live_via(&w.ids, row, kind)[i].0),
    decreases row.len(),
{
    if row.len() > 0 {
        lemma_live_via_slots(w, row.drop_last(), kind);
        let rest = live_via(&w.ids, row.drop_last(), kind);
        assert forall|i: int| 0 <= i < live_via(&w.ids, row, kind).len() implies w.ids.alive(
            #[trigger] live_via(&w.ids, row, kind)[i].0,
        ) by {
            if i < rest.len() {
                assert(live_via(&w.ids, row, kind)[i] == rest[i]);
            }
        }
    }
}

/// The obituary for `id`: "<date>: <name> has died[, survived by <spouses>]."
/// Reads the deceased's name and marriages, so it runs between the mark
/// and the sweep.
pub fn report_death(world: &World, id: EntityId) -> (s: String)
    requires
        sim_world(world),
        (id.idx() as int) < CAPACITY,
    ensures
        s@ == death_notice(world, id),
{
    let out = world.related_via(id, RelationId(MARRIED));
    let inc = world.related_to_via(id, RelationId(MARRIED));
    let mut ids = firsts_of(&out);
    let mut more = firsts_of(&inc);
    ids.append(&mut more);
    proof {
        if world.state.relations.readable(&world.ids, id) {
            lemma_live_via_slots(world, world.state.relations.row(id.idx() as int), MARRIED);
            lemma_live_via_slots(world, world.state.relations.rev_row(id.idx() as int), MARRIED);
        }
        assert(ids@ == spouses(world, id));
        assert forall|i: int| 0 <= i < ids@.len() implies (#[trigger] ids@[i].idx() as int) < CAPACITY by {
            if i < firsts(via_out(world, id, MARRIED)).len() {
                assert(ids@[i] == via_out(world, id, MARRIED)[i].0);
            } else {
                let j = i - firsts(via_out(world, id, MARRIED)).len();
                assert(ids@[i] == via_in(world, id, MARRIED)[j].0);
            }
        }
    }
    let mut s = Date::of(world.epoch).to_string();
    string_push_str(&mut s, ": ");
    string_push_str(&mut s, name_of(world, id));
    if ids.len() == 0 {
        string_push_str(&mut s, " has died.");
    } else {
        string_push_str(&mut s, " has died, survived by ");
        push_joined_names(&mut s, world, &ids, ", ");
        string_push_str(&mut s, ".");
    }
    proof {
        reveal_strlit(": ");
        reveal_strlit(" has died.");
        reveal_strlit(" has died, survived by ");
        reveal_strlit(", ");
        reveal_strlit(".");
    }
    s
}


/// No activity began after now.
pub open spec fn starts_past(w: &World) -> bool {
    forall|i: int| 0 <= i < CAPACITY ==> (#[trigger] w.state.activities.row(i)).1.start.0 <= w.epoch.0
}

/// An open interaction's choices all concern real slots.
pub open spec fn interaction_ok(i: Option<Interaction>) -> bool {
    match i {
        Some(i) => forall|k: int| 0 <= k < i.choices@.len() ==> (#[trigger] i.choices@[k].params.target.idx() as int) < CAPACITY,
        None => true,
    }
}

/// The sim: the world, the day pass's staging buffer, the derived route
/// memo and cell index, and the open interaction, if any.
pub struct Game {
    pub world: World,
    /// The day pass writes here while reading the world, then the two
    /// swap; never read meanwhile.
    pub staging: WorldState,
    /// Derived route memory, not world state: rebuilt from nothing.
    pub pathfinding: Pathfinding,
    /// The cell → entities index, re-derived after everything that moves
    /// or removes people.
    pub spatial_map: SpatialMap,
    /// The open interaction: modal choice state beside the world. While
    /// one is open, time does not flow.
    pub interaction: Option<Interaction>,
}

impl Game {
    /// Every part in order: the world with the sim's schema, a staging
    /// buffer of the same shape, and an interaction about real entities.
    pub open spec fn wf(&self) -> bool {
        &&& sim_world(&self.world)
        &&& starts_past(&self.world)
        &&& self.staging.wf()
        &&& self.staging.vars.stride() == 1
        &&& self.staging.uvars.stride() == 3
        &&& self.staging.relations.kinds() == 4
        &&& self.pathfinding.wf()
        &&& self.pathfinding.consistent(&self.world.map)
        &&& self.spatial_map.wf()
        &&& interaction_ok(self.interaction)
    }

    /// A sim over `world`, with nothing open and the cell index derived.
    pub fn with_world(world: World) -> (g: Game)
        requires
            sim_world(&world),
            starts_past(&world),
        ensures
            g.wf(),
            g.world == world,
            g.interaction is None,
    {
        let staging = WorldState::new(&world.defs);
        let mut spatial_map = SpatialMap::new();
        spatial_map.rebuild(&world);
        let pathfinding = Pathfinding::new();
        let g = Game { world, staging, pathfinding, spatial_map, interaction: None };
        g
    }

    /// The map's render model for this frame, read-only: every cell's fill
    /// and dot, decided here.
    pub fn draw_map(&self) -> (m: DrawMap)
        requires
            self.wf(),
        ensures
            m.width == self.world.map.grid_width(),
            m.height == self.world.map.grid_height(),
            m.cells@.len() == m.width * m.height,
            forall|x: int, y: int|
                0 <= x < m.width && 0 <= y < m.height ==> #[trigger] m.cells@[grid_index(x, y, m.width as int)]
                    == draw_cell(&self.world, x, y),
    {
        build(&self.world)
    }

    /// The entity a click on this cell lands on; null = nothing there.
    /// Settlements for now: the cell's blob owner.
    pub fn entity_at(&self, pos: CellPos) -> (id: EntityId)
        requires
            self.wf(),
        ensures
            id == self.world.map.cell_at(pos.x as int, pos.y as int).settlement,
    {
        self.world.map.cell(pos).settlement
    }

    /// Where an entity sits on the board; the zero cell = it has no cells.
    pub fn anchor(&self, id: EntityId) -> (p: CellPos)
        requires
            self.wf(),
        ensures
            (exists|i: int| 0 <= i < self.world.map.anchor_seq().len() && (#[trigger] self.world.map.anchor_seq()[i]).0 == id
                && p == self.world.map.anchor_seq()[i].1) || ((forall|i: int| 0 <= i < self.world.map.anchor_seq().len()
                ==> (#[trigger] self.world.map.anchor_seq()[i]).0 != id) && p == (CellPos { x: 0, y: 0 })),
    {
        self.world.map.anchor(id)
    }
}

} // verus!
