//! One step of the sim: `tick` takes a frame's worth of intent and advances
//! the world, the sole entry point that mutates it. The entity pass reads
//! the frozen world and writes the staging buffer; whatever a day changes
//! beyond an entity's own rows is recorded as an event and resolved after
//! the swap.
//!
//! The sim's dice are its own (`Rng`, keyed per roll site); what a draw
//! means against a probability is the caller's `roll` function, which the
//! sim's logic holds for every answer it may give.

use vstd::prelude::*;
use crate::entities::defs::{RelationId, SetId, UVarId};
use crate::entities::id::{EntityId, CAPACITY, killed_in, slot_after_kills, swept_ids, swept_to};
use crate::entities::relations::{
    apply_changes, carried, carried_base, change_ok, policy_ok, rebuilt_row, row_map, slot_changes, EdgeKey, RelationEntry,
    Relations, is_nan_bits, live_via,
    is_zero_bits,
};
use crate::entities::uvars::Bits64;
use crate::game::command::{Command, Event, EventKind, Output};
use crate::game::defs::{derived_id, is_derived_id, located_at, located_spec, Gender};
use crate::game::game::{
    activity_spec, age, age_spec, birth, birthday_spec, days_alive_spec, is_birthday, name_of, player, player_spec, report_death, sim_world, starts_past, time_may_flow,
    time_may_flow_spec, Game, interaction_ok, GENDER, LOCATED_IN, PEOPLE, RULES,
};
use crate::game::interaction::{apply, arrival, arrival_view, company_view, rested, resting_from, view_opt, ChoiceParams, Effect};
use crate::game::map::CellPos;
use crate::game::pathfinding::{answer, astar_route, grid_cell_at, hop_ok, lemma_step_facts, steps_to, Pathfinding};
use crate::game::world::{Activity, ActivityVerb, Epoch, World, WorldState, idle_activity};
use crate::util::rng::{effective_state, scramble, xorshift, Rng};
use crate::util::text::string_push_str;

verus! {

/// What a draw is rolled against: the idle wander, or the mortality ramp at
/// an age (no chance up to 60 years, certain death at 90).
#[derive(Clone, Copy, PartialEq, Eq, Structural, Debug)]
pub enum Odds {
    Wander,
    Mortality(u32),
}

/// Where an idle person decided to go, and why.
pub struct DecideDestination {
    pub reason: &'static str,
    pub destination: CellPos,
}

/// The rows of the world's cells: `1.0`, the weight every LocatedIn edge
/// carries, as `f32` bits.
pub const UNIT_WEIGHT: u32 = 0x3F80_0000;

/// Chunk size of the day pass: one chunk's rows carry forward, then its
/// entities update.
pub const CHUNK_SIZE: usize = 1024;

/// The roll function answers every draw.
pub open spec fn rolls_total<R: Fn(u64, Odds) -> bool>(roll: R) -> bool {
    forall|d: u64, o: Odds| #[trigger] roll.requires((d, o))
}

/// The mortality roll took `x` on `w`'s day: it is their birthday, and
/// the roll answered a draw at their age with death.
pub open spec fn died_of_age<R: Fn(u64, Odds) -> bool>(w: &World, x: EntityId, roll: R) -> bool {
    &&& birthday_spec(w, x)
    &&& exists|d: u64| #[trigger] roll.ensures((d, Odds::Mortality(age_spec(w, x))), true)
}

/// The mortality roll takes `x` for certain on `w`'s day: a person on
/// their birthday, and every draw at their age answers death.
pub open spec fn doomed<R: Fn(u64, Odds) -> bool>(w: &World, x: EntityId, roll: R) -> bool {
    &&& w.ids.member(x, PEOPLE as int)
    &&& birthday_spec(w, x)
    &&& forall|d: u64, b: bool| #[trigger] roll.ensures((d, Odds::Mortality(age_spec(w, x))), b) ==> b
}

/// Each live entity in the slots below `upto` whom `w`'s day dooms is
/// among the subjects of `events`' deaths.
pub open spec fn doomed_recorded<R: Fn(u64, Odds) -> bool>(w: &World, upto: int, events: Seq<Event>, roll: R) -> bool {
    forall|i: int|
        0 <= i < upto && (#[trigger] w.ids.slot(i)).valid() && doomed(w, w.ids.slot(i), roll) ==> death_subjects(
            events,
        ).contains(w.ids.slot(i))
}

/// The wander roll came up: some draw the roll answered with setting out.
pub open spec fn wandered<R: Fn(u64, Odds) -> bool>(roll: R) -> bool {
    exists|d: u64| #[trigger] roll.ensures((d, Odds::Wander), true)
}

/// The subjects of the death events among `events`, in order.
pub open spec fn death_subjects(events: Seq<Event>) -> Seq<EntityId>
    decreases events.len(),
{
    if events.len() == 0 {
        Seq::empty()
    } else if events.last().kind == EventKind::Death {
        death_subjects(events.drop_last()).push(events.last().subject)
    } else {
        death_subjects(events.drop_last())
    }
}

/// What an entity standing in `place` records of where it is: one LocatedIn
/// edge of unit weight toward the settlement, none when it is nowhere.
pub open spec fn location_changes(this: EntityId, place: EntityId) -> Seq<RelationEntry> {
    if place == EntityId::null_spec() {
        Seq::empty()
    } else {
        seq![RelationEntry { source: this, relation: RelationId(LOCATED_IN), target: place, value: UNIT_WEIGHT }]
    }
}

/// A row's LocatedIn edges: exactly one, of unit weight, toward `place`; or
/// none when `place` is null.
pub open spec fn located_row(m: Map<EdgeKey, u32>, place: EntityId) -> bool {
    &&& forall|k: EdgeKey|
        k.0 == LOCATED_IN && #[trigger] m.contains_key(k) ==> place != EntityId::null_spec() && k.1 == place
    &&& place != EntityId::null_spec() ==> m.contains_key((LOCATED_IN, place)) && m[(LOCATED_IN, place)] == UNIT_WEIGHT
}

/// Appending an entity's location changes touches only its own slot's
/// changes.
proof fn lemma_slot_changes_append(c: Seq<RelationEntry>, this: EntityId, place: EntityId, s: int)
    ensures
        slot_changes(c + location_changes(this, place), s) == slot_changes(c, s) + if this.idx() == s {
            location_changes(this, place)
        } else {
            Seq::empty()
        },
{
    let l = location_changes(this, place);
    if place == EntityId::null_spec() {
        assert(c + l =~= c);
        assert(slot_changes(c, s) + Seq::<RelationEntry>::empty() =~= slot_changes(c, s));
    } else {
        assert((c + l).drop_last() =~= c);
        assert((c + l).last() == l[0]);
        if this.idx() == s {
            assert(slot_changes(c, s).push(l[0]) =~= slot_changes(c, s) + l);
        } else {
            assert(slot_changes(c, s) + Seq::<RelationEntry>::empty() =~= slot_changes(c, s));
        }
    }
}

/// A rebuild that carries no LocatedIn edges over and lands one entity's
/// location changes leaves that entity's row located in `place`.
proof fn lemma_located_row<F: Fn(RelationId) -> bool>(
    previous: &Relations,
    ids: &crate::entities::id::Ids,
    carries: F,
    s: int,
    place: EntityId,
)
    requires
        !carried(carries, LOCATED_IN),
    ensures
        located_row(
            apply_changes(carried_base(previous, ids, carries, s), location_changes(ids.slot(s), place), ids.slot(s)),
            place,
        ),
{
    let base = carried_base(previous, ids, carries, s);
    let owner = ids.slot(s);
    let l = location_changes(owner, place);
    assert forall|k: EdgeKey| k.0 == LOCATED_IN implies !#[trigger] base.contains_key(k) by {
    }
    if place == EntityId::null_spec() {
        assert(apply_changes(base, l, owner) == base);
    } else {
        assert(l.drop_last() =~= Seq::<RelationEntry>::empty());
        assert(apply_changes(base, l.drop_last(), owner) == base);
        assert(!is_zero_bits(UNIT_WEIGHT)) by {
            assert(0x3F80_0000u32 & 0x7fff_ffffu32 != 0) by (bit_vector);
        }
        assert(apply_changes(base, l, owner) == base.insert((LOCATED_IN, place), UNIT_WEIGHT));
    }
}

/// The places `this` rules, as the world's relation reads them.
pub open spec fn ruled(world: &World, this: EntityId) -> Seq<(EntityId, u32)> {
    if world.state.relations.readable(&world.ids, this) {
        live_via(&world.ids, world.state.relations.row(this.idx() as int), RULES)
    } else {
        Seq::empty()
    }
}

/// Where an idle entity would set out for, given the generator's state
/// after the wander draw: the anchor of the first place it rules, or else
/// the anchor of a settlement picked by the next draw.
pub open spec fn wander_target(world: &World, this: EntityId, after_draw: u64) -> CellPos {
    if ruled(world, this).len() > 0 {
        world.map.anchor_of(ruled(world, this)[0].0)
    } else {
        let pick = scramble(xorshift(effective_state(after_draw)));
        world.map.anchor_seq()[((pick as usize) as int) % (world.map.anchor_seq().len() as int)].1
    }
}

/// Idle people sometimes set out: to the place they rule, or to a random
/// settlement's anchor. None when the roll fails or they'd go nowhere.
fn decide_destination<R: Fn(u64, Odds) -> bool>(this: EntityId, world: &World, rng: &mut Rng, roll: &R) -> (r: Option<
    DecideDestination,
>)
    requires
        sim_world(world),
        world.ids.alive(this),
        world.map.anchor_seq().len() > 0,
        rolls_total(*roll),
    ensures
        r is Some ==> r.unwrap().destination != world.state.positions.row(this.idx() as int).1,
        r is Some ==> wandered(*roll),
        ({
            let s1 = xorshift(effective_state(old(rng).0));
            let d1 = scramble(s1);
            let dest = wander_target(world, this, s1);
            let s2 = if ruled(world, this).len() > 0 {
                s1
            } else {
                xorshift(effective_state(s1))
            };
            ||| r is None && final(rng).0 == s1 && roll.ensures((d1, Odds::Wander), false)
            ||| roll.ensures((d1, Odds::Wander), true) && final(rng).0 == s2 && (r is Some <==> dest
                != world.state.positions.row(this.idx() as int).1) && (r is Some ==> r.unwrap().destination == dest
                && r.unwrap().reason@ == if ruled(world, this).len() > 0 {
                "to return to the land ruled"@
            } else {
                "as random travel"@
            })
        }),
{
    let draw = rng.next_u64();
    if !roll(draw, Odds::Wander) {
        return None;
    }
    let rules = world.related_via(this, RelationId(RULES));
    let reason: &'static str;
    let destination: CellPos;
    if rules.len() > 0 {
        reason = "to return to the land ruled";
        destination = world.map.anchor(rules[0].0);
    } else {
        reason = "as random travel";
        let anchors = world.map.anchors();
        let count = anchors.len();
        let pick_draw = rng.next_u64();
        let pick = (#[verifier::truncate] (pick_draw as usize)) % count;
        destination = anchors[pick].1;
    }
    if destination == world.position(this) {
        None
    } else {
        Some(DecideDestination { reason, destination })
    }
}

/// An entity's activity as its day finds it: one that came due is over.
pub open spec fn current_activity(w: &World, this: EntityId) -> Activity {
    let a = activity_spec(w, this);
    if a.until.0 <= w.epoch.0 {
        idle_activity()
    } else {
        a
    }
}

/// Slot `i`'s entity is under way on `w`'s day toward a goal it is not at
/// and that a route reaches, on a map whose zero cell ("nowhere") cannot be
/// entered: its day must move it.
pub open spec fn must_move(w: &World, i: int) -> bool {
    let a = current_activity(w, w.ids.slot(i));
    let pos = w.state.positions.row(i).1;
    &&& a.verb == ActivityVerb::Travel
    &&& pos != a.destination
    &&& astar_route(w.map.cells(), w.map.grid_width(), w.map.grid_height(), pos, a.destination) is Some
    &&& grid_cell_at(w.map.cells(), w.map.grid_width(), w.map.grid_height(), CellPos { x: 0, y: 0 }).cost == 0
}

/// One entity's day, from its own point of view: read the frozen world,
/// write only this entity's rows in `out` (which already carry yesterday's
/// values). Anything beyond its own rows goes out as an event or a
/// relation change.
fn update_entity<R: Fn(u64, Odds) -> bool>(
    this: EntityId,
    is_player: bool,
    world: &World,
    out: &mut WorldState,
    events: &mut Vec<Event>,
    changes: &mut Vec<RelationEntry>,
    pathfinding: &mut Pathfinding,
    roll: &R,
    log: &mut Vec<String>,
)
    requires
        sim_world(world),
        starts_past(world),
        world.ids.alive(this),
        world.map.anchor_seq().len() > 0,
        rolls_total(*roll),
        old(out).wf(),
        old(out).vars.stride() == 1,
        old(out).uvars.stride() == 3,
        old(out).relations.kinds() == 4,
        old(out).positions.row(this.idx() as int) == world.state.positions.row(this.idx() as int),
        old(pathfinding).wf(),
        old(pathfinding).consistent(&world.map),
    ensures
        final(pathfinding).consistent(&world.map),
        ({
            let a = current_activity(world, this);
            let pos = world.state.positions.row(this.idx() as int).1;
            let next = answer(
                old(pathfinding).memo(),
                world.map.cells(),
                world.map.grid_width(),
                world.map.grid_height(),
                pos,
                a.destination,
            ).1;
            let nowhere = CellPos { x: 0, y: 0 };
            let fin = final(out).activities.row(this.idx() as int).1;
            a.verb == ActivityVerb::Travel ==> {
                &&& hop_ok(world.map.cells(), world.map.grid_width(), world.map.grid_height(), pos, a.destination, next)
                &&& final(out).positions.row(this.idx() as int).1 == if next == nowhere {
                    pos
                } else {
                    next
                }
                &&& next != nowhere && next != a.destination ==> fin == a
                &&& next == nowhere || next == a.destination ==> fin.verb == ActivityVerb::Idle || (!is_player
                    && world.ids.member(this, PEOPLE as int) && wandered(*roll))
            }
        }),
        current_activity(world, this).verb != ActivityVerb::Travel ==> final(out).positions.row(this.idx() as int).1
            == world.state.positions.row(this.idx() as int).1,
        final(out).wf(),
        final(out).vars == old(out).vars,
        final(out).uvars == old(out).uvars,
        final(out).relations == old(out).relations,
        final(pathfinding).wf(),
        final(out).activities.row(this.idx() as int).0 == this,
        final(out).activities.row(this.idx() as int).1.start.0 <= world.epoch.0,
        final(out).positions.row(this.idx() as int) == old(out).positions.row(this.idx() as int)
            || final(out).positions.row(this.idx() as int).0 == this,
        final(out).positions.row(this.idx() as int) != old(out).positions.row(this.idx() as int)
            ==> world.state.activities.row(this.idx() as int).1.verb == ActivityVerb::Travel,
        final(out).activities.row(this.idx() as int).1.verb == ActivityVerb::Travel ==> world.state.activities.row(
            this.idx() as int,
        ).1.verb == ActivityVerb::Travel || (!is_player && world.ids.member(this, PEOPLE as int) && wandered(*roll)),
        forall|i: int| 0 <= i < CAPACITY && i != this.idx() ==> #[trigger] final(out).activities.row(i) == old(out).activities.row(i),
        forall|i: int| 0 <= i < CAPACITY && i != this.idx() ==> #[trigger] final(out).positions.row(i) == old(out).positions.row(i),
        final(events)@.len() >= old(events)@.len(),
        final(events)@.subrange(0, old(events)@.len() as int) == old(events)@,
        forall|k: int| old(events)@.len() <= k < final(events)@.len() ==> (#[trigger] final(events)@[k]).subject == this,
        forall|k: int|
            old(events)@.len() <= k < final(events)@.len() && (#[trigger] final(events)@[k]).kind == EventKind::Arrival
                ==> world.ids.alive(final(events)@[k].target),
        forall|k: int|
            old(events)@.len() <= k < final(events)@.len() && (#[trigger] final(events)@[k]).kind == EventKind::Death
                ==> died_of_age(world, this, *roll),
        final(changes)@.len() >= old(changes)@.len(),
        final(changes)@.subrange(0, old(changes)@.len() as int) == old(changes)@,
        forall|k: int| old(changes)@.len() <= k < final(changes)@.len() ==> change_ok(&world.ids, 4, #[trigger] final(changes)@[k]),
        final(changes)@ == old(changes)@ + location_changes(
            this,
            located_spec(final(out).positions.row(this.idx() as int).1, &world.map, &world.ids),
        ),
        death_subjects(final(events)@) == death_subjects(old(events)@) || death_subjects(final(events)@) == death_subjects(
            old(events)@,
        ).push(this),
        doomed(world, this, *roll) ==> death_subjects(final(events)@) == death_subjects(old(events)@).push(this),
{
    let is_person = world.ids.in_set(this, SetId(PEOPLE));
    let mut rng = Rng::at(world.seed, world.epoch.0, this.to_bits());
    let mut activity = world.activity(this);
    let mut pos = world.position(this);
    let ghost first_event = events@.len();

    // Resolve an activity that came due.
    if activity.until.0 <= world.epoch.0 {
        activity = Activity::default();
    }

    // Travel: one cell per day toward the target, re-asked from the
    // current cell each day.
    if activity.verb == ActivityVerb::Travel {
        let next = pathfinding.next_step(&world.map, pos, activity.destination);
        if next == CellPos::default() {
            activity = Activity::default();
        } else {
            pos = next;
            out.positions.set(this, next);
            if next == activity.destination {
                activity = Activity::default();
                let place = world.map.cell(next).settlement;
                if world.ids.is_alive(place) {
                    let ghost e0 = events@;
                    events.push(Event { kind: EventKind::Arrival, subject: this, target: place });
                    proof {
                        assert(events@.drop_last() =~= e0);
                    }
                }
            }
        }
    }

    // People randomly travel if idle.
    if !is_player && is_person && activity.verb == ActivityVerb::Idle {
        match decide_destination(this, world, &mut rng, roll) {
            Some(decision) => {
                let mut line = String::new();
                string_push_str(&mut line, name_of(world, this));
                string_push_str(&mut line, ": ");
                string_push_str(&mut line, decision.reason);
                log.push(line);
                activity = Activity {
                    verb: ActivityVerb::Travel,
                    start: world.epoch,
                    until: Epoch::never(),
                    destination: decision.destination,
                };
            },
            None => {},
        }
    }

    let ghost e1 = events@;
    proof {
        assert(death_subjects(e1) == death_subjects(old(events)@));
    }
    // On birthdays, roll the mortality ramp. Only people age.
    if is_person && is_birthday(world, this) {
        let years = age(world, this);
        let draw = rng.next_u64();
        if roll(draw, Odds::Mortality(years)) {
            events.push(Event { kind: EventKind::Death, subject: this, target: EntityId::null() });
            proof {
                assert(events@.drop_last() =~= e1);
            }
        }
    }

    proof {
        assert(world.state.activities.row(this.idx() as int).1.start.0 <= world.epoch.0);
    }
    out.activities.set(this, activity);
    let place = located_at(pos, &world.map, &world.ids);
    if place != EntityId::null() {
        changes.push(RelationEntry { source: this, relation: RelationId(LOCATED_IN), target: place, value: UNIT_WEIGHT });
    }
    proof {
        assert(0x3F80_0000u32 & 0x7f80_0000u32 != 0x7f80_0000u32) by (bit_vector);
        assert(0x3F80_0000u32 & 0x7fff_ffffu32 != 0) by (bit_vector);
        assert(events@.subrange(0, first_event as int) =~= old(events)@);
        assert(changes@.subrange(0, old(changes)@.len() as int) =~= old(changes)@);
        assert(out.positions.row(this.idx() as int).1 == pos);
        assert(changes@ =~= old(changes)@ + location_changes(this, place));
    }
}


/// One more slot's update keeps every doomed entity so far recorded.
proof fn lemma_doomed_step<R: Fn(u64, Odds) -> bool>(w: &World, slot: int, before: Seq<Event>, after: Seq<Event>, roll: R)
    requires
        doomed_recorded(w, slot, before, roll),
        death_subjects(after) == death_subjects(before) || death_subjects(after) == death_subjects(before).push(
            w.ids.slot(slot),
        ),
        w.ids.slot(slot).valid() && doomed(w, w.ids.slot(slot), roll) ==> death_subjects(after) == death_subjects(
            before,
        ).push(w.ids.slot(slot)),
    ensures
        doomed_recorded(w, slot + 1, after, roll),
{
    assert forall|i: int|
        0 <= i < slot + 1 && (#[trigger] w.ids.slot(i)).valid() && doomed(w, w.ids.slot(i), roll) implies death_subjects(
        after,
    ).contains(w.ids.slot(i)) by {
        let ds = death_subjects(before);
        if i < slot {
            let k = choose|k: int| 0 <= k < ds.len() && ds[k] == w.ids.slot(i);
            if death_subjects(after) != ds {
                assert(death_subjects(after)[k] == w.ids.slot(i));
            }
        } else {
            assert(death_subjects(after)[ds.len() as int] == w.ids.slot(i));
        }
    }
}

/// Nobody whom a passed day doomed outlives it: `day` is the world the
/// day's pass ran on, `passed` after it, `resolved` once its events were
/// resolved, and `now` after the sweep.
proof fn lemma_doomed_die<R: Fn(u64, Odds) -> bool>(
    day: World,
    passed: World,
    resolved: World,
    now: World,
    events: Seq<Event>,
    x: EntityId,
    roll: R,
)
    requires
        doomed_recorded(&day, CAPACITY as int, events, roll),
        passed.ids == day.ids,
        passed.epoch == day.epoch,
        forall|s: int, v: int|
            0 <= s < CAPACITY && 0 <= v < 3 ==> #[trigger] passed.state.uvars.value(s, v) == day.state.uvars.value(s, v),
        resolved.state == passed.state,
        resolved.epoch == passed.epoch,
        forall|y: EntityId| #[trigger] resolved.ids.alive(y) == passed.ids.alive(y),
        forall|i: int| 0 <= i < CAPACITY ==> #[trigger] resolved.ids.bits(i) == passed.ids.bits(i),
        resolved.ids.marks() == passed.ids.marks() + death_subjects(events),
        swept_to(resolved.ids, now.ids, swept_ids(resolved.ids.marks(), resolved.ids)),
        now.state == resolved.state,
        now.epoch == resolved.epoch,
        now.ids.alive(x),
    ensures
        !doomed(&now, x, roll),
{
    if doomed(&now, x, roll) {
        let dead = swept_ids(resolved.ids.marks(), resolved.ids);
        let i = x.idx() as int;
        assert(slot_after_kills(now.ids, resolved.ids, dead, i));
        if killed_in(dead, i) {
            assert(!now.ids.bits(i)[PEOPLE as int]);
            assert(false);
        }
        assert(resolved.ids.slot(i) == x);
        assert(resolved.ids.alive(x));
        if dead.contains(x) {
            let k = choose|k: int| 0 <= k < dead.len() && dead[k] == x;
            assert(dead[k].idx() == i);
            assert(false);
        }
        let marks = resolved.ids.marks();
        let ds = death_subjects(events);
        if ds.contains(x) {
            let k = choose|k: int| 0 <= k < ds.len() && ds[k] == x;
            assert(marks[passed.ids.marks().len() + k] == x);
            lemma_marked_are_swept(marks, resolved.ids, x);
            assert(false);
        }
        assert(day.ids.slot(i) == x);
        assert(day.ids.member(x, PEOPLE as int));
        assert(now.state.uvars.value(i, 1) == day.state.uvars.value(i, 1));
        assert(birth(&now, x) == birth(&day, x));
        assert(days_alive_spec(&now, x) == days_alive_spec(&day, x));
        assert(age_spec(&now, x) == age_spec(&day, x));
        assert(birthday_spec(&day, x));
        assert forall|d: u64, b: bool| #[trigger] roll.ensures((d, Odds::Mortality(age_spec(&day, x))), b) implies b by {
            assert(roll.ensures((d, Odds::Mortality(age_spec(&now, x))), b));
        }
        assert(doomed(&day, x, roll));
        assert(false);
    }
}

/// A sweep only ever kills.
proof fn lemma_sweep_shrinks(a: crate::entities::id::Ids, b: crate::entities::id::Ids, dead: Seq<EntityId>)
    requires
        swept_to(a, b, dead),
    ensures
        forall|x: EntityId| #[trigger] b.alive(x) ==> a.alive(x),
{
    assert forall|x: EntityId| #[trigger] b.alive(x) implies a.alive(x) by {
        if !a.alive(x) {
        }
    }
}

/// A death subject comes from a death event.
proof fn lemma_death_subject(events: Seq<Event>, x: EntityId)
    requires
        death_subjects(events).contains(x),
    ensures
        exists|k: int| 0 <= k < events.len() && (#[trigger] events[k]).kind == EventKind::Death && events[k].subject == x,
    decreases events.len(),
{
    let rest = events.drop_last();
    if events.last().kind == EventKind::Death && events.last().subject == x {
        assert(events[events.len() - 1] == events.last());
    } else {
        if events.last().kind == EventKind::Death {
            let k = choose|k: int| 0 <= k < death_subjects(events).len() && death_subjects(events)[k] == x;
            assert(death_subjects(events) == death_subjects(rest).push(events.last().subject));
            assert(k < death_subjects(rest).len());
            assert(death_subjects(rest)[k] == x);
        }
        assert(death_subjects(rest).contains(x));
        lemma_death_subject(rest, x);
        let k = choose|k: int| 0 <= k < rest.len() && (#[trigger] rest[k]).kind == EventKind::Death && rest[k].subject == x;
        assert(events[k] == rest[k]);
    }
}

/// Every marked id alive at the sweep is swept.
proof fn lemma_marked_are_swept(marks: Seq<EntityId>, start: crate::entities::id::Ids, x: EntityId)
    requires
        marks.contains(x),
        start.alive(x),
    ensures
        swept_ids(marks, start).contains(x),
    decreases marks.len(),
{
    let prev = swept_ids(marks.drop_last(), start);
    if marks.last() == x {
        if !prev.contains(x) {
            assert(swept_ids(marks, start) == prev.push(x));
            assert(swept_ids(marks, start)[prev.len() as int] == x);
        } else {
            let k = choose|k: int| 0 <= k < prev.len() && prev[k] == x;
            assert(swept_ids(marks, start)[k] == x);
        }
    } else {
        let k = choose|k: int| 0 <= k < marks.len() && marks[k] == x;
        assert(marks.drop_last()[k] == x);
        lemma_marked_are_swept(marks.drop_last(), start, x);
        let j = choose|j: int| 0 <= j < prev.len() && prev[j] == x;
        assert(swept_ids(marks, start)[j] == x);
    }
}

/// Only marked ids are swept.
proof fn lemma_swept_were_marked(marks: Seq<EntityId>, start: crate::entities::id::Ids, x: EntityId)
    requires
        swept_ids(marks, start).contains(x),
    ensures
        marks.contains(x),
    decreases marks.len(),
{
    if marks.len() > 0 {
        let prev = swept_ids(marks.drop_last(), start);
        if prev.contains(x) {
            lemma_swept_were_marked(marks.drop_last(), start, x);
            let k = choose|k: int| 0 <= k < marks.drop_last().len() && marks.drop_last()[k] == x;
            assert(marks[k] == x);
        } else {
            assert(marks.last() == x);
            assert(marks[marks.len() - 1] == x);
        }
    }
}

/// A pick that resolves the open interaction: one is open, the index is
/// in range, and that choice is enabled.
pub open spec fn pick_valid(i: Option<crate::game::interaction::Interaction>, choose: Option<u32>) -> bool {
    match (i, choose) {
        (Some(i), Some(k)) => (k as int) < i.choices@.len() && i.choices@[k as int].disabled@.len() == 0,
        _ => false,
    }
}

/// What an order makes of the current activity: Idle is the stop; any
/// other verb starts now, open-ended, toward the command's destination.
/// Only a genuinely new activity (another verb or target) replaces the
/// current one, so repeating an order doesn't restart its clock.
pub open spec fn ordered(current: Activity, verb: ActivityVerb, now: Epoch, destination: CellPos) -> Activity {
    let next = if verb == ActivityVerb::Idle {
        idle_activity()
    } else {
        Activity { verb, start: now, until: Epoch(u64::MAX), destination }
    };
    if next.verb != current.verb || next.destination != current.destination {
        next
    } else {
        current
    }
}

/// What waiting makes of the current activity: an idle player rests
/// through the coming day, whose horizon sits one day past whatever this
/// tick advances to; a rest is extended to the horizon; travel goes on.
pub open spec fn waited(current: Activity, now: Epoch, advance: bool) -> Activity {
    let horizon = Epoch((now.0 + 1 + if advance { 1int } else { 0int }) as u64);
    match current.verb {
        ActivityVerb::Idle => Activity { verb: ActivityVerb::Rest, start: now, until: horizon, destination: CellPos { x: 0, y: 0 } },
        ActivityVerb::Rest => Activity { until: if current.until.0 >= horizon.0 { current.until } else { horizon }, ..current },
        ActivityVerb::Travel => current,
    }
}

/// Whether a command's day may pass in `g`, judged on the state its pick,
/// orders and removal leave: no interaction open after the pick, and the
/// player still there and occupied after being ordered, made to wait, or
/// surviving the removal.
pub open spec fn day_may_pass(g: &Game, c: Command) -> bool {
    let w = &g.world;
    let valid = pick_valid(g.interaction, c.choose);
    let effect = if valid {
        g.interaction->0.choices@[c.choose->0 as int].effect
    } else {
        Effect::Close
    };
    let open_after_pick = if valid {
        effect == Effect::Arrival || effect == Effect::Company
    } else {
        g.interaction is Some
    };
    match player_spec(w) {
        None => false,
        Some(p) => {
            let picked = if valid && effect == Effect::RestHere {
                resting_from(w.epoch)
            } else {
                activity_spec(w, p)
            };
            let after_order = match c.activity {
                Some(verb) => ordered(picked, verb, w.epoch, c.destination),
                None => picked,
            };
            let after_wait = if c.wait {
                waited(after_order, w.epoch, c.advance_time)
            } else {
                after_order
            };
            let survives = !(w.ids.alive(c.remove) && (p == c.remove || w.ids.marks().contains(p)));
            &&& !open_after_pick
            &&& survives
            &&& after_wait.verb != ActivityVerb::Idle
        },
    }
}

/// A pick resolves the open interaction: the choice's effect transforms
/// the world and hands back the next screen, if any. An invalid or stale
/// pick does nothing and leaves the interaction standing.
fn pick_phase(game: &mut Game, choose: Option<u32>)
    requires
        old(game).wf(),
    ensures
        final(game).wf(),
        final(game).staging == old(game).staging,
        final(game).pathfinding == old(game).pathfinding,
        final(game).spatial_map == old(game).spatial_map,
        final(game).world.epoch == old(game).world.epoch,
        final(game).world.ids == old(game).world.ids,
        final(game).world.map == old(game).world.map,
        !pick_valid(old(game).interaction, choose) ==> final(game).world == old(game).world && final(game).interaction
            == old(game).interaction,
        final(game).world.state.positions == old(game).world.state.positions,
        final(game).world.tags == old(game).world.tags,
        forall|i: int|
            0 <= i < CAPACITY && (#[trigger] final(game).world.state.activities.row(i)).1.verb == ActivityVerb::Travel
                ==> old(game).world.state.activities.row(i).1.verb == ActivityVerb::Travel,
        pick_valid(old(game).interaction, choose) ==> ({
            let c = old(game).interaction->0.choices@[choose->0 as int];
            match c.effect {
                Effect::Close => final(game).interaction is None && final(game).world == old(game).world,
                Effect::Arrival => view_opt(final(game).interaction) == Some(arrival_view(&old(game).world, c.params))
                    && final(game).world == old(game).world,
                Effect::Company => view_opt(final(game).interaction) == Some(company_view(&old(game).world, c.params))
                    && final(game).world == old(game).world,
                Effect::RestHere => final(game).interaction is None && rested(&old(game).world, &final(game).world),
            }
        }),
{
    let index = match choose {
        Some(k) => k,
        None => {
            return;
        },
    };
    let valid = match &game.interaction {
        Some(i) => (index as usize) < i.choices.len() && i.choices[index as usize].disabled.as_str().is_empty(),
        None => false,
    };
    if !valid {
        return;
    }
    let interaction = game.interaction.take().unwrap();
    let choice = &interaction.choices[index as usize];
    proof {
        assert(interaction_ok(Some(interaction)));
        assert((interaction.choices@[index as int].params.target.idx() as int) < CAPACITY);
    }
    let next = apply(choice.effect, &mut game.world, choice.params);
    proof {
        let params = choice.params;
        if next is Some {
            let n = next->0;
            assert forall|k: int| 0 <= k < n.choices@.len() implies (#[trigger] n.choices@[k].params.target.idx() as int)
                < CAPACITY by {
                assert(n.choices@[k].params == params);
            }
        }
        match choice.effect {
            crate::game::interaction::Effect::RestHere => {
                match player_spec(&old(game).world) {
                    Some(p) => {
                        assert forall|i: int| 0 <= i < CAPACITY implies (#[trigger] game.world.state.activities.row(i)).1.start.0
                            <= game.world.epoch.0 by {
                            if i != p.idx() {
                                assert(game.world.state.activities.row(i) == old(game).world.state.activities.row(i));
                            }
                        }
                    },
                    None => {},
                }
            },
            _ => {},
        }
    }
    game.interaction = next;
}

/// The player's orders, while no interaction is open: an ordered activity
/// replaces the current one when it is genuinely new, and a wait rests an
/// idle player through the coming day or extends a rest.
fn order_phase(game: &mut Game, command: Command)
    requires
        old(game).wf(),
        old(game).world.epoch.0 < u64::MAX - 2,
    ensures
        final(game).wf(),
        final(game).staging == old(game).staging,
        final(game).pathfinding == old(game).pathfinding,
        final(game).spatial_map == old(game).spatial_map,
        final(game).interaction == old(game).interaction,
        final(game).world == (World { state: WorldState { activities: final(game).world.state.activities, ..old(game).world.state }, ..old(game).world }),
        ({
            let w = &old(game).world;
            match (player_spec(w), old(game).interaction) {
                (Some(p), None) => {
                    let current = w.state.activities.row(p.idx() as int).1;
                    let after_order = match command.activity {
                        Some(verb) => ordered(current, verb, w.epoch, command.destination),
                        None => current,
                    };
                    let after_wait = if command.wait { waited(after_order, w.epoch, command.advance_time) } else { after_order };
                    &&& final(game).world.state.activities.row(p.idx() as int) == (p, after_wait)
                    &&& forall|i: int| 0 <= i < CAPACITY && i != p.idx() ==> #[trigger] final(game).world.state.activities.row(i)
                        == w.state.activities.row(i)
                },
                _ => final(game).world == *w,
            }
        }),
{
    let p = match player(&game.world) {
        Some(p) => p,
        None => {
            return;
        },
    };
    if game.interaction.is_some() {
        return;
    }
    let ghost w0 = game.world;
    match command.activity {
        Some(verb) => {
            let current = game.world.activity(p);
            let next = match verb {
                ActivityVerb::Idle => Activity::default(),
                _ => Activity { verb, start: game.world.epoch, until: Epoch::never(), destination: command.destination },
            };
            if next.verb != current.verb || next.destination != current.destination {
                game.world.set_activity(p, next);
            }
        },
        None => {},
    }
    let ghost w1 = game.world;
    if command.wait {
        let horizon = Epoch(game.world.epoch.0 + 1 + if command.advance_time { 1 } else { 0 });
        let mut activity = game.world.activity(p);
        match activity.verb {
            ActivityVerb::Idle => {
                activity = Activity { verb: ActivityVerb::Rest, start: game.world.epoch, until: horizon, destination: CellPos::default() };
            },
            ActivityVerb::Rest => {
                if activity.until.0 < horizon.0 {
                    activity.until = horizon;
                }
            },
            ActivityVerb::Travel => {},
        }
        game.world.set_activity(p, activity);
    }
    proof {
        assert forall|i: int| 0 <= i < CAPACITY implies (#[trigger] game.world.state.activities.row(i)).1.start.0 <= game.world.epoch.0 by {
            if i != p.idx() {
                assert(game.world.state.activities.row(i) == w0.state.activities.row(i));
            }
        }
    }
}

/// Despawns `remove` if it is alive, with its obituary; then femalifies
/// `femalify` if it is alive.
fn removal_phase(game: &mut Game, command: Command, log: &mut Vec<String>)
    requires
        old(game).wf(),
    ensures
        final(game).wf(),
        final(game).staging == old(game).staging,
        final(game).pathfinding == old(game).pathfinding,
        final(game).spatial_map == old(game).spatial_map,
        final(game).interaction == old(game).interaction,
        final(game).world.epoch == old(game).world.epoch,
        final(game).world.map == old(game).world.map,
        old(game).world.ids.alive(command.remove) ==> !final(game).world.ids.alive(command.remove),
        forall|x: EntityId| #[trigger] final(game).world.ids.alive(x) ==> old(game).world.ids.alive(x),
        final(game).world.ids.alive(command.femalify) ==> final(game).world.state.uvars.value(
            command.femalify.idx() as int,
            GENDER as int,
        ) == 1,
        forall|x: EntityId|
            #[trigger] old(game).world.ids.alive(x) && !final(game).world.ids.alive(x) ==> x == command.remove
                || old(game).world.ids.marks().contains(x),
        final(game).world.ids.marks() == old(game).world.ids.marks() || final(game).world.ids.marks().len() == 0,
        final(game).world.state.activities == old(game).world.state.activities,
        final(game).world.state.positions == old(game).world.state.positions,
        forall|k: Seq<char>|
            #[trigger] final(game).world.tags.map().contains_key(k) ==> old(game).world.tags.map().contains_key(k)
                && final(game).world.tags.map()[k] == old(game).world.tags.map()[k],
        forall|k: Seq<char>|
            #[trigger] old(game).world.tags.map().contains_key(k) && final(game).world.ids.alive(old(game).world.tags.map()[k])
                ==> final(game).world.tags.map().contains_key(k),
        old(game).world.ids.marks().len() == 0 ==> forall|x: EntityId|
            #[trigger] old(game).world.ids.alive(x) && x != command.remove ==> final(game).world.ids.alive(x),
        !old(game).world.ids.alive(command.remove) ==> forall|x: EntityId|
            #[trigger] final(game).world.ids.alive(x) == old(game).world.ids.alive(x),
        !old(game).world.ids.alive(command.remove) ==> final(game).world.tags == old(game).world.tags,
        old(game).world.ids.alive(command.remove) ==> forall|x: EntityId|
            #[trigger] old(game).world.ids.marks().contains(x) ==> !final(game).world.ids.alive(x),
{
    if game.world.ids.is_alive(command.remove) {
        game.world.mark_despawn(command.remove);
        let ghost marked = game.world;
        let line = report_death(&game.world, command.remove);
        log.push(line);
        game.world.sweep();
        proof {
            let marks = marked.ids.marks();
            assert(marks.drop_last() =~= old(game).world.ids.marks());
            assert(marks.last() == command.remove);
            assert(swept_ids(marks, marked.ids).contains(command.remove));
            game.world.ids.lemma_wf();
            lemma_sweep_shrinks(marked.ids, game.world.ids, swept_ids(marks, marked.ids));
            assert forall|x: EntityId| #[trigger] old(game).world.ids.marks().contains(x) implies !game.world.ids.alive(x) by {
                if marked.ids.alive(x) {
                    let k = choose|k: int| 0 <= k < old(game).world.ids.marks().len() && old(game).world.ids.marks()[k] == x;
                    assert(marks[k] == x);
                    lemma_marked_are_swept(marks, marked.ids, x);
                } else {
                    assert(!old(game).world.ids.alive(x));
                }
            }
            assert forall|x: EntityId|
                #[trigger] old(game).world.ids.alive(x) && !game.world.ids.alive(x) implies x == command.remove
                    || old(game).world.ids.marks().contains(x) by {
                assert(marked.ids.alive(x));
                lemma_swept_were_marked(marks, marked.ids, x);
                let k = choose|k: int| 0 <= k < marks.len() && marks[k] == x;
                if k < marks.len() - 1 {
                    assert(marks.drop_last()[k] == x);
                }
            }
        }
    }
    if game.world.ids.is_alive(command.femalify) {
        game.world.set_uvar(command.femalify, UVarId(GENDER), Gender::Female);
    }
}

/// The buffered day pass: read the frozen world, write the staging buffer
/// chunk by chunk (each chunk's rows carried forward wholesale, then each
/// live entity's update overwriting its own rows), rebuild the relations
/// from the carried kinds and the day's changes, and swap. Returns the
/// day's events in the order recorded.
fn day_pass<R: Fn(u64, Odds) -> bool>(game: &mut Game, player: Option<EntityId>, roll: &R, log: &mut Vec<String>) -> (events: Vec<Event>)
    requires
        old(game).wf(),
        old(game).world.map.anchor_seq().len() > 0,
        rolls_total(*roll),
    ensures
        final(game).wf(),
        final(game).world == (World { state: final(game).world.state, ..old(game).world }),
        final(game).interaction == old(game).interaction,
        final(game).spatial_map == old(game).spatial_map,
        forall|k: int| 0 <= k < events@.len() ==> (#[trigger] events@[k]).subject.valid(),
        forall|k: int| 0 <= k < events@.len() ==> (#[trigger] events@[k]).subject.idx() < CAPACITY,
        forall|k: int|
            0 <= k < events@.len() && (#[trigger] events@[k]).kind == EventKind::Death ==> died_of_age(
                &old(game).world,
                events@[k].subject,
                *roll,
            ),
        forall|s: int, v: int|
            0 <= s < CAPACITY && 0 <= v < 3 ==> #[trigger] final(game).world.state.uvars.value(s, v)
                == old(game).world.state.uvars.value(s, v),
        forall|i: int|
            0 <= i < CAPACITY && #[trigger] final(game).world.state.positions.row(i) != old(game).world.state.positions.row(i)
                ==> old(game).world.state.activities.row(i).1.verb == ActivityVerb::Travel,
        forall|i: int|
            0 <= i < CAPACITY && (#[trigger] final(game).world.state.activities.row(i)).1.verb == ActivityVerb::Travel
                ==> old(game).world.state.activities.row(i).1.verb == ActivityVerb::Travel || (player != Some(
                old(game).world.ids.slot(i),
            ) && old(game).world.ids.member(old(game).world.ids.slot(i), PEOPLE as int) && wandered(*roll)),
        forall|i: int|
            0 <= i < CAPACITY && (#[trigger] final(game).world.state.positions.row(i)).1 != old(game).world.state.positions.row(i).1
                ==> steps_to(
                old(game).world.map.cells(),
                old(game).world.map.grid_width(),
                old(game).world.map.grid_height(),
                old(game).world.state.positions.row(i).1,
                final(game).world.state.positions.row(i).1,
            ),
        forall|i: int|
            0 <= i < CAPACITY && (#[trigger] old(game).world.ids.slot(i)).valid() && must_move(&old(game).world, i)
                ==> final(game).world.state.positions.row(i).1 != old(game).world.state.positions.row(i).1,
        doomed_recorded(&old(game).world, CAPACITY as int, events@, *roll),
        forall|s: int|
            0 <= s < CAPACITY && (#[trigger] old(game).world.ids.slot(s)).valid() ==> located_row(
                row_map(final(game).world.state.relations.row(s)),
                located_spec(final(game).world.state.positions.row(s).1, &old(game).world.map, &old(game).world.ids),
            ),
{
    let ghost w0 = game.world;
    let mut events: Vec<Event> = Vec::new();
    let mut changes: Vec<RelationEntry> = Vec::new();
    let mut chunk: usize = 0;
    while chunk < CAPACITY
        invariant
            game.world == w0,
            sim_world(&w0),
            starts_past(&w0),
            w0.map.anchor_seq().len() > 0,
            rolls_total(*roll),
            game.interaction == old(game).interaction,
            game.spatial_map == old(game).spatial_map,
            game.staging.wf(),
            game.staging.vars.stride() == 1,
            game.staging.uvars.stride() == 3,
            game.staging.relations.kinds() == 4,
            game.pathfinding.wf(),
            game.pathfinding.consistent(&w0.map),
            chunk <= CAPACITY,
            doomed_recorded(&w0, chunk as int, events@, *roll),
            forall|i: int|
                0 <= i < chunk && (#[trigger] game.staging.positions.row(i)).1 != w0.state.positions.row(i).1 ==> steps_to(
                    w0.map.cells(),
                    w0.map.grid_width(),
                    w0.map.grid_height(),
                    w0.state.positions.row(i).1,
                    game.staging.positions.row(i).1,
                ),
            forall|i: int|
                0 <= i < chunk && (#[trigger] w0.ids.slot(i)).valid() && must_move(&w0, i) ==> game.staging.positions.row(i).1
                    != w0.state.positions.row(i).1,
            forall|i: int| 0 <= i < chunk && (#[trigger] w0.ids.slot(i)).valid() ==> game.staging.positions.row(i).0 == w0.ids.slot(i)
                && game.staging.activities.row(i).0 == w0.ids.slot(i),
            forall|i: int| 0 <= i < chunk ==> (#[trigger] game.staging.activities.row(i)).1.start.0 <= w0.epoch.0,
            forall|k: int| 0 <= k < changes@.len() ==> change_ok(&w0.ids, 4, #[trigger] changes@[k]),
            forall|k: int| 0 <= k < events@.len() ==> w0.ids.alive((#[trigger] events@[k]).subject),
            forall|k: int|
                0 <= k < events@.len() && (#[trigger] events@[k]).kind == EventKind::Death ==> died_of_age(
                    &w0,
                    events@[k].subject,
                    *roll,
                ),
            forall|s: int, v: int|
                0 <= s < chunk && 0 <= v < 3 ==> #[trigger] game.staging.uvars.value(s, v) == w0.state.uvars.value(s, v),
            forall|i: int|
                0 <= i < chunk && #[trigger] game.staging.positions.row(i) != w0.state.positions.row(i)
                    ==> w0.state.activities.row(i).1.verb == ActivityVerb::Travel,
            forall|i: int|
                0 <= i < chunk && (#[trigger] game.staging.activities.row(i)).1.verb == ActivityVerb::Travel
                    ==> w0.state.activities.row(i).1.verb == ActivityVerb::Travel || (player != Some(w0.ids.slot(i))
                    && w0.ids.member(w0.ids.slot(i), PEOPLE as int) && wandered(*roll)),
            forall|q: int|
                0 <= q < CAPACITY ==> #[trigger] slot_changes(changes@, q) == if q < chunk && w0.ids.slot(q).valid() {
                    location_changes(w0.ids.slot(q), located_spec(game.staging.positions.row(q).1, &w0.map, &w0.ids))
                } else {
                    Seq::empty()
                },
        decreases CAPACITY - chunk,
    {
        let end = if chunk + CHUNK_SIZE < CAPACITY { chunk + CHUNK_SIZE } else { CAPACITY };
        game.staging.vars.copy_chunk_from(&game.world.state.vars, chunk..end);
        game.staging.uvars.copy_chunk_from(&game.world.state.uvars, chunk..end);
        game.staging.positions.copy_chunk_from(&game.world.state.positions, chunk..end);
        game.staging.activities.copy_chunk_from(&game.world.state.activities, chunk..end);
        let mut slot = chunk;
        while slot < end
            invariant
                game.world == w0,
                sim_world(&w0),
                starts_past(&w0),
                w0.map.anchor_seq().len() > 0,
                rolls_total(*roll),
                game.interaction == old(game).interaction,
                game.spatial_map == old(game).spatial_map,
                game.staging.wf(),
                game.staging.vars.stride() == 1,
                game.staging.uvars.stride() == 3,
                game.staging.relations.kinds() == 4,
                game.pathfinding.wf(),
                game.pathfinding.consistent(&w0.map),
                chunk <= slot <= end <= CAPACITY,
                doomed_recorded(&w0, slot as int, events@, *roll),
                forall|i: int|
                    0 <= i < end && (#[trigger] game.staging.positions.row(i)).1 != w0.state.positions.row(i).1 ==> steps_to(
                        w0.map.cells(),
                        w0.map.grid_width(),
                        w0.map.grid_height(),
                        w0.state.positions.row(i).1,
                        game.staging.positions.row(i).1,
                    ),
                forall|i: int|
                    0 <= i < slot && (#[trigger] w0.ids.slot(i)).valid() && must_move(&w0, i) ==> game.staging.positions.row(i).1
                        != w0.state.positions.row(i).1,
                forall|i: int| 0 <= i < end && (#[trigger] w0.ids.slot(i)).valid() ==> game.staging.positions.row(i).0 == w0.ids.slot(i)
                    && game.staging.activities.row(i).0 == w0.ids.slot(i),
                forall|i: int| 0 <= i < end ==> (#[trigger] game.staging.activities.row(i)).1.start.0 <= w0.epoch.0,
                forall|k: int| 0 <= k < changes@.len() ==> change_ok(&w0.ids, 4, #[trigger] changes@[k]),
                forall|k: int| 0 <= k < events@.len() ==> w0.ids.alive((#[trigger] events@[k]).subject),
                forall|k: int|
                    0 <= k < events@.len() && (#[trigger] events@[k]).kind == EventKind::Death ==> died_of_age(
                        &w0,
                        events@[k].subject,
                        *roll,
                    ),
                forall|s: int, v: int|
                    0 <= s < end && 0 <= v < 3 ==> #[trigger] game.staging.uvars.value(s, v) == w0.state.uvars.value(s, v),
                forall|i: int|
                    0 <= i < end && #[trigger] game.staging.positions.row(i) != w0.state.positions.row(i)
                        ==> w0.state.activities.row(i).1.verb == ActivityVerb::Travel,
                forall|i: int| slot <= i < end ==> #[trigger] game.staging.positions.row(i) == w0.state.positions.row(i),
                forall|i: int| slot <= i < end ==> #[trigger] game.staging.activities.row(i) == w0.state.activities.row(i),
                forall|i: int|
                    0 <= i < slot && (#[trigger] game.staging.activities.row(i)).1.verb == ActivityVerb::Travel
                        ==> w0.state.activities.row(i).1.verb == ActivityVerb::Travel || (player != Some(w0.ids.slot(i))
                        && w0.ids.member(w0.ids.slot(i), PEOPLE as int) && wandered(*roll)),
                forall|q: int|
                    0 <= q < CAPACITY ==> #[trigger] slot_changes(changes@, q) == if q < slot && w0.ids.slot(q).valid() {
                        location_changes(w0.ids.slot(q), located_spec(game.staging.positions.row(q).1, &w0.map, &w0.ids))
                    } else {
                        Seq::empty()
                    },
            decreases end - slot,
        {
            let this = game.world.ids.id_at(slot);
            let ghost ev_slot = events@;
            if this.is_valid() {
                let is_player = match player {
                    Some(p) => p == this,
                    None => false,
                };
                let ghost before = game.staging;
                let ghost before_pf = game.pathfinding;
                let ghost events_before = events@;
                let ghost changes_before = changes@;
                update_entity(this, is_player, &game.world, &mut game.staging, &mut events, &mut changes, &mut game.pathfinding, roll, log);
                proof {
                    let i0 = slot as int;
                    assert(w0.ids.slot(i0) == this);
                    let a = current_activity(&w0, this);
                    let pos = w0.state.positions.row(i0).1;
                    let next = answer(
                        before_pf.memo(),
                        w0.map.cells(),
                        w0.map.grid_width(),
                        w0.map.grid_height(),
                        pos,
                        a.destination,
                    ).1;
                    if a.verb == ActivityVerb::Travel {
                        if steps_to(w0.map.cells(), w0.map.grid_width(), w0.map.grid_height(), pos, next) {
                            lemma_step_facts(w0.map.cells(), w0.map.grid_width(), w0.map.grid_height(), pos, next);
                        }
                    }
                    assert(game.staging.positions.row(i0).1 != pos ==> steps_to(
                        w0.map.cells(),
                        w0.map.grid_width(),
                        w0.map.grid_height(),
                        pos,
                        game.staging.positions.row(i0).1,
                    ));
                    assert(must_move(&w0, i0) ==> game.staging.positions.row(i0).1 != pos);
                    assert forall|i: int|
                        0 <= i < end && (#[trigger] game.staging.positions.row(i)).1 != w0.state.positions.row(i).1 implies steps_to(
                        w0.map.cells(),
                        w0.map.grid_width(),
                        w0.map.grid_height(),
                        w0.state.positions.row(i).1,
                        game.staging.positions.row(i).1,
                    ) by {
                        if i != i0 {
                            assert(game.staging.positions.row(i) == before.positions.row(i));
                        }
                    }
                    assert forall|i: int|
                        0 <= i < slot + 1 && (#[trigger] w0.ids.slot(i)).valid() && must_move(&w0, i) implies game.staging.positions.row(i).1
                        != w0.state.positions.row(i).1 by {
                        if i != i0 {
                            assert(game.staging.positions.row(i) == before.positions.row(i));
                        }
                    }
                }
                proof {
                    assert forall|k: int| 0 <= k < events@.len() implies w0.ids.alive((#[trigger] events@[k]).subject) by {
                        if k < events_before.len() {
                            assert(events@.subrange(0, events_before.len() as int)[k] == events@[k]);
                        }
                    }
                    assert forall|q: int| 0 <= q < CAPACITY implies #[trigger] slot_changes(changes@, q) == if q < slot + 1
                        && w0.ids.slot(q).valid() {
                        location_changes(w0.ids.slot(q), located_spec(game.staging.positions.row(q).1, &w0.map, &w0.ids))
                    } else {
                        Seq::empty()
                    } by {
                        lemma_slot_changes_append(
                            changes_before,
                            this,
                            located_spec(game.staging.positions.row(this.idx() as int).1, &w0.map, &w0.ids),
                            q,
                        );
                        assert(slot_changes(changes_before, q) + Seq::<RelationEntry>::empty() =~= slot_changes(changes_before, q));
                        assert(Seq::<RelationEntry>::empty() + location_changes(this, located_spec(game.staging.positions.row(this.idx() as int).1, &w0.map, &w0.ids)) =~= location_changes(this, located_spec(game.staging.positions.row(this.idx() as int).1, &w0.map, &w0.ids)));
                        if q != slot {
                            assert(game.staging.positions.row(q) == before.positions.row(q));
                        }
                    }
                    assert forall|k: int|
                        0 <= k < events@.len() && (#[trigger] events@[k]).kind == EventKind::Death implies died_of_age(
                        &w0,
                        events@[k].subject,
                        *roll,
                    ) by {
                        if k < events_before.len() {
                            assert(events@.subrange(0, events_before.len() as int)[k] == events@[k]);
                        }
                    }
                    assert forall|k: int| 0 <= k < changes@.len() implies change_ok(&w0.ids, 4, #[trigger] changes@[k]) by {
                        if k < changes_before.len() {
                            assert(changes@.subrange(0, changes_before.len() as int)[k] == changes@[k]);
                        }
                    }
                }
            }
            proof {
                lemma_doomed_step(&w0, slot as int, ev_slot, events@, *roll);
            }
            slot = slot + 1;
        }
        chunk = end;
    }
    let carries = |kind: RelationId| -> (b: bool)
        ensures
            b == !derived_id(kind.0),
        { !is_derived_id(kind) };
    let ghost all_changes = changes@;
    game.staging.relations.rebuild(&game.world.state.relations, &game.world.ids, &mut changes, carries);
    proof {
        assert(!carried(carries, LOCATED_IN)) by {
            if carried(carries, LOCATED_IN) {
                assert(derived_id(LOCATED_IN));
            }
        }
        assert forall|q: int| 0 <= q < CAPACITY && (#[trigger] w0.ids.slot(q)).valid() implies located_row(
            row_map(game.staging.relations.row(q)),
            located_spec(game.staging.positions.row(q).1, &w0.map, &w0.ids),
        ) by {
            let place = located_spec(game.staging.positions.row(q).1, &w0.map, &w0.ids);
            assert(slot_changes(all_changes, q) == location_changes(w0.ids.slot(q), place));
            lemma_located_row(&w0.state.relations, &w0.ids, carries, q, place);
        }
    }
    std::mem::swap(&mut game.world.state, &mut game.staging);
    proof {
        assert forall|k: int| 0 <= k < events@.len() implies (#[trigger] events@[k]).subject.valid() by {
            assert(w0.ids.alive(events@[k].subject));
        }
    }
    events
}

/// Resolves the pass's events one by one in the order recorded, on the new
/// current world: the player arriving at a live settlement is received at
/// its gates; a death is marked and its obituary written while the corpse
/// is still readable.
fn resolve_events(game: &mut Game, events: &Vec<Event>, log: &mut Vec<String>)
    requires
        old(game).wf(),
        forall|k: int| 0 <= k < events@.len() ==> (#[trigger] events@[k]).subject.valid(),
        forall|k: int| 0 <= k < events@.len() ==> (#[trigger] events@[k]).subject.idx() < CAPACITY,
    ensures
        final(game).wf(),
        final(game).staging == old(game).staging,
        final(game).pathfinding == old(game).pathfinding,
        final(game).spatial_map == old(game).spatial_map,
        final(game).world == (World { ids: final(game).world.ids, ..old(game).world }),
        forall|x: EntityId| #[trigger] final(game).world.ids.alive(x) == old(game).world.ids.alive(x),
        forall|i: int| 0 <= i < CAPACITY ==> #[trigger] final(game).world.ids.bits(i) == old(game).world.ids.bits(i),
        final(game).world.ids.marks() == old(game).world.ids.marks() + death_subjects(events@),
{
    let mut k: usize = 0;
    proof {
        assert(events@.take(0) =~= Seq::<Event>::empty());
        assert(old(game).world.ids.marks() + death_subjects(events@.take(0)) =~= old(game).world.ids.marks());
    }
    while k < events.len()
        invariant
            game.wf(),
            forall|j: int| 0 <= j < events@.len() ==> (#[trigger] events@[j]).subject.valid(),
            forall|j: int| 0 <= j < events@.len() ==> (#[trigger] events@[j]).subject.idx() < CAPACITY,
            k <= events@.len(),
            game.staging == old(game).staging,
            game.pathfinding == old(game).pathfinding,
            game.spatial_map == old(game).spatial_map,
            game.world == (World { ids: game.world.ids, ..old(game).world }),
            forall|x: EntityId| #[trigger] game.world.ids.alive(x) == old(game).world.ids.alive(x),
            forall|i: int| 0 <= i < CAPACITY ==> #[trigger] game.world.ids.bits(i) == old(game).world.ids.bits(i),
            game.world.ids.marks() == old(game).world.ids.marks() + death_subjects(events@.take(k as int)),
        decreases events@.len() - k,
    {
        let event = events[k];
        proof {
            assert(event.subject.valid());
            assert(events@.take(k + 1).drop_last() =~= events@.take(k as int));
            assert(events@.take(k + 1).last() == event);
        }
        match event.kind {
            EventKind::Arrival => {
                let p = player(&game.world);
                let is_player = match p {
                    Some(p) => p == event.subject,
                    None => false,
                };
                if is_player && game.world.ids.is_alive(event.target) {
                    let params = ChoiceParams { target: event.target };
                    let next = arrival(&game.world, params);
                    proof {
                        if next is Some {
                            let n = next->0;
                            assert forall|j: int| 0 <= j < n.choices@.len() implies (
                            #[trigger] n.choices@[j].params.target.idx() as int) < CAPACITY by {
                                assert(n.choices@[j].params == params);
                            }
                        }
                    }
                    game.interaction = next;
                }
            },
            EventKind::Death => {
                game.world.mark_despawn(event.subject);
                let line = report_death(&game.world, event.subject);
                log.push(line);
            },
        }
        k = k + 1;
    }
    proof {
        assert(events@.take(events@.len() as int) =~= events@);
    }
}

/// One command per tick, a frame's worth of intent: the pick, the
/// player's orders, removal and femalify, then time. A day passes only on
/// request, with no interaction open and the player occupied; it runs the
/// entity pass and resolves its events. Everything that moves or removes
/// people has run when the dead are swept and the cell index re-derived.
/// Nobody whom a passed day's mortality roll was certain to take outlives
/// it. Lines the sim writes to its chronicle (obituaries, travellers setting
/// out) are appended to `log`.
pub fn tick<R: Fn(u64, Odds) -> bool>(game: &mut Game, command: Command, roll: &R, log: &mut Vec<String>) -> (out: Output)
    requires
        old(game).wf(),
        old(game).world.epoch.0 < u64::MAX - 2,
        old(game).world.map.anchor_seq().len() > 0,
        rolls_total(*roll),
    ensures
        final(game).wf(),
        out.forced_paused == (final(game).interaction is Some || !time_may_flow_spec(&final(game).world)),
        final(game).world.epoch.0 == old(game).world.epoch.0 || (command.advance_time && final(game).world.epoch.0
            == old(game).world.epoch.0 + 1),
        forall|x: EntityId| #[trigger] final(game).world.ids.alive(x) ==> old(game).world.ids.alive(x),
        old(game).world.ids.alive(command.remove) ==> !final(game).world.ids.alive(command.remove),
        forall|x: EntityId|
            #[trigger] old(game).world.ids.alive(x) && !final(game).world.ids.alive(x) ==> x == command.remove
                || old(game).world.ids.marks().contains(x) || (final(game).world.epoch.0 == old(game).world.epoch.0 + 1
                && died_of_age(&final(game).world, x, *roll)),
        forall|x: EntityId|
            #[trigger] final(game).world.ids.alive(x) && final(game).world.epoch.0 == old(game).world.epoch.0 + 1
                ==> !doomed(&final(game).world, x, *roll),
        final(game).world.epoch.0 == old(game).world.epoch.0 + 1 <==> command.advance_time && day_may_pass(&*old(game), command),
        command.choose is None && (old(game).interaction is Some || (command.activity is None && !command.wait
            && !time_may_flow_spec(&old(game).world))) ==> final(game).world.epoch == old(game).world.epoch,
        command.advance_time && command.choose is None && command.activity is None && !command.wait && old(
            game,
        ).interaction is None && time_may_flow_spec(&old(game).world) && old(game).world.ids.marks().len() == 0
            && player_spec(&old(game).world) != Some(command.remove) ==> final(game).world.epoch.0 == old(
            game,
        ).world.epoch.0 + 1,
        forall|x: EntityId|
            #[trigger] final(game).world.ids.alive(x) && final(game).world.state.positions.row(x.idx() as int).1 != old(
                game,
            ).world.state.positions.row(x.idx() as int).1 ==> final(game).world.epoch.0 == old(game).world.epoch.0 + 1 && (
            old(game).world.state.activities.row(x.idx() as int).1.verb == ActivityVerb::Travel || (player_spec(
                &old(game).world,
            ) == Some(x) && command.activity == Some(ActivityVerb::Travel))),
        forall|x: EntityId|
            #[trigger] final(game).world.ids.alive(x) && final(game).world.state.activities.row(x.idx() as int).1.verb
                == ActivityVerb::Travel ==> old(game).world.state.activities.row(x.idx() as int).1.verb == ActivityVerb::Travel
                || (player_spec(&old(game).world) == Some(x) && command.activity == Some(ActivityVerb::Travel))
                || (final(game).world.epoch.0 == old(game).world.epoch.0 + 1 && player_spec(&old(game).world) != Some(x)
                && wandered(*roll)),
        forall|x: EntityId|
            #[trigger] final(game).world.ids.alive(x) && final(game).world.epoch.0 == old(game).world.epoch.0 + 1 ==> ({
                let m = row_map(final(game).world.state.relations.row(x.idx() as int));
                let pos = final(game).world.state.positions.row(x.idx() as int).1;
                let here = final(game).world.map.cell_at(pos.x as int, pos.y as int).settlement;
                &&& forall|k: EdgeKey|
                    k.0 == LOCATED_IN && #[trigger] m.contains_key(k) ==> pos != (CellPos { x: 0, y: 0 }) && k.1 == here
                &&& pos != (CellPos { x: 0, y: 0 }) && final(game).world.ids.alive(here) ==> m.contains_key((LOCATED_IN, here))
                    && m[(LOCATED_IN, here)] == UNIT_WEIGHT
            }),
        forall|x: EntityId|
            #[trigger] final(game).world.ids.alive(x) && final(game).world.state.positions.row(x.idx() as int).1 != old(
                game,
            ).world.state.positions.row(x.idx() as int).1 ==> steps_to(
                old(game).world.map.cells(),
                old(game).world.map.grid_width(),
                old(game).world.map.grid_height(),
                old(game).world.state.positions.row(x.idx() as int).1,
                final(game).world.state.positions.row(x.idx() as int).1,
            ),
        forall|x: EntityId|
            #[trigger] final(game).world.ids.alive(x) && final(game).world.epoch.0 == old(game).world.epoch.0 + 1
                && player_spec(&old(game).world) != Some(x) && ({
                let a = old(game).world.state.activities.row(x.idx() as int).1;
                let pos = old(game).world.state.positions.row(x.idx() as int).1;
                let m = old(game).world.map;
                &&& a.verb == ActivityVerb::Travel
                &&& a.until.0 > final(game).world.epoch.0
                &&& pos != a.destination
                &&& astar_route(m.cells(), m.grid_width(), m.grid_height(), pos, a.destination) is Some
                &&& grid_cell_at(m.cells(), m.grid_width(), m.grid_height(), CellPos { x: 0, y: 0 }).cost == 0
            }) ==> final(game).world.state.positions.row(x.idx() as int).1 != old(game).world.state.positions.row(
                x.idx() as int,
            ).1,
        final(game).world.map == old(game).world.map,
        final(game).spatial_map.grid_width() == final(game).world.map.grid_width(),
        final(game).spatial_map.grid_height() == final(game).world.map.grid_height(),
        forall|x: int, y: int|
            0 <= x < final(game).world.map.grid_width() && 0 <= y < final(game).world.map.grid_height()
                ==> #[trigger] final(game).spatial_map.at_cell(x, y) == crate::game::spatial_map::standing(
                &final(game).world.ids,
                &final(game).world.state.positions,
                final(game).world.map.grid_width(),
                final(game).world.map.grid_height(),
                x,
                y,
                CAPACITY as int,
            ),
{
    let ghost start = *game;
    pick_phase(game, command.choose);
    let ghost picked = *game;
    order_phase(game, command);
    let ghost ordered_world = game.world;
    removal_phase(game, command, log);
    let ghost removed = game.world;

    // Time: a request, declined while an interaction waits or the player
    // isn't occupying the time that would pass.
    let day_passes = command.advance_time && game.interaction.is_none() && time_may_flow(&game.world);
    proof {
        if command.choose is None && command.activity is None && !command.wait {
            assert(picked.world == start.world && picked.interaction == start.interaction);
            assert(game.interaction == start.interaction);
            match player_spec(&start.world) {
                Some(p) => {
                    assert(start.world.ids.alive(p));
                    assert(ordered_world.state.activities.row(p.idx() as int) == start.world.state.activities.row(p.idx() as int));
                    match player_spec(&removed) {
                        Some(q) => {
                            assert(q == p);
                        },
                        None => {},
                    }
                    assert(time_may_flow_spec(&removed) ==> time_may_flow_spec(&start.world));
                    if start.interaction is None && time_may_flow_spec(&start.world) && start.world.ids.marks().len() == 0
                        && Some(p) != Some(command.remove) {
                        assert(removed.ids.alive(p));
                        assert(removed.tags.map().contains_key("player"@));
                        assert(player_spec(&removed) == Some(p));
                        assert(time_may_flow_spec(&removed));
                    }
                },
                None => {
                    assert(player_spec(&removed) is None);
                },
            }
        }
    }
    let mut events: Vec<Event> = Vec::new();
    let ghost mut day_world = game.world;
    if day_passes {
        game.world.epoch.advance();
        proof {
            assert forall|i: int| 0 <= i < CAPACITY implies (#[trigger] game.world.state.activities.row(i)).1.start.0
                <= game.world.epoch.0 by {
            }
        }
        let p = player(&game.world);
        proof {
            day_world = game.world;
        }
        events = day_pass(game, p, roll, log);
    }
    let ghost passed = game.world;
    resolve_events(game, &events, log);
    let ghost before_sweep = game.world;
    game.world.sweep();
    proof {
        lemma_sweep_shrinks(before_sweep.ids, game.world.ids, swept_ids(before_sweep.ids.marks(), before_sweep.ids));
        assert(ordered_world.ids == start.world.ids);
        assert forall|x: EntityId|
            #[trigger] start.world.ids.alive(x) && !game.world.ids.alive(x) implies x == command.remove
                || start.world.ids.marks().contains(x) || (game.world.epoch.0 == start.world.epoch.0 + 1 && died_of_age(
                &game.world,
                x,
                *roll,
            )) by {
            assert(ordered_world.ids.alive(x));
            if !removed.ids.alive(x) {
                assert(x == command.remove || ordered_world.ids.marks().contains(x));
            }
            if removed.ids.alive(x) {
                let marks = before_sweep.ids.marks();
                assert(passed.ids == removed.ids);
                assert(before_sweep.ids.alive(x) == passed.ids.alive(x));
                assert(before_sweep.ids.alive(x));
                assert(!swept_ids(marks, before_sweep.ids).contains(x) ==> game.world.ids.alive(x));
                lemma_swept_were_marked(marks, before_sweep.ids, x);
                assert(passed.ids == removed.ids);
                let k = choose|k: int| 0 <= k < marks.len() && marks[k] == x;
                if k < removed.ids.marks().len() {
                    assert(removed.ids.marks()[k] == x);
                    assert(removed.ids.marks() == start.world.ids.marks());
                    assert(start.world.ids.marks().contains(x));
                } else {
                    let ds = death_subjects(events@);
                    assert(ds[k - removed.ids.marks().len()] == x);
                    lemma_death_subject(events@, x);
                    assert(day_passes);
                    let j = choose|j: int| 0 <= j < events@.len() && (#[trigger] events@[j]).kind == EventKind::Death
                        && events@[j].subject == x;
                    assert(events@[j].kind == EventKind::Death);
                    let w0 = day_world;
                    assert(died_of_age(&w0, x, *roll));
                    assert(game.world.epoch == w0.epoch);
                    assert(w0.epoch.0 == start.world.epoch.0 + 1);
                    assert((x.idx() as int) < CAPACITY);
                    assert(game.world.state.uvars.value(x.idx() as int, 1) == w0.state.uvars.value(x.idx() as int, 1));
                    assert(birth(&game.world, x) == birth(&w0, x));
                    assert(birthday_spec(&game.world, x));
                    assert(age_spec(&game.world, x) == age_spec(&w0, x));
                    assert(died_of_age(&game.world, x, *roll));
                }
            }
        }
    }
    proof {
        assert forall|x: EntityId|
            #[trigger] game.world.ids.alive(x) && game.world.epoch.0 == start.world.epoch.0 + 1 implies !doomed(
            &game.world,
            x,
            *roll,
        ) by {
            assert(day_passes);
            lemma_doomed_die(day_world, passed, before_sweep, game.world, events@, x, *roll);
        }
    }
    proof {
        assert forall|x: EntityId|
            #[trigger] game.world.ids.alive(x) && game.world.epoch.0 == start.world.epoch.0 + 1 implies ({
                let m = row_map(game.world.state.relations.row(x.idx() as int));
                let pos = game.world.state.positions.row(x.idx() as int).1;
                let here = game.world.map.cell_at(pos.x as int, pos.y as int).settlement;
                &&& forall|k: EdgeKey|
                    k.0 == LOCATED_IN && #[trigger] m.contains_key(k) ==> pos != (CellPos { x: 0, y: 0 }) && k.1 == here
                &&& pos != (CellPos { x: 0, y: 0 }) && game.world.ids.alive(here) ==> m.contains_key((LOCATED_IN, here))
                    && m[(LOCATED_IN, here)] == UNIT_WEIGHT
            }) by {
            assert(day_passes);
            assert(before_sweep.ids.alive(x));
            assert(passed.ids.alive(x));
            assert(passed.ids == day_world.ids);
            assert(day_world.ids.slot(x.idx() as int).valid());
            assert(game.world.state == passed.state);
            let pos = game.world.state.positions.row(x.idx() as int).1;
            let here = game.world.map.cell_at(pos.x as int, pos.y as int).settlement;
            assert(located_row(
                row_map(passed.state.relations.row(x.idx() as int)),
                located_spec(pos, &day_world.map, &day_world.ids),
            ));
            assert(game.world.map == day_world.map);
            let place = located_spec(pos, &day_world.map, &day_world.ids);
            let m = row_map(game.world.state.relations.row(x.idx() as int));
            assert(place != EntityId::null_spec() ==> pos != (CellPos { x: 0, y: 0 }) && place == here);
            assert forall|k: EdgeKey| k.0 == LOCATED_IN && #[trigger] m.contains_key(k) implies pos != (CellPos {
                x: 0,
                y: 0,
            }) && k.1 == here by {
                assert(place != EntityId::null_spec() && k.1 == place);
            }
            if pos != (CellPos { x: 0, y: 0 }) && game.world.ids.alive(here) {
                assert(before_sweep.ids.alive(here));
                assert(day_world.ids.alive(here));
                assert(place == here);
                EntityId::lemma_make(0, 0);
                assert(!EntityId::null_spec().valid());
                assert(place != EntityId::null_spec());
            }
        }
    }
    proof {
        assert forall|x: EntityId|
            #[trigger] game.world.ids.alive(x) && game.world.state.activities.row(x.idx() as int).1.verb == ActivityVerb::Travel
                implies start.world.state.activities.row(x.idx() as int).1.verb == ActivityVerb::Travel || (player_spec(
                &start.world,
            ) == Some(x) && command.activity == Some(ActivityVerb::Travel)) || (game.world.epoch.0 == start.world.epoch.0 + 1
                && player_spec(&start.world) != Some(x) && wandered(*roll)) by {
            let i = x.idx() as int;
            assert(before_sweep.ids.alive(x));
            assert(passed.ids.alive(x));
            assert(removed.ids.alive(x));
            assert(game.world.state == passed.state);
            assert(removed.state.activities == ordered_world.state.activities);
            let ordered_travel = ordered_world.state.activities.row(i).1.verb == ActivityVerb::Travel;
            if ordered_travel {
                match player_spec(&picked.world) {
                    Some(p) => {
                        if i == p.idx() {
                            assert(picked.world.ids.alive(p));
                            assert(x == p);
                        } else {
                            assert(ordered_world.state.activities.row(i) == picked.world.state.activities.row(i));
                        }
                    },
                    None => {
                        assert(ordered_world.state.activities.row(i) == picked.world.state.activities.row(i));
                    },
                }
            }
            if day_passes {
                assert(day_world.state.activities == removed.state.activities);
                assert(day_world.ids.slot(i) == x);
                if player_spec(&start.world) == Some(x) {
                    assert(start.world.tags.map().contains_key("player"@));
                    assert(removed.tags.map().contains_key("player"@));
                    assert(player_spec(&day_world) == Some(x));
                }
            } else {
                assert(game.world.state.activities == removed.state.activities);
            }
        }
    }
    proof {
        assert(picked.world.state.positions == start.world.state.positions);
        assert(ordered_world.state.positions == start.world.state.positions);
        assert(removed.state.positions == start.world.state.positions);
        assert forall|x: EntityId|
            #[trigger] game.world.ids.alive(x) && game.world.state.positions.row(x.idx() as int).1
                != start.world.state.positions.row(x.idx() as int).1 implies steps_to(
            start.world.map.cells(),
            start.world.map.grid_width(),
            start.world.map.grid_height(),
            start.world.state.positions.row(x.idx() as int).1,
            game.world.state.positions.row(x.idx() as int).1,
        ) by {
            assert(game.world.state == passed.state);
            if !day_passes {
                assert(passed.state.positions == removed.state.positions);
            } else {
                assert(day_world.state.positions == removed.state.positions);
                assert(day_world.map == start.world.map);
            }
        }
        assert forall|x: EntityId|
            #[trigger] game.world.ids.alive(x) && game.world.epoch.0 == start.world.epoch.0 + 1 && player_spec(&start.world)
                != Some(x) && ({
                let a = start.world.state.activities.row(x.idx() as int).1;
                let pos = start.world.state.positions.row(x.idx() as int).1;
                let m = start.world.map;
                &&& a.verb == ActivityVerb::Travel
                &&& a.until.0 > game.world.epoch.0
                &&& pos != a.destination
                &&& astar_route(m.cells(), m.grid_width(), m.grid_height(), pos, a.destination) is Some
                &&& grid_cell_at(m.cells(), m.grid_width(), m.grid_height(), CellPos { x: 0, y: 0 }).cost == 0
            }) implies game.world.state.positions.row(x.idx() as int).1 != start.world.state.positions.row(
            x.idx() as int,
        ).1 by {
            let i = x.idx() as int;
            assert(day_passes);
            assert(before_sweep.ids.alive(x));
            assert(passed.ids.alive(x));
            assert(day_world.ids.slot(i) == x);
            assert(game.world.state == passed.state);
            assert(day_world.state.positions == removed.state.positions);
            assert(day_world.map == start.world.map);
            // The entity's activity reaches the day unchanged: only the player's
            // is touched by a pick or an order.
            assert(player_spec(&picked.world) == player_spec(&start.world));
            assert(picked.world.state.activities.row(i) == start.world.state.activities.row(i)) by {
                if pick_valid(start.interaction, command.choose) {
                    let c = start.interaction->0.choices@[command.choose->0 as int];
                    if c.effect == Effect::RestHere {
                        match player_spec(&start.world) {
                            Some(p) => {
                                assert(start.world.ids.alive(p));
                                assert(i != p.idx());
                            },
                            None => {},
                        }
                    }
                }
            }
            match player_spec(&picked.world) {
                Some(p) => {
                    assert(picked.world.ids.alive(p));
                    assert(i != p.idx());
                },
                None => {},
            }
            assert(ordered_world.state.activities.row(i) == picked.world.state.activities.row(i));
            assert(day_world.state.activities.row(i) == start.world.state.activities.row(i));
            assert(must_move(&day_world, i));
        }
    }
    game.spatial_map.rebuild(&game.world);
    let may_flow = time_may_flow(&game.world);
    Output { forced_paused: game.interaction.is_some() || !may_flow }
}

} // verus!
