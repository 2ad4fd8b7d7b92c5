//! The per-frame bridge from the sim to the UI: the sim state a UI script
//! binds to, dumped into a [`UiData`]. Read-only, once per render.

use vstd::prelude::*;
use vstd::string::StringSliceAdditionalSpecFns;
use vstd::utf8::*;
use crate::entities::defs::UVarId;
use crate::entities::id::{EntityId, CAPACITY};
use crate::game::date::{Date, date_text};
use crate::game::defs::Gender;
use crate::game::game::{
    Game, age, age_spec, date_of, name_chars, name_of, player, player_spec, sim_world, starts_past, GENDER, PEOPLE,
};
use crate::game::interaction::{Choice, Interaction};
use crate::game::map::CellPos;
use crate::game::world::{ActivityVerb, World};
use crate::ui::ir::{UiData, UiModel, UiOp, after_op, after_ops, has_room, lemma_after_ops_push, model, ops_bytes, ops_rows, ops_bindings};
use crate::util::decimal::{decimal, format_u64};
use crate::util::text::{string_bytes, string_push_str};

verus! {

broadcast use encode_utf8_decode_utf8;

/// The members of People among the first `n` slots, in slot order.
pub open spec fn people_upto(w: &World, n: int) -> Seq<EntityId>
    decreases n,
{
    if n <= 0 {
        Seq::empty()
    } else if w.ids.member(w.ids.slot(n - 1), PEOPLE as int) {
        people_upto(w, n - 1).push(w.ids.slot(n - 1))
    } else {
        people_upto(w, n - 1)
    }
}

/// Every live person, in slot order.
pub open spec fn people(w: &World) -> Seq<EntityId> {
    people_upto(w, CAPACITY as int)
}

/// What a person is doing, as the roster shows it.
pub open spec fn doing_text(w: &World, id: EntityId) -> Seq<char> {
    let a = w.state.activities.row(id.idx() as int).1;
    match a.verb {
        ActivityVerb::Idle => Seq::empty(),
        ActivityVerb::Rest => "· resting ("@ + decimal((w.epoch.0 - a.start.0) as nat) + "d)"@,
        ActivityVerb::Travel => {
            let place = w.map.cell_at(a.destination.x as int, a.destination.y as int).settlement;
            if w.ids.alive(place) {
                "· travelling to "@ + name_chars(w, place)
            } else {
                "· travelling"@
            }
        },
    }
}

/// The settlement whose cell a person is travelling toward, if any.
pub open spec fn bound_for(w: &World, id: EntityId) -> EntityId {
    let a = w.state.activities.row(id.idx() as int).1;
    w.map.cell_at(a.destination.x as int, a.destination.y as int).settlement
}

/// A traveller's roster line names where they are going: travelling toward
/// a cell of a live settlement reads "· travelling to " and then that
/// settlement's name; the bare "· travelling" only when the destination
/// belongs to no live settlement. So two travellers bound for settlements
/// of different names read differently.
pub proof fn lemma_travelling_names_destination(w: &World, a: EntityId, b: EntityId)
    ensures
        w.state.activities.row(a.idx() as int).1.verb == ActivityVerb::Travel ==> {
            &&& w.ids.alive(bound_for(w, a)) ==> doing_text(w, a) == "· travelling to "@ + name_chars(w, bound_for(w, a))
            &&& !w.ids.alive(bound_for(w, a)) ==> doing_text(w, a) == "· travelling"@
        },
        w.state.activities.row(a.idx() as int).1.verb == ActivityVerb::Travel && w.state.activities.row(
            b.idx() as int,
        ).1.verb == ActivityVerb::Travel && w.ids.alive(bound_for(w, a)) && w.ids.alive(bound_for(w, b)) && name_chars(
            w,
            bound_for(w, a),
        ) != name_chars(w, bound_for(w, b)) ==> doing_text(w, a) != doing_text(w, b),
{
    let pre = "· travelling to "@;
    if w.state.activities.row(a.idx() as int).1.verb == ActivityVerb::Travel && w.state.activities.row(
        b.idx() as int,
    ).1.verb == ActivityVerb::Travel && w.ids.alive(bound_for(w, a)) && w.ids.alive(bound_for(w, b)) && name_chars(
        w,
        bound_for(w, a),
    ) != name_chars(w, bound_for(w, b)) {
        let na = name_chars(w, bound_for(w, a));
        let nb = name_chars(w, bound_for(w, b));
        if doing_text(w, a) == doing_text(w, b) {
            assert((pre + na).skip(pre.len() as int) =~= na);
            assert((pre + nb).skip(pre.len() as int) =~= nb);
        }
    }
}

/// The settlement a person stands in, if any.
pub open spec fn place_of(w: &World, id: EntityId) -> EntityId {
    let pos = w.state.positions.row(id.idx() as int).1;
    w.map.cell_at(pos.x as int, pos.y as int).settlement
}

/// One roster row: id, name, age, doing, and where and whether male when
/// there is something to say.
pub open spec fn person_ops(w: &World, id: EntityId) -> Seq<UiOp> {
    let base = seq![
        UiOp::Row,
        UiOp::Bind(bytes("ID"@), bytes(decimal(id.bits() as nat))),
        UiOp::Bind(bytes("NAME"@), w.names.name(id.idx() as int)),
        UiOp::Bind(bytes("AGE"@), bytes(decimal(age_spec(w, id) as nat))),
        UiOp::Bind(bytes("ACTIVITY"@), bytes(doing_text(w, id))),
    ];
    let place = place_of(w, id);
    let with_place = if w.ids.alive(place) {
        base.push(UiOp::Bind(bytes("PLACE"@), w.names.name(place.idx() as int)))
    } else {
        base
    };
    if w.state.uvars.value(id.idx() as int, GENDER as int) != 1 {
        with_place.push(UiOp::Bind(bytes("IS_MALE"@), bytes("yes"@)))
    } else {
        with_place
    }
}

/// The roster rows of `ids`, in order.
pub open spec fn people_ops(w: &World, ids: Seq<EntityId>) -> Seq<UiOp>
    decreases ids.len(),
{
    if ids.len() == 0 {
        Seq::empty()
    } else {
        people_ops(w, ids.drop_last()) + person_ops(w, ids.last())
    }
}

/// A choice's caption: disabled choices fold their reason in, since a
/// disabled element senses nothing and can't carry a tooltip.
pub open spec fn caption(c: Choice) -> Seq<char> {
    if c.disabled@.len() == 0 {
        c.text@
    } else {
        c.text@ + " — "@ + c.disabled@
    }
}

/// One choice row.
pub open spec fn choice_ops(index: int, c: Choice) -> Seq<UiOp> {
    seq![
        UiOp::Row,
        UiOp::Bind(bytes("INDEX"@), bytes(decimal(index as nat))),
        UiOp::Bind(bytes("ENABLED"@), bytes(if c.disabled@.len() == 0 { "yes"@ } else { "no"@ })),
        UiOp::Bind(bytes("CHOICE"@), bytes(caption(c))),
    ]
}

/// The choice rows of the first `n` choices.
pub open spec fn choices_ops(cs: Seq<Choice>, n: int) -> Seq<UiOp>
    decreases n,
{
    if n <= 0 {
        Seq::empty()
    } else {
        choices_ops(cs, n - 1) + choice_ops(n - 1, cs[n - 1])
    }
}

/// The interaction window: bound only while one is open.
pub open spec fn interaction_ops(i: Option<Interaction>) -> Seq<UiOp> {
    match i {
        Some(i) => seq![
            UiOp::Global(bytes("INTERACTION"@), bytes("yes"@)),
            UiOp::Global(bytes("INT_TITLE"@), bytes(i.title@)),
            UiOp::Global(bytes("INT_TEXT"@), bytes(i.text@)),
            UiOp::List(bytes("choices"@)),
        ] + choices_ops(i.choices@, i.choices@.len() as int),
        None => Seq::empty(),
    }
}

/// The player's occupation toggle: unbound when there is no player.
pub open spec fn player_ops(w: &World) -> Seq<UiOp> {
    match player_spec(w) {
        Some(p) => {
            let idle = w.state.activities.row(p.idx() as int).1.verb == ActivityVerb::Idle;
            seq![
                UiOp::Global(bytes("HAS_PLAYER"@), bytes("yes"@)),
                UiOp::Global(bytes("PLAYER_BUTTON"@), bytes(if idle { "Rest"@ } else { "Stop"@ })),
                UiOp::Global(bytes("PLAYER_ACTION"@), bytes(if idle { "rest"@ } else { "stop"@ })),
            ]
        },
        None => Seq::empty(),
    }
}

/// Everything a frame binds, in order.
pub open spec fn fill_ops(g: &Game) -> Seq<UiOp> {
    header_ops(&g.world) + player_ops(&g.world) + interaction_ops(g.interaction) + roster_ops(&g.world)
}

/// Text's UTF-8 bytes.
pub open spec fn bytes(s: Seq<char>) -> Seq<u8> {
    encode_utf8(s)
}


/// `a` is where `b` starts.
pub open spec fn is_prefix(a: Seq<UiOp>, b: Seq<UiOp>) -> bool {
    a.len() <= b.len() && b.subrange(0, a.len() as int) == a
}

proof fn lemma_ops_nonneg(ops: Seq<UiOp>)
    ensures
        ops_bytes(ops) >= 0,
        ops_rows(ops) >= 0,
        ops_bindings(ops) >= 0,
    decreases ops.len(),
{
    if ops.len() > 0 {
        lemma_ops_nonneg(ops.drop_last());
    }
}

/// Filling grows the buffers by exactly what the steps add.
proof fn lemma_sizes(m: UiModel, ops: Seq<UiOp>)
    ensures
        after_ops(m, ops).bytes.len() == m.bytes.len() + ops_bytes(ops),
        after_ops(m, ops).rows.len() == m.rows.len() + ops_rows(ops),
        after_ops(m, ops).bindings.len() == m.bindings.len() + ops_bindings(ops),
    decreases ops.len(),
{
    if ops.len() > 0 {
        lemma_sizes(m, ops.drop_last());
    }
}

/// A prefix adds no more than the whole.
proof fn lemma_prefix_room(m: UiModel, a: Seq<UiOp>, b: Seq<UiOp>)
    requires
        is_prefix(a, b),
    ensures
        ops_bytes(a) <= ops_bytes(b),
        ops_rows(a) <= ops_rows(b),
        ops_bindings(a) <= ops_bindings(b),
{
    let rest = b.subrange(a.len() as int, b.len() as int);
    assert(b =~= a + rest);
    crate::ui::ir::lemma_after_ops_concat(m, a, rest);
    lemma_ops_nonneg(rest);
}

/// A prefix of a middle segment is a prefix of the whole.
proof fn lemma_prefix_within(head: Seq<UiOp>, p: Seq<UiOp>, s: Seq<UiOp>, tail: Seq<UiOp>)
    requires
        is_prefix(p, s),
    ensures
        is_prefix(head + p, head + s + tail),
{
    assert((head + s + tail).subrange(0, (head + p).len() as int) =~= head + p);
}

/// Room left for a fill whose steps so far are `done` and whose next step
/// is `op`.
pub open spec fn step_ok(data: &UiData, m0: UiModel, done: Seq<UiOp>, op: UiOp, all: Seq<UiOp>) -> bool {
    &&& data.well_formed()
    &&& model(data) == after_ops(m0, done)
    &&& is_prefix(done.push(op), all)
    &&& m0.bytes.len() + ops_bytes(all) <= u32::MAX
    &&& m0.rows.len() + ops_rows(all) < u32::MAX
    &&& m0.bindings.len() + ops_bindings(all) < u32::MAX
}

fn run_global(data: &mut UiData, key: &str, value: &str, Ghost(m0): Ghost<UiModel>, Ghost(done): Ghost<Seq<UiOp>>, Ghost(all): Ghost<Seq<UiOp>>)
    requires
        step_ok(old(data), m0, done, UiOp::Global(key.spec_bytes(), value.spec_bytes()), all),
    ensures
        final(data).well_formed(),
        model(final(data)) == after_ops(m0, done.push(UiOp::Global(key.spec_bytes(), value.spec_bytes()))),
{
    let ghost op = UiOp::Global(key.spec_bytes(), value.spec_bytes());
    proof {
        lemma_sizes(m0, done);
        lemma_prefix_room(m0, done.push(op), all);
        assert(done.push(op).drop_last() =~= done);
    }
    data.bind_global(key, value);
    proof {
        lemma_after_ops_push(m0, done, op);
    }
}

fn run_list(data: &mut UiData, id: &str, Ghost(m0): Ghost<UiModel>, Ghost(done): Ghost<Seq<UiOp>>, Ghost(all): Ghost<Seq<UiOp>>)
    requires
        step_ok(old(data), m0, done, UiOp::List(id.spec_bytes()), all),
    ensures
        final(data).well_formed(),
        model(final(data)) == after_ops(m0, done.push(UiOp::List(id.spec_bytes()))),
{
    let ghost op = UiOp::List(id.spec_bytes());
    proof {
        lemma_sizes(m0, done);
        lemma_prefix_room(m0, done.push(op), all);
        assert(done.push(op).drop_last() =~= done);
    }
    data.begin_list(id);
    proof {
        lemma_after_ops_push(m0, done, op);
    }
}

fn run_row(data: &mut UiData, Ghost(m0): Ghost<UiModel>, Ghost(done): Ghost<Seq<UiOp>>, Ghost(all): Ghost<Seq<UiOp>>)
    requires
        step_ok(old(data), m0, done, UiOp::Row, all),
    ensures
        final(data).well_formed(),
        model(final(data)) == after_ops(m0, done.push(UiOp::Row)),
{
    proof {
        lemma_sizes(m0, done);
        lemma_prefix_room(m0, done.push(UiOp::Row), all);
        assert(done.push(UiOp::Row).drop_last() =~= done);
    }
    data.begin_row();
    proof {
        lemma_after_ops_push(m0, done, UiOp::Row);
    }
}

fn run_bind(data: &mut UiData, key: &str, value: &str, Ghost(m0): Ghost<UiModel>, Ghost(done): Ghost<Seq<UiOp>>, Ghost(all): Ghost<Seq<UiOp>>)
    requires
        step_ok(old(data), m0, done, UiOp::Bind(key.spec_bytes(), value.spec_bytes()), all),
    ensures
        final(data).well_formed(),
        model(final(data)) == after_ops(m0, done.push(UiOp::Bind(key.spec_bytes(), value.spec_bytes()))),
{
    let ghost op = UiOp::Bind(key.spec_bytes(), value.spec_bytes());
    proof {
        lemma_sizes(m0, done);
        lemma_prefix_room(m0, done.push(op), all);
        assert(done.push(op).drop_last() =~= done);
    }
    data.bind(key, value);
    proof {
        lemma_after_ops_push(m0, done, op);
    }
}


proof fn lemma_prefix_trans(a: Seq<UiOp>, b: Seq<UiOp>, c: Seq<UiOp>)
    requires
        is_prefix(a, b),
        is_prefix(b, c),
    ensures
        is_prefix(a, c),
{
    assert(c.subrange(0, a.len() as int) =~= b.subrange(0, a.len() as int));
}

/// The steps of a prefix of `x` after `done` are a prefix too.
proof fn lemma_prefix_take(done: Seq<UiOp>, x: Seq<UiOp>, all: Seq<UiOp>, j: int)
    requires
        is_prefix(done + x, all),
        0 <= j < x.len(),
    ensures
        is_prefix((done + x.take(j)).push(x[j]), all),
        (done + x.take(j)).push(x[j]) == done + x.take(j + 1),
{
    assert((done + x.take(j)).push(x[j]) =~= done + x.take(j + 1));
    lemma_prefix_within(done, x.take(j + 1), x, Seq::empty());
    assert(done + x + Seq::<UiOp>::empty() =~= done + x);
    lemma_prefix_trans(done + x.take(j + 1), done + x, all);
}

proof fn lemma_choices_prefix(cs: Seq<Choice>, k: int, n: int)
    requires
        0 <= k <= n,
    ensures
        is_prefix(choices_ops(cs, k), choices_ops(cs, n)),
    decreases n - k,
{
    if k < n {
        lemma_choices_prefix(cs, k, n - 1);
        assert(choices_ops(cs, n).subrange(0, choices_ops(cs, n - 1).len() as int) =~= choices_ops(cs, n - 1));
        lemma_prefix_trans(choices_ops(cs, k), choices_ops(cs, n - 1), choices_ops(cs, n));
    } else {
        assert(choices_ops(cs, n).subrange(0, choices_ops(cs, k).len() as int) =~= choices_ops(cs, k));
    }
}

proof fn lemma_people_prefix(w: &World, k: int, n: int)
    requires
        0 <= k <= n,
    ensures
        is_prefix(people_ops(w, people_upto(w, k)), people_ops(w, people_upto(w, n))),
    decreases n - k,
{
    if k < n {
        lemma_people_prefix(w, k, n - 1);
        let a = people_ops(w, people_upto(w, n - 1));
        let b = people_ops(w, people_upto(w, n));
        if w.ids.member(w.ids.slot(n - 1), PEOPLE as int) {
            assert(people_upto(w, n).drop_last() =~= people_upto(w, n - 1));
        }
        assert(b.subrange(0, a.len() as int) =~= a);
        lemma_prefix_trans(people_ops(w, people_upto(w, k)), a, b);
    } else {
        let a = people_ops(w, people_upto(w, k));
        assert(a.subrange(0, a.len() as int) =~= a);
    }
}

/// Binds one choice row.
fn fill_choice_row(data: &mut UiData, index: usize, c: &Choice, Ghost(m0): Ghost<UiModel>, Ghost(done): Ghost<Seq<UiOp>>, Ghost(all): Ghost<Seq<UiOp>>)
    requires
        old(data).well_formed(),
        model(old(data)) == after_ops(m0, done),
        is_prefix(done + choice_ops(index as int, *c), all),
        m0.bytes.len() + ops_bytes(all) <= u32::MAX,
        m0.rows.len() + ops_rows(all) < u32::MAX,
        m0.bindings.len() + ops_bindings(all) < u32::MAX,
    ensures
        final(data).well_formed(),
        model(final(data)) == after_ops(m0, done + choice_ops(index as int, *c)),
{
    let ghost x = choice_ops(index as int, *c);
    proof {
        lemma_prefix_take(done, x, all, 0);
        assert(done + x.take(0) =~= done);
    }
    run_row(data, Ghost(m0), Ghost(done), Ghost(all));
    let index_text = format_u64(index as u64);
    proof {
        lemma_prefix_take(done, x, all, 1);
    }
    run_bind(data, "INDEX", index_text.as_str(), Ghost(m0), Ghost(done + x.take(1)), Ghost(all));
    let enabled = c.disabled.as_str().is_empty();
    proof {
        lemma_prefix_take(done, x, all, 2);
    }
    run_bind(data, "ENABLED", if enabled { "yes" } else { "no" }, Ghost(m0), Ghost(done + x.take(2)), Ghost(all));
    let mut caption_text = String::new();
    string_push_str(&mut caption_text, c.text.as_str());
    if !enabled {
        string_push_str(&mut caption_text, " — ");
        string_push_str(&mut caption_text, c.disabled.as_str());
    }
    proof {
        lemma_prefix_take(done, x, all, 3);
        assert(caption_text@ == caption(*c));
    }
    run_bind(data, "CHOICE", caption_text.as_str(), Ghost(m0), Ghost(done + x.take(3)), Ghost(all));
    proof {
        assert(done + x.take(4) =~= done + x);
    }
}

/// What a person is doing, as the roster shows it.
fn doing_string(world: &World, id: EntityId) -> (s: String)
    requires
        sim_world(world),
        starts_past(world),
        world.ids.alive(id),
    ensures
        s@ == doing_text(world, id),
{
    let activity = world.activity(id);
    let mut doing = String::new();
    match activity.verb {
        ActivityVerb::Idle => {},
        ActivityVerb::Rest => {
            proof {
                assert(world.state.activities.row(id.idx() as int).1.start.0 <= world.epoch.0);
            }
            string_push_str(&mut doing, "· resting (");
            let days = format_u64(world.epoch.0 - activity.start.0);
            string_push_str(&mut doing, days.as_str());
            string_push_str(&mut doing, "d)");
        },
        ActivityVerb::Travel => {
            let place = world.map.cell(activity.destination).settlement;
            if world.ids.is_alive(place) {
                string_push_str(&mut doing, "· travelling to ");
                string_push_str(&mut doing, name_of(world, place));
            } else {
                string_push_str(&mut doing, "· travelling");
            }
        },
    }
    proof {
        assert(doing@ =~= doing_text(world, id));
    }
    doing
}

/// Binds one roster row.
#[verifier::rlimit(60)]
#[verifier::spinoff_prover]
fn fill_person_row(data: &mut UiData, world: &World, id: EntityId, Ghost(m0): Ghost<UiModel>, Ghost(done): Ghost<Seq<UiOp>>, Ghost(all): Ghost<Seq<UiOp>>)
    requires
        sim_world(world),
        starts_past(world),
        world.ids.alive(id),
        old(data).well_formed(),
        model(old(data)) == after_ops(m0, done),
        is_prefix(done + person_ops(world, id), all),
        m0.bytes.len() + ops_bytes(all) <= u32::MAX,
        m0.rows.len() + ops_rows(all) < u32::MAX,
        m0.bindings.len() + ops_bindings(all) < u32::MAX,
    ensures
        final(data).well_formed(),
        model(final(data)) == after_ops(m0, done + person_ops(world, id)),
{
    let ghost x = person_ops(world, id);
    proof {
        lemma_prefix_take(done, x, all, 0);
        assert(done + x.take(0) =~= done);
    }
    run_row(data, Ghost(m0), Ghost(done), Ghost(all));
    let id_text = id.to_string();
    proof {
        lemma_prefix_take(done, x, all, 1);
    }
    run_bind(data, "ID", id_text.as_str(), Ghost(m0), Ghost(done + x.take(1)), Ghost(all));
    proof {
        lemma_prefix_take(done, x, all, 2);
    }
    run_bind(data, "NAME", world.names.get(id), Ghost(m0), Ghost(done + x.take(2)), Ghost(all));
    let age_text = format_u64(age(world, id) as u64);
    proof {
        lemma_prefix_take(done, x, all, 3);
    }
    run_bind(data, "AGE", age_text.as_str(), Ghost(m0), Ghost(done + x.take(3)), Ghost(all));
    let doing = doing_string(world, id);
    proof {
        lemma_prefix_take(done, x, all, 4);
    }
    run_bind(data, "ACTIVITY", doing.as_str(), Ghost(m0), Ghost(done + x.take(4)), Ghost(all));
    let ghost mut k: int = 5;
    let pos = world.position(id);
    let place = world.map.cell(pos).settlement;
    if world.ids.is_alive(place) {
        proof {
            lemma_prefix_take(done, x, all, 5);
        }
        run_bind(data, "PLACE", world.names.get(place), Ghost(m0), Ghost(done + x.take(5)), Ghost(all));
        proof {
            k = 6;
        }
    }
    let gender: Gender = world.get_uvar(id, UVarId(GENDER));
    if gender == Gender::Male {
        proof {
            lemma_prefix_take(done, x, all, k);
        }
        run_bind(data, "IS_MALE", "yes", Ghost(m0), Ghost(done + x.take(k)), Ghost(all));
        proof {
            k = k + 1;
        }
    }
    proof {
        assert(k == x.len());
        assert(done + x.take(k) =~= done + x);
    }
}


/// A prefix of a segment, after the segments before it, starts the whole.
proof fn lemma_seg(head: Seq<UiOp>, p: Seq<UiOp>, s: Seq<UiOp>, tail: Seq<UiOp>, all: Seq<UiOp>)
    requires
        all == head + s + tail,
        is_prefix(p, s),
    ensures
        is_prefix(head + p, all),
{
    lemma_prefix_within(head, p, s, tail);
}

proof fn lemma_is_prefix_take(s: Seq<UiOp>, k: int)
    requires
        0 <= k <= s.len(),
    ensures
        is_prefix(s.take(k), s),
{
    assert(s.subrange(0, k) =~= s.take(k));
}

/// How many people there are.
fn count_people(world: &World) -> (n: u64)
    requires
        world.wf(),
    ensures
        n == people(world).len(),
{
    let mut n: u64 = 0;
    let mut slot: usize = 0;
    proof {
        world.ids.lemma_wf();
    }
    while slot < CAPACITY
        invariant
            world.wf(),
            slot <= CAPACITY,
            n == people_upto(world, slot as int).len(),
            n <= slot,
        decreases CAPACITY - slot,
    {
        let id = world.ids.id_at(slot);
        if world.ids.in_set(id, crate::entities::defs::SetId(PEOPLE)) {
            n = n + 1;
        }
        slot = slot + 1;
    }
    n
}

/// Room in 32-bit spans for everything `all` adds to `m0`.
pub open spec fn room(m0: UiModel, all: Seq<UiOp>) -> bool {
    &&& m0.bytes.len() + ops_bytes(all) <= u32::MAX
    &&& m0.rows.len() + ops_rows(all) < u32::MAX
    &&& m0.bindings.len() + ops_bindings(all) < u32::MAX
}

/// The status and date globals.
pub open spec fn header_ops(w: &World) -> Seq<UiOp> {
    seq![
        UiOp::Global(bytes("STATUS"@), bytes(decimal(people(w).len()) + " souls"@)),
        UiOp::Global(bytes("DATE"@), bytes(date_text(date_of(w.epoch)))),
    ]
}

fn fill_header(data: &mut UiData, world: &World, Ghost(m0): Ghost<UiModel>, Ghost(head): Ghost<Seq<UiOp>>, Ghost(tail): Ghost<Seq<UiOp>>, Ghost(all): Ghost<Seq<UiOp>>)
    requires
        world.wf(),
        old(data).well_formed(),
        model(old(data)) == after_ops(m0, head),
        all == head + header_ops(world) + tail,
        room(m0, all),
    ensures
        final(data).well_formed(),
        model(final(data)) == after_ops(m0, head + header_ops(world)),
{
    let ghost s1 = header_ops(world);
    let souls = count_people(world);
    let mut status = format_u64(souls);
    string_push_str(&mut status, " souls");
    proof {
        lemma_is_prefix_take(s1, 1);
        lemma_seg(head, s1.take(1), s1, tail, all);
        assert(head + s1.take(1) =~= head.push(s1[0]));
    }
    run_global(data, "STATUS", status.as_str(), Ghost(m0), Ghost(head), Ghost(all));
    let date = Date::of(world.epoch).to_string();
    let ghost d1 = head.push(s1[0]);
    proof {
        lemma_is_prefix_take(s1, 2);
        lemma_seg(head, s1.take(2), s1, tail, all);
        assert(head + s1.take(2) =~= d1.push(s1[1]));
    }
    run_global(data, "DATE", date.as_str(), Ghost(m0), Ghost(d1), Ghost(all));
    proof {
        assert(d1.push(s1[1]) =~= head + s1);
    }
}

fn fill_player(data: &mut UiData, world: &World, Ghost(m0): Ghost<UiModel>, Ghost(head): Ghost<Seq<UiOp>>, Ghost(tail): Ghost<Seq<UiOp>>, Ghost(all): Ghost<Seq<UiOp>>)
    requires
        world.wf(),
        old(data).well_formed(),
        model(old(data)) == after_ops(m0, head),
        all == head + player_ops(world) + tail,
        room(m0, all),
    ensures
        final(data).well_formed(),
        model(final(data)) == after_ops(m0, head + player_ops(world)),
{
    let ghost s2 = player_ops(world);
    match player(world) {
        Some(p) => {
            let idle = world.activity(p).verb == ActivityVerb::Idle;
            proof {
                lemma_is_prefix_take(s2, 1);
                lemma_seg(head, s2.take(1), s2, tail, all);
                assert(head + s2.take(1) =~= head.push(s2[0]));
                lemma_is_prefix_take(s2, 2);
                lemma_seg(head, s2.take(2), s2, tail, all);
                assert(head + s2.take(2) =~= head.push(s2[0]).push(s2[1]));
                lemma_is_prefix_take(s2, 3);
                lemma_seg(head, s2.take(3), s2, tail, all);
                assert(head + s2.take(3) =~= head.push(s2[0]).push(s2[1]).push(s2[2]));
            }
            run_global(data, "HAS_PLAYER", "yes", Ghost(m0), Ghost(head), Ghost(all));
            run_global(data, "PLAYER_BUTTON", if idle { "Rest" } else { "Stop" }, Ghost(m0), Ghost(head.push(s2[0])), Ghost(all));
            run_global(data, "PLAYER_ACTION", if idle { "rest" } else { "stop" }, Ghost(m0), Ghost(head.push(s2[0]).push(s2[1])), Ghost(all));
            proof {
                assert(head.push(s2[0]).push(s2[1]).push(s2[2]) =~= head + s2);
            }
        },
        None => {
            proof {
                assert(head + s2 =~= head);
            }
        },
    }
}

#[verifier::rlimit(40)]
fn fill_interaction(data: &mut UiData, interaction: &Option<Interaction>, Ghost(m0): Ghost<UiModel>, Ghost(head): Ghost<Seq<UiOp>>, Ghost(tail): Ghost<Seq<UiOp>>, Ghost(all): Ghost<Seq<UiOp>>)
    requires
        old(data).well_formed(),
        model(old(data)) == after_ops(m0, head),
        all == head + interaction_ops(*interaction) + tail,
        room(m0, all),
    ensures
        final(data).well_formed(),
        model(final(data)) == after_ops(m0, head + interaction_ops(*interaction)),
{
    let ghost s3 = interaction_ops(*interaction);
    match interaction {
        Some(i) => {
            let ghost cs = i.choices@;
            let ghost fixed = seq![s3[0], s3[1], s3[2], s3[3]];
            proof {
                assert(s3 =~= fixed + choices_ops(cs, cs.len() as int));
                assert(fixed + choices_ops(cs, cs.len() as int) + Seq::<UiOp>::empty() =~= s3);
                lemma_is_prefix_take(fixed, 1);
                lemma_is_prefix_take(fixed, 2);
                lemma_is_prefix_take(fixed, 3);
                lemma_choices_prefix(cs, 0, cs.len() as int);
                lemma_prefix_within(fixed, choices_ops(cs, 0), choices_ops(cs, cs.len() as int), Seq::empty());
                assert(fixed + choices_ops(cs, 0) =~= fixed);
                lemma_prefix_trans(fixed.take(1), fixed, s3);
                lemma_prefix_trans(fixed.take(2), fixed, s3);
                lemma_prefix_trans(fixed.take(3), fixed, s3);
                lemma_seg(head, fixed.take(1), s3, tail, all);
                lemma_seg(head, fixed.take(2), s3, tail, all);
                lemma_seg(head, fixed.take(3), s3, tail, all);
                lemma_seg(head, fixed, s3, tail, all);
                assert(head + fixed.take(1) =~= head.push(fixed[0]));
                assert(head + fixed.take(2) =~= head.push(fixed[0]).push(fixed[1]));
                assert(head + fixed.take(3) =~= head.push(fixed[0]).push(fixed[1]).push(fixed[2]));
                assert(head + fixed =~= head.push(fixed[0]).push(fixed[1]).push(fixed[2]).push(fixed[3]));
            }
            run_global(data, "INTERACTION", "yes", Ghost(m0), Ghost(head), Ghost(all));
            run_global(data, "INT_TITLE", i.title.as_str(), Ghost(m0), Ghost(head.push(fixed[0])), Ghost(all));
            run_global(data, "INT_TEXT", i.text.as_str(), Ghost(m0), Ghost(head.push(fixed[0]).push(fixed[1])), Ghost(all));
            run_list(data, "choices", Ghost(m0), Ghost(head.push(fixed[0]).push(fixed[1]).push(fixed[2])), Ghost(all));
            let ghost base = head + fixed;
            let mut k: usize = 0;
            proof {
                assert(base + choices_ops(cs, 0) =~= base);
            }
            while k < i.choices.len()
                invariant
                    data.well_formed(),
                    k <= cs.len(),
                    cs == i.choices@,
                    all == head + s3 + tail,
                    s3 == fixed + choices_ops(cs, cs.len() as int),
                    base == head + fixed,
                    model(data) == after_ops(m0, base + choices_ops(cs, k as int)),
                    room(m0, all),
                decreases cs.len() - k,
            {
                proof {
                    lemma_choices_prefix(cs, k + 1, cs.len() as int);
                    lemma_prefix_within(fixed, choices_ops(cs, k + 1), choices_ops(cs, cs.len() as int), Seq::empty());
                    assert(fixed + choices_ops(cs, cs.len() as int) + Seq::<UiOp>::empty() =~= s3);
                    lemma_seg(head, fixed + choices_ops(cs, k + 1), s3, tail, all);
                    assert(head + (fixed + choices_ops(cs, k + 1)) =~= base + choices_ops(cs, k as int) + choice_ops(
                        k as int,
                        cs[k as int],
                    ));
                }
                fill_choice_row(data, k, &i.choices[k], Ghost(m0), Ghost(base + choices_ops(cs, k as int)), Ghost(all));
                proof {
                    assert(base + choices_ops(cs, k as int) + choice_ops(k as int, cs[k as int]) =~= base + choices_ops(cs, k + 1));
                }
                k = k + 1;
            }
            proof {
                assert(base + choices_ops(cs, cs.len() as int) =~= head + s3);
            }
        },
        None => {
            proof {
                assert(head + s3 =~= head);
            }
        },
    }
}

/// The "people" list and its rows.
pub open spec fn roster_ops(w: &World) -> Seq<UiOp> {
    seq![UiOp::List(bytes("people"@))] + people_ops(w, people(w))
}

fn fill_roster(data: &mut UiData, world: &World, Ghost(m0): Ghost<UiModel>, Ghost(head): Ghost<Seq<UiOp>>, Ghost(all): Ghost<Seq<UiOp>>)
    requires
        sim_world(world),
        starts_past(world),
        old(data).well_formed(),
        model(old(data)) == after_ops(m0, head),
        all == head + roster_ops(world),
        room(m0, all),
    ensures
        final(data).well_formed(),
        model(final(data)) == after_ops(m0, head + roster_ops(world)),
{
    let ghost s4 = seq![UiOp::List(bytes("people"@))];
    let ghost s5 = people_ops(world, people(world));
    proof {
        assert(all =~= head + s4 + s5);
        assert(s4.subrange(0, 1) =~= s4);
        lemma_seg(head, s4, s4, s5, all);
        assert(head + s4 =~= head.push(s4[0]));
    }
    run_list(data, "people", Ghost(m0), Ghost(head), Ghost(all));
    let ghost head5 = head + s4;
    let mut slot: usize = 0;
    proof {
        world.ids.lemma_wf();
        assert(people_ops(world, people_upto(world, 0)) =~= Seq::<UiOp>::empty());
        assert(head5 + Seq::<UiOp>::empty() =~= head5);
        assert(all =~= head5 + s5 + Seq::<UiOp>::empty());
    }
    while slot < CAPACITY
        invariant
            sim_world(world),
            starts_past(world),
            data.well_formed(),
            slot <= CAPACITY,
            all == head5 + s5 + Seq::<UiOp>::empty(),
            s5 == people_ops(world, people_upto(world, CAPACITY as int)),
            model(data) == after_ops(m0, head5 + people_ops(world, people_upto(world, slot as int))),
            room(m0, all),
        decreases CAPACITY - slot,
    {
        let id = world.ids.id_at(slot);
        if world.ids.in_set(id, crate::entities::defs::SetId(PEOPLE)) {
            proof {
                lemma_people_prefix(world, slot + 1, CAPACITY as int);
                lemma_seg(head5, people_ops(world, people_upto(world, slot + 1)), s5, Seq::empty(), all);
                assert(people_upto(world, slot + 1).drop_last() =~= people_upto(world, slot as int));
                assert(head5 + people_ops(world, people_upto(world, slot + 1)) =~= head5 + people_ops(world, people_upto(world, slot as int))
                    + person_ops(world, id));
            }
            fill_person_row(data, world, id, Ghost(m0), Ghost(head5 + people_ops(world, people_upto(world, slot as int))), Ghost(all));
        }
        slot = slot + 1;
    }
    proof {
        assert(head5 + s5 =~= head + roster_ops(world));
    }
}

impl Game {
    /// The per-frame bridge: dumps the sim state the UI script binds to.
    /// Globals: "STATUS" ("<n> souls"), "DATE"; with a player, "HAS_PLAYER"
    /// and the occupation toggle's caption and action; with an open
    /// interaction, "INTERACTION", its title and text and a "choices" list.
    /// Then the "people" list: one row per live person in slot order.
    pub fn fill_ui_data(&self, data: &mut UiData)
        requires
            self.wf(),
            old(data).well_formed(),
            has_room(old(data), fill_ops(self)),
        ensures
            final(data).well_formed(),
            model(final(data)) == after_ops(model(old(data)), fill_ops(self)),
    {
        let ghost m0 = model(data);
        let ghost all = fill_ops(self);
        let ghost w = &self.world;
        let ghost s1 = header_ops(w);
        let ghost s2 = player_ops(w);
        let ghost s3 = interaction_ops(self.interaction);
        let ghost s45 = roster_ops(w);
        proof {
            assert(all =~= s1 + s2 + s3 + s45);
            assert(after_ops(m0, Seq::empty()) == m0);
            assert(Seq::<UiOp>::empty() + s1 + (s2 + s3 + s45) =~= all);
            assert(s1 + s2 + (s3 + s45) =~= all);
            assert(s1 + s2 + s3 + s45 =~= all);
            assert(Seq::<UiOp>::empty() + s1 =~= s1);
        }
        fill_header(data, &self.world, Ghost(m0), Ghost(Seq::empty()), Ghost(s2 + s3 + s45), Ghost(all));
        fill_player(data, &self.world, Ghost(m0), Ghost(s1), Ghost(s3 + s45), Ghost(all));
        fill_interaction(data, &self.interaction, Ghost(m0), Ghost(s1 + s2), Ghost(s45), Ghost(all));
        fill_roster(data, &self.world, Ghost(m0), Ghost(s1 + s2 + s3), Ghost(all));
        proof {
            assert(s1 + s2 + s3 + s45 =~= all);
        }
    }
}

} // verus!
