//! Interactions: the game's modal choice mechanism. An open interaction
//! lives beside the world, not in it, and while one is open time does not
//! flow. Picking a choice runs its effect, which transforms the world and
//! hands back the next interaction, if any.

use vstd::prelude::*;
use crate::entities::defs::RelationId;
use crate::entities::id::{EntityId, CAPACITY};
use crate::game::game::{
    firsts, joined_names, name_chars, name_of, player, player_spec, sim_world, via_in, LOCATED_IN, RULES,
};
use crate::game::map::CellPos;
use crate::game::world::{Activity, ActivityVerb, Epoch, World};
use crate::util::text::string_push_str;

verus! {

/// The arguments a choice was authored with, handed to its effect on pick.
#[derive(Clone, Copy, PartialEq, Eq, Structural, Debug)]
pub struct ChoiceParams {
    /// The entity the choice concerns (e.g. the settlement in question).
    pub target: EntityId,
}

impl Default for ChoiceParams {
    fn default() -> (p: ChoiceParams)
        ensures
            p.target == EntityId::null_spec(),
    {
        ChoiceParams { target: EntityId::null() }
    }
}

/// A choice's consequence.
#[derive(Clone, Copy, PartialEq, Eq, Structural, Debug)]
pub enum Effect {
    /// Close the interaction, change nothing.
    Close,
    /// The screen raised when the player's travel ends at a settlement.
    Arrival,
    /// Who is present at the settlement; chains back to `Arrival`.
    Company,
    /// An open-ended rest, same as the Rest button orders.
    RestHere,
}

pub struct Choice {
    /// Button caption.
    pub text: String,
    /// Empty = pickable; nonempty = why it can't be (shown to the player).
    pub disabled: String,
    pub effect: Effect,
    pub params: ChoiceParams,
}

pub struct Interaction {
    pub title: String,
    pub text: String,
    pub choices: Vec<Choice>,
}

/// A choice as plain data.
pub struct ChoiceView {
    pub text: Seq<char>,
    pub disabled: Seq<char>,
    pub effect: Effect,
    pub params: ChoiceParams,
}

/// An interaction as plain data.
pub struct InteractionView {
    pub title: Seq<char>,
    pub text: Seq<char>,
    pub choices: Seq<ChoiceView>,
}

pub open spec fn view_choice(c: Choice) -> ChoiceView {
    ChoiceView { text: c.text@, disabled: c.disabled@, effect: c.effect, params: c.params }
}

pub open spec fn view_interaction(i: Interaction) -> InteractionView {
    InteractionView { title: i.title@, text: i.text@, choices: i.choices@.map_values(|c: Choice| view_choice(c)) }
}

pub open spec fn view_opt(i: Option<Interaction>) -> Option<InteractionView> {
    match i {
        Some(i) => Some(view_interaction(i)),
        None => None,
    }
}

pub open spec fn choice_of(text: Seq<char>, disabled: Seq<char>, effect: Effect, params: ChoiceParams) -> ChoiceView {
    ChoiceView { text, disabled, effect, params }
}

/// Everyone but the player located in a settlement.
pub open spec fn company_of(w: &World, place: EntityId) -> Seq<EntityId> {
    firsts(via_in(w, place, LOCATED_IN)).filter(|other: EntityId| Some(other) != player_spec(w))
}

/// How a person reads: "no one" for nobody, else the name, and whom an
/// oath binds them to.
pub open spec fn person_text(w: &World, this: EntityId) -> Seq<char> {
    if this == EntityId::null_spec() {
        "no one"@
    } else {
        let sworn = via_in(w, this, crate::game::game::SWORN_TO);
        if sworn.len() > 0 {
            name_chars(w, this) + ", who is sworn to "@ + name_chars(w, sworn[0].0)
        } else {
            name_chars(w, this)
        }
    }
}

/// The settlement's ruler, or nobody.
pub open spec fn ruler_of(w: &World, place: EntityId) -> EntityId {
    let rulers = via_in(w, place, RULES);
    if rulers.len() > 0 {
        rulers[0].0
    } else {
        EntityId::null_spec()
    }
}

/// The arrival screen for `params.target`.
pub open spec fn arrival_view(w: &World, params: ChoiceParams) -> InteractionView {
    let name = name_chars(w, params.target);
    InteractionView {
        title: name,
        text: "You arrive at "@ + name + "."@ + " The settlement is ruled by "@ + person_text(
            w,
            ruler_of(w, params.target),
        ) + "."@,
        choices: seq![
            choice_of(
                "Seek out company"@,
                if company_of(w, params.target).len() == 0 { "no one of note is here"@ } else { Seq::empty() },
                Effect::Company,
                params,
            ),
            choice_of("Rest a while"@, Seq::empty(), Effect::RestHere, params),
            choice_of("Be on your way"@, Seq::empty(), Effect::Close, params),
        ],
    }
}

/// Arriving names the ruler: when some live entity has a Rules edge into
/// the settlement, the arrival text reads "... ruled by " and then the
/// first of them (the first source of the settlement's incoming Rules
/// edges), described by its own name and any oath; it reads "no one" only
/// when no live entity rules the settlement.
pub proof fn lemma_arrival_names_ruler(w: &World, params: ChoiceParams)
    requires
        w.wf(),
    ensures
        via_in(w, params.target, RULES).len() > 0 ==> {
            let r = via_in(w, params.target, RULES)[0].0;
            &&& w.ids.alive(r)
            &&& person_text(w, r).take(name_chars(w, r).len() as int) == name_chars(w, r)
            &&& arrival_view(w, params).text == "You arrive at "@ + name_chars(w, params.target) + "."@
                + " The settlement is ruled by "@ + person_text(w, r) + "."@
        },
        via_in(w, params.target, RULES).len() == 0 ==> arrival_view(w, params).text == "You arrive at "@ + name_chars(
            w,
            params.target,
        ) + "."@ + " The settlement is ruled by "@ + "no one"@ + "."@,
{
    crate::game::game::lemma_via_in_live(w, params.target, RULES);
    if via_in(w, params.target, RULES).len() > 0 {
        let r = via_in(w, params.target, RULES)[0].0;
        assert(w.ids.alive(r));
        EntityId::lemma_make(0, 0);
        assert(r != EntityId::null_spec());
        let n = name_chars(w, r);
        let sworn = via_in(w, r, crate::game::game::SWORN_TO);
        if sworn.len() > 0 {
            assert((n + ", who is sworn to "@ + name_chars(w, sworn[0].0)).take(n.len() as int) =~= n);
        } else {
            assert(n.take(n.len() as int) =~= n);
        }
    }
}

/// The company at a settlement is exactly who is there: the live entities
/// with a LocatedIn edge into it, the player excepted.
pub proof fn lemma_company_is_who_is_here(w: &World, place: EntityId, x: EntityId)
    requires
        w.wf(),
    ensures
        company_of(w, place).contains(x) <==> (exists|i: int|
            0 <= i < via_in(w, place, LOCATED_IN).len() && (#[trigger] via_in(w, place, LOCATED_IN)[i]).0 == x)
            && Some(x) != player_spec(w),
        company_of(w, place).contains(x) ==> w.ids.alive(x),
{
    crate::game::game::lemma_via_in_live(w, place, LOCATED_IN);
    let v = via_in(w, place, LOCATED_IN);
    let f = firsts(v);
    let pred = |other: EntityId| Some(other) != player_spec(w);
    assert(company_of(w, place) == f.filter(pred));
    if company_of(w, place).contains(x) {
        f.lemma_filter_contains_rev(pred, x);
        let k = choose|k: int| 0 <= k < f.len() && f[k] == x;
        assert(v[k].0 == x);
        #[allow(deprecated)]
        f.filter_lemma(pred);
        let j = choose|j: int| 0 <= j < f.filter(pred).len() && f.filter(pred)[j] == x;
        assert(pred(f.filter(pred)[j]));
    }
    if (exists|i: int| 0 <= i < v.len() && (#[trigger] v[i]).0 == x) && Some(x) != player_spec(w) {
        let i = choose|i: int| 0 <= i < v.len() && (#[trigger] v[i]).0 == x;
        assert(f[i] == x);
        f.lemma_filter_contains(pred, i);
    }
}

/// The company screen for `params.target`.
pub open spec fn company_view(w: &World, params: ChoiceParams) -> InteractionView {
    InteractionView {
        title: name_chars(w, params.target),
        text: "You find "@ + joined_names(w, company_of(w, params.target), ", "@) + " here."@,
        choices: seq![choice_of("Step back"@, Seq::empty(), Effect::Arrival, params)],
    }
}

/// The open-ended rest `rest_here` orders the player into.
pub open spec fn resting_from(e: Epoch) -> Activity {
    Activity { verb: ActivityVerb::Rest, start: e, until: Epoch(u64::MAX), destination: CellPos { x: 0, y: 0 } }
}

/// `after` is `before` with the player, if any, put to an open-ended rest
/// from today.
pub open spec fn rested(before: &World, after: &World) -> bool {
    match player_spec(before) {
        Some(p) => {
            &&& after.state.activities.row(p.idx() as int) == (p, resting_from(before.epoch))
            &&& forall|i: int| 0 <= i < CAPACITY && i != p.idx() ==> #[trigger] after.state.activities.row(i)
                == before.state.activities.row(i)
            &&& *after == (World { state: crate::game::world::WorldState { activities: after.state.activities, ..before.state }, ..*before })
        },
        None => *after == *before,
    }
}

/// The do-nothing effect: close the interaction, change nothing.
pub fn close(world: &World, params: ChoiceParams) -> (r: Option<Interaction>)
    ensures
        r is None,
{
    None
}

/// Everyone but the player located in a settlement.
fn company_names(world: &World, place: EntityId) -> (r: Vec<EntityId>)
    requires
        sim_world(world),
    ensures
        r@ == company_of(world, place),
        forall|i: int| 0 <= i < r@.len() ==> world.ids.alive(#[trigger] r@[i]),
{
    let you = player(world);
    let here = world.related_to_via(place, RelationId(LOCATED_IN));
    let ghost all = firsts(here@);
    let ghost keep = |other: EntityId| Some(other) != player_spec(world);
    proof {
        crate::game::game::lemma_via_in_live(world, place, LOCATED_IN);
        assert forall|j: int| 0 <= j < here@.len() implies world.ids.alive(#[trigger] here@[j].0) by {
            assert(here@[j] == via_in(world, place, LOCATED_IN)[j]);
        }
    }
    let mut r: Vec<EntityId> = Vec::new();
    let mut i: usize = 0;
    while i < here.len()
        invariant
            sim_world(world),
            here@ == via_in(world, place, LOCATED_IN),
            all == firsts(here@),
            you == player_spec(world),
            keep == (|other: EntityId| Some(other) != player_spec(world)),
            forall|j: int| 0 <= j < here@.len() ==> world.ids.alive(#[trigger] here@[j].0),
            i <= here@.len(),
            r@ == all.take(i as int).filter(keep),
            forall|j: int| 0 <= j < r@.len() ==> world.ids.alive(#[trigger] r@[j]),
        decreases here@.len() - i,
    {
        let other = here[i].0;
        assert(all.take(i + 1).drop_last() =~= all.take(i as int));
        assert(all.take(i + 1).last() == other);
        proof {
            reveal(Seq::filter);
        }
        if you != Some(other) {
            r.push(other);
        }
        i = i + 1;
    }
    assert(all.take(i as int) =~= all);
    r
}

/// Appends how a person reads.
fn describe_person(out: &mut String, this: EntityId, world: &World)
    requires
        sim_world(world),
        this == EntityId::null_spec() || (this.idx() as int) < CAPACITY,
    ensures
        final(out)@ == old(out)@ + person_text(world, this),
{
    if this == EntityId::null() {
        string_push_str(out, "no one");
        proof {
            reveal_strlit("no one");
        }
        return;
    }
    string_push_str(out, name_of(world, this));
    let sworn = world.related_to_via(this, RelationId(crate::game::game::SWORN_TO));
    proof {
        crate::game::game::lemma_via_in_live(world, this, crate::game::game::SWORN_TO);
    }
    if sworn.len() > 0 {
        let master = sworn[0].0;
        string_push_str(out, ", who is sworn to ");
        string_push_str(out, name_of(world, master));
        proof {
            reveal_strlit(", who is sworn to ");
        }
    }
}

/// The screen raised when the player's travel resolves at a settlement.
pub fn arrival(world: &World, params: ChoiceParams) -> (r: Option<Interaction>)
    requires
        sim_world(world),
        (params.target.idx() as int) < CAPACITY,
    ensures
        view_opt(r) == Some(arrival_view(world, params)),
        r is Some && forall|k: int| 0 <= k < r->0.choices@.len() ==> (#[trigger] r->0.choices@[k]).params == params,
{
    let name = name_of(world, params.target);
    let mut text = String::new();
    string_push_str(&mut text, "You arrive at ");
    string_push_str(&mut text, name);
    string_push_str(&mut text, ".");
    let rulers = world.related_to_via(params.target, RelationId(RULES));
    proof {
        crate::game::game::lemma_via_in_live(world, params.target, RULES);
    }
    let ruler = if rulers.len() > 0 { rulers[0].0 } else { EntityId::null() };
    proof {
        if rulers@.len() > 0 {
            assert(rulers@[0] == via_in(world, params.target, RULES)[0]);
            assert(world.ids.alive(rulers@[0].0));
        }
    }
    string_push_str(&mut text, " The settlement is ruled by ");
    describe_person(&mut text, ruler, world);
    string_push_str(&mut text, ".");
    let deserted = company_names(world, params.target).len() == 0;
    let mut title = String::new();
    string_push_str(&mut title, name);
    let mut seek_disabled = String::new();
    if deserted {
        string_push_str(&mut seek_disabled, "no one of note is here");
    }
    let mut seek = String::new();
    string_push_str(&mut seek, "Seek out company");
    let mut rest = String::new();
    string_push_str(&mut rest, "Rest a while");
    let mut leave = String::new();
    string_push_str(&mut leave, "Be on your way");
    let mut choices: Vec<Choice> = Vec::new();
    choices.push(Choice { text: seek, disabled: seek_disabled, effect: Effect::Company, params });
    choices.push(Choice { text: rest, disabled: String::new(), effect: Effect::RestHere, params });
    choices.push(Choice { text: leave, disabled: String::new(), effect: Effect::Close, params });
    let r = Interaction { title, text, choices };
    proof {
        reveal_strlit("You arrive at ");
        reveal_strlit(".");
        reveal_strlit(" The settlement is ruled by ");
        reveal_strlit("no one of note is here");
        reveal_strlit("Seek out company");
        reveal_strlit("Rest a while");
        reveal_strlit("Be on your way");
        let v = view_interaction(r);
        let want = arrival_view(world, params);
        assert(v.text =~= want.text);
        assert(v.choices =~= want.choices);
    }
    Some(r)
}

/// Who is present at the settlement; chains back to `arrival`.
fn company(world: &World, params: ChoiceParams) -> (r: Option<Interaction>)
    requires
        sim_world(world),
        (params.target.idx() as int) < CAPACITY,
    ensures
        view_opt(r) == Some(company_view(world, params)),
        r is Some && forall|k: int| 0 <= k < r->0.choices@.len() ==> (#[trigger] r->0.choices@[k]).params == params,
{
    let names = company_names(world, params.target);
    let mut title = String::new();
    string_push_str(&mut title, name_of(world, params.target));
    let mut text = String::new();
    string_push_str(&mut text, "You find ");
    crate::game::game::push_joined_names(&mut text, world, &names, ", ");
    string_push_str(&mut text, " here.");
    let mut back = String::new();
    string_push_str(&mut back, "Step back");
    let mut choices: Vec<Choice> = Vec::new();
    choices.push(Choice { text: back, disabled: String::new(), effect: Effect::Arrival, params });
    let r = Interaction { title, text, choices };
    proof {
        reveal_strlit("You find ");
        reveal_strlit(", ");
        reveal_strlit(" here.");
        reveal_strlit("Step back");
        let v = view_interaction(r);
        let want = company_view(world, params);
        assert(v.text =~= want.text);
        assert(v.choices =~= want.choices);
    }
    Some(r)
}

/// An open-ended rest, same as the Rest button orders.
fn rest_here(world: &mut World, params: ChoiceParams) -> (r: Option<Interaction>)
    requires
        sim_world(old(world)),
    ensures
        r is None,
        sim_world(final(world)),
        rested(old(world), final(world)),
{
    match player(world) {
        Some(p) => {
            let a = Activity { verb: ActivityVerb::Rest, start: world.epoch, until: Epoch::never(), destination: CellPos::default() };
            world.set_activity(p, a);
        },
        None => {},
    }
    None
}

/// What picking a choice with `effect` does: transforms the world and hands
/// back the next interaction, if any.
pub fn apply(effect: Effect, world: &mut World, params: ChoiceParams) -> (r: Option<Interaction>)
    requires
        sim_world(old(world)),
        (params.target.idx() as int) < CAPACITY,
    ensures
        sim_world(final(world)),
        match effect {
            Effect::Close => r is None && *final(world) == *old(world),
            Effect::Arrival => view_opt(r) == Some(arrival_view(old(world), params)) && *final(world) == *old(world),
            Effect::Company => view_opt(r) == Some(company_view(old(world), params)) && *final(world) == *old(world),
            Effect::RestHere => r is None && rested(old(world), final(world)),
        },
        r is Some ==> forall|k: int| 0 <= k < r->0.choices@.len() ==> (#[trigger] r->0.choices@[k]).params == params,
{
    match effect {
        Effect::Close => close(world, params),
        Effect::Arrival => arrival(world, params),
        Effect::Company => company(world, params),
        Effect::RestHere => rest_here(world, params),
    }
}

} // verus!
