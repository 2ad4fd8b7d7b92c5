//! Spawning the starting world from data: settlements first, then the map
//! (its legend names them by key), then characters and their relations, so
//! forward references resolve. One key namespace covers everything
//! spawnable, so collisions are caught wherever they occur.

use vstd::prelude::*;
use vstd::string::StringSliceAdditionalSpecFns;
use vstd::utf8::*;
use crate::entities::defs::{RelationId, SetId, UVarId};
use crate::entities::id::{EntityId, CAPACITY};
use crate::entities::relations::{
    apply_changes, change_ok, policy_ok, row_map, slot_changes, RelationEntry, Relations, is_nan_bits, is_zero_bits,
};
use crate::game::defs::Gender;
use crate::entities::uvars::Bits64;
use crate::game::game::{sim_world, starts_past, BIRTH_EPOCH, GENDER, LOCATED_IN, MARRIED, PEOPLE, RULES, SETTLEMENTS, SWORN_TO};
use crate::game::map::{CellPos, WorldMap, map_text_fits, map_text_ok};
use crate::game::world::{Epoch, World};
use crate::tabula::{error_text, parse, parse_spec, source_fits, source_fits_check, first_keyed, view_node, view_nodes, Kind, Node, NodeView, Value};
use crate::util::text::{same_text, string_push_str};

verus! {

/// `b` is `a` with more lines after it.
pub open spec fn extends(a: Seq<String>, b: Seq<String>) -> bool {
    &&& a.len() <= b.len()
    &&& b.subrange(0, a.len() as int) == a
}

proof fn lemma_extends_trans(a: Seq<String>, b: Seq<String>, c: Seq<String>)
    requires
        extends(a, b),
        extends(b, c),
    ensures
        extends(a, c),
{
    assert(c.subrange(0, a.len() as int) =~= c.subrange(0, b.len() as int).subrange(0, a.len() as int));
}

/// Pushing a line extends.
proof fn lemma_extends_push(a: Seq<String>, x: String)
    ensures
        extends(a, a.push(x)),
{
    assert(a.push(x).subrange(0, a.len() as int) =~= a);
}

/// Some entity new since `before` stands for `node` in `after`: a member of
/// `set`, named as the node says or by `default`.
pub open spec fn spawned_for(before: &World, after: &World, set: u16, node: NodeView, default: Seq<char>) -> bool {
    exists|x: EntityId|
        #[trigger] after.ids.alive(x) && !before.ids.alive(x) && after.ids.member(x, set as int) && after.names.name(
            x.idx() as int,
        ) == encode_utf8(text_or(node, "name"@, default))
}

/// Standing for a node survives a stretch that keeps every live entity
/// alive, in its sets and under its name, and counts from any earlier start.
proof fn lemma_spawned_for_carry(a0: World, a: World, b: World, c: World, set: u16, node: NodeView, default: Seq<char>)
    requires
        spawned_for(&a, &b, set, node, default),
        forall|x: EntityId| #[trigger] a0.ids.alive(x) ==> a.ids.alive(x),
        forall|y: EntityId|
            #[trigger] b.ids.alive(y) ==> c.ids.alive(y) && c.ids.bits(y.idx() as int) == b.ids.bits(y.idx() as int)
                && c.names.name(y.idx() as int) == b.names.name(y.idx() as int),
    ensures
        spawned_for(&a0, &c, set, node, default),
{
    let x = choose|x: EntityId|
        #[trigger] b.ids.alive(x) && !a.ids.alive(x) && b.ids.member(x, set as int) && b.names.name(x.idx() as int)
            == encode_utf8(text_or(node, "name"@, default));
    assert(c.ids.alive(x));
    assert(!a0.ids.alive(x));
}

/// Two live ids share a slot only when they are the same id.
proof fn lemma_live_slots_differ(w: &World, a: EntityId, b: EntityId)
    requires
        w.ids.alive(a),
        w.ids.alive(b),
        a != b,
    ensures
        a.idx() != b.idx(),
{
}

/// One spawn of `spawn_pass`, from `before` to `after`: the new entity
/// stands for root `i`, and everyone spawned earlier keeps standing for
/// theirs.
proof fn lemma_spawn_step(
    start: World,
    before: World,
    after: World,
    id: EntityId,
    set: u16,
    vs: Seq<NodeView>,
    i: int,
    kind: Seq<char>,
    default: Seq<char>,
)
    requires
        0 <= i < vs.len(),
        vs[i].key == kind,
        after.ids.alive(id),
        !before.ids.alive(id),
        forall|x: EntityId| #[trigger] before.ids.alive(x) ==> after.ids.alive(x),
        forall|x: EntityId| #[trigger] start.ids.alive(x) ==> before.ids.alive(x),
        forall|k: int| 0 <= k < CAPACITY && k != id.idx() ==> #[trigger] after.ids.bits(k) == before.ids.bits(k)
            && after.names.name(k) == before.names.name(k),
        after.ids.member(id, set as int),
        after.names.name(id.idx() as int) == encode_utf8(text_or(vs[i], "name"@, default)),
        forall|y: EntityId|
            #[trigger] start.ids.alive(y) ==> before.ids.bits(y.idx() as int) == start.ids.bits(y.idx() as int)
                && before.names.name(y.idx() as int) == start.names.name(y.idx() as int),
        forall|j: int| 0 <= j < i && (#[trigger] vs[j]).key == kind ==> spawned_for(&start, &before, set, vs[j], default),
    ensures
        forall|y: EntityId|
            #[trigger] start.ids.alive(y) ==> after.ids.bits(y.idx() as int) == start.ids.bits(y.idx() as int)
                && after.names.name(y.idx() as int) == start.names.name(y.idx() as int),
        forall|j: int| 0 <= j < i + 1 && (#[trigger] vs[j]).key == kind ==> spawned_for(&start, &after, set, vs[j], default),
{
    assert forall|y: EntityId| #[trigger] start.ids.alive(y) implies after.ids.bits(y.idx() as int) == start.ids.bits(
        y.idx() as int,
    ) && after.names.name(y.idx() as int) == start.names.name(y.idx() as int) by {
        assert(before.ids.alive(y));
        assert(after.ids.alive(y));
        lemma_live_slots_differ(&after, y, id);
        assert(after.ids.bits(y.idx() as int) == before.ids.bits(y.idx() as int));
    }
    assert forall|j: int| 0 <= j < i + 1 && (#[trigger] vs[j]).key == kind implies spawned_for(&start, &after, set, vs[j], default) by {
        if j < i {
            assert(spawned_for(&start, &before, set, vs[j], default));
            let x = choose|x: EntityId|
                #[trigger] before.ids.alive(x) && !start.ids.alive(x) && before.ids.member(x, set as int) && before.names.name(
                    x.idx() as int,
                ) == encode_utf8(text_or(vs[j], "name"@, default));
            assert(after.ids.alive(x));
            assert(x != id);
            lemma_live_slots_differ(&after, x, id);
            assert(after.ids.bits(x.idx() as int) == before.ids.bits(x.idx() as int));
            assert(after.ids.member(x, set as int));
        } else {
            assert(!start.ids.alive(id));
        }
    }
}

/// The first of `vs` from `i` on whose key is `key`, or the length.
pub open spec fn first_keyed_view(vs: Seq<NodeView>, key: Seq<char>, i: int) -> int
    decreases vs.len() - i,
{
    if i < 0 || i >= vs.len() {
        vs.len() as int
    } else if vs[i].key == key {
        i
    } else {
        first_keyed_view(vs, key, i + 1)
    }
}

/// The text of `n`'s first child keyed `key` when that child is an atom,
/// else `default`.
pub open spec fn text_or(n: NodeView, key: Seq<char>, default: Seq<char>) -> Seq<char> {
    let i = first_keyed_view(n.children, key, 0);
    if i < n.children.len() && n.children[i].kind == Kind::Atom {
        n.children[i].text
    } else {
        default
    }
}

/// How many of `vs` are keyed `key`.
pub open spec fn count_key(vs: Seq<NodeView>, key: Seq<char>) -> nat
    decreases vs.len(),
{
    if vs.len() == 0 {
        0
    } else {
        count_key(vs.drop_last(), key) + if vs.last().key == key { 1nat } else { 0nat }
    }
}

/// The name bytes the roots keyed `key` add to the vocabulary, `default`
/// standing in for a missing name.
pub open spec fn name_bytes(vs: Seq<NodeView>, key: Seq<char>, default: Seq<char>) -> nat
    decreases vs.len(),
{
    if vs.len() == 0 {
        0
    } else {
        name_bytes(vs.drop_last(), key, default) + if vs.last().key == key {
            encode_utf8(text_or(vs.last(), "name"@, default)).len()
        } else {
            0nat
        }
    }
}

/// The sources bootstrap can spawn from: the map source well formed, the
/// characters source parseable, room for everyone it names in the id
/// space, and for their names in the vocabulary.
pub open spec fn bootstrap_fits(w: &World, characters: Seq<char>, map: Seq<char>) -> bool {
    let roots = parse_spec(characters).0;
    &&& source_fits(characters)
    &&& map_text_ok(map)
    &&& count_key(roots, "settlement"@) + count_key(roots, "character"@) <= w.ids.free().len()
    &&& w.names.vocabulary().len() + name_bytes(roots, "settlement"@, "Nowhere"@) + name_bytes(roots, "character"@, "Anonymous"@)
        <= u32::MAX
}

/// Whether bootstrap can spawn from these sources into `w`: the test a
/// caller makes before [`bootstrap`].
pub fn cast_fits(w: &World, characters: &str, map_source: &str) -> (ok: bool)
    requires
        w.wf(),
        w.names.vocabulary().len() <= usize::MAX,
    ensures
        ok == bootstrap_fits(w, characters@, map_source@),
{
    if !source_fits_check(characters) {
        return false;
    }
    if !map_text_fits(map_source) {
        return false;
    }
    let result = parse(characters);
    let ghost vs = view_nodes(result.roots@);
    let ghost vocab = w.names.vocabulary().len();
    let free = w.ids.free_len();
    let mut count: usize = 0;
    let mut bytes: u64 = w.names.vocabulary_len() as u64;
    let mut i: usize = 0;
    proof {
        lemma_view_nodes_index(result.roots@);
        assert(vs.take(0) =~= Seq::<NodeView>::empty());
    }
    if bytes > 0xFFFF_FFFF {
        proof {
            lemma_count_mono(vs, "settlement"@, "Nowhere"@, 0, vs.len() as int);
            assert(vs.take(vs.len() as int) =~= vs);
        }
        return false;
    }
    while i < result.roots.len()
        invariant
            vs == view_nodes(result.roots@),
            vs == parse_spec(characters@).0,
            vs.len() == result.roots@.len(),
            forall|j: int| 0 <= j < result.roots@.len() ==> #[trigger] vs[j] == view_node(result.roots@[j]),
            i <= vs.len(),
            vocab == w.names.vocabulary().len(),
            count as nat == count_key(vs.take(i as int), "settlement"@) + count_key(vs.take(i as int), "character"@),
            count <= i,
            bytes as nat == vocab + name_bytes(vs.take(i as int), "settlement"@, "Nowhere"@) + name_bytes(
                vs.take(i as int),
                "character"@,
                "Anonymous"@,
            ),
            bytes <= 0xFFFF_FFFF,
        decreases vs.len() - i,
    {
        proof {
            lemma_count_step(vs, "settlement"@, "Nowhere"@, i as int);
            lemma_count_step(vs, "character"@, "Anonymous"@, i as int);
            lemma_count_mono(vs, "settlement"@, "Nowhere"@, i + 1, vs.len() as int);
            lemma_count_mono(vs, "character"@, "Anonymous"@, i + 1, vs.len() as int);
            assert(vs.take(vs.len() as int) =~= vs);
            assert(vs[i as int].key == result.roots@[i as int].key@);
            reveal_strlit("settlement");
            reveal_strlit("character");
        }
        let node = &result.roots[i];
        let ghost nv = vs[i as int];
        proof {
            assert("settlement"@[0] != "character"@[0]);
            assert(nv == view_node(*node));
        }
        let mut n: u64 = 0;
        if same_text(node.key.as_str(), "settlement") {
            let name = text_or_default(node, "name", "Nowhere");
            n = name.as_bytes().len() as u64;
            count = count + 1;
            proof {
                assert(nv.key == "settlement"@);
                assert(nv.key != "character"@);
                assert(n == encode_utf8(text_or(nv, "name"@, "Nowhere"@)).len());
            }
        } else if same_text(node.key.as_str(), "character") {
            let name = text_or_default(node, "name", "Anonymous");
            n = name.as_bytes().len() as u64;
            count = count + 1;
            proof {
                assert(nv.key == "character"@);
                assert(nv.key != "settlement"@);
                assert(n == encode_utf8(text_or(nv, "name"@, "Anonymous"@)).len());
            }
        } else {
            proof {
                assert(nv.key != "character"@);
                assert(nv.key != "settlement"@);
            }
        }
        if n > 0xFFFF_FFFF - bytes {
            return false;
        }
        bytes = bytes + n;
        i = i + 1;
    }
    proof {
        assert(vs.take(vs.len() as int) =~= vs);
    }
    count <= free
}

/// A node list read as plain data keeps each node's reading.
proof fn lemma_view_nodes_index(ns: Seq<Node>)
    ensures
        view_nodes(ns).len() == ns.len(),
        forall|j: int| 0 <= j < ns.len() ==> #[trigger] view_nodes(ns)[j] == view_node(ns[j]),
    decreases ns.len(),
{
    if ns.len() > 0 {
        lemma_view_nodes_index(ns.drop_last());
        assert forall|j: int| 0 <= j < ns.len() implies #[trigger] view_nodes(ns)[j] == view_node(ns[j]) by {
            if j < ns.len() - 1 {
                assert(ns.drop_last()[j] == ns[j]);
            }
        }
    }
}

/// Finding a key agrees between the nodes and their plain reading.
proof fn lemma_first_keyed_view(ns: Seq<Node>, key: Seq<char>, i: int)
    requires
        0 <= i,
    ensures
        first_keyed(ns, key, i) == first_keyed_view(view_nodes(ns), key, i),
    decreases ns.len() - i,
{
    lemma_view_nodes_index(ns);
    if i < ns.len() {
        lemma_first_keyed_view(ns, key, i + 1);
    }
}

/// The text bootstrap reads for `key` of `n`, with its fallback.
fn text_or_default<'a>(n: &'a Node, key: &str, default: &'a str) -> (r: &'a str)
    ensures
        r@ == text_or(view_node(*n), key@, default@),
{
    proof {
        lemma_first_keyed_view(n.children@, key@, 0);
        lemma_view_nodes_index(n.children@);
        let i = first_keyed(n.children@, key@, 0);
        assert(view_node(*n).children == view_nodes(n.children@));
        crate::tabula::lemma_first_keyed_bounds(n.children@, key@, 0);
        if 0 <= i < n.children@.len() {
            assert(view_node(*n).children[i] == view_node(n.children@[i]));
            assert(view_node(n.children@[i]).kind == n.children@[i].kind);
            assert(view_node(n.children@[i]).text == n.children@[i].value.text@);
        }
    }
    match n.get_text(key) {
        Some(t) => t,
        None => default,
    }
}

/// The entity filed under `key`, if any.
pub open spec fn lookup_spec(by_key: Seq<(String, EntityId)>, key: Seq<char>) -> Option<EntityId>
    decreases by_key.len(),
{
    if by_key.len() == 0 {
        None
    } else if by_key.last().0@ == key {
        Some(by_key.last().1)
    } else {
        lookup_spec(by_key.drop_last(), key)
    }
}

/// The entity filed under `key`, if any.
fn lookup(by_key: &Vec<(String, EntityId)>, key: &str) -> (r: Option<EntityId>)
    ensures
        r == lookup_spec(by_key@, key@),
{
    let mut i = by_key.len();
    assert(by_key@.take(i as int) =~= by_key@);
    while i > 0
        invariant
            i <= by_key@.len(),
            lookup_spec(by_key@, key@) == lookup_spec(by_key@.take(i as int), key@),
        decreases i,
    {
        assert(by_key@.take(i as int).drop_last() =~= by_key@.take(i - 1));
        if same_text(by_key[i - 1].0.as_str(), key) {
            return Some(by_key[i - 1].1);
        }
        i = i - 1;
    }
    None
}

/// Every filed entity is alive.
pub open spec fn keys_live(w: &World, by_key: Seq<(String, EntityId)>) -> bool {
    forall|k: int| 0 <= k < by_key.len() ==> w.ids.alive(#[trigger] by_key[k].1)
}

proof fn lemma_lookup_live(w: &World, by_key: Seq<(String, EntityId)>, key: Seq<char>)
    requires
        keys_live(w, by_key),
    ensures
        lookup_spec(by_key, key) is Some ==> w.ids.alive(lookup_spec(by_key, key).unwrap()),
    decreases by_key.len(),
{
    if by_key.len() > 0 && by_key.last().0@ != key {
        assert forall|k: int| 0 <= k < by_key.drop_last().len() implies w.ids.alive(#[trigger] by_key.drop_last()[k].1) by {
            assert(by_key.drop_last()[k] == by_key[k]);
        }
        lemma_lookup_live(w, by_key.drop_last(), key);
    }
}

/// The text of `n`'s first child keyed `key`, when that child is an atom.
pub open spec fn text_opt(n: NodeView, key: Seq<char>) -> Option<Seq<char>> {
    let i = first_keyed_view(n.children, key, 0);
    if i < n.children.len() && n.children[i].kind == Kind::Atom {
        Some(n.children[i].text)
    } else {
        None
    }
}

/// The text of `n`'s first child keyed `key`, when that child is an atom.
fn node_text<'a>(n: &'a Node, key: &str) -> (r: Option<&'a str>)
    ensures
        r is Some <==> text_opt(view_node(*n), key@) is Some,
        r is Some ==> text_opt(view_node(*n), key@) == Some(r.unwrap()@),
{
    proof {
        lemma_first_keyed_view(n.children@, key@, 0);
        lemma_view_nodes_index(n.children@);
        let i = first_keyed(n.children@, key@, 0);
        assert(view_node(*n).children == view_nodes(n.children@));
        crate::tabula::lemma_first_keyed_bounds(n.children@, key@, 0);
        if 0 <= i < n.children@.len() {
            assert(view_node(*n).children[i] == view_node(n.children@[i]));
        }
    }
    n.get_text(key)
}

/// The key filing as plain text: each key with the entity filed under it.
pub open spec fn key_view(by_key: Seq<(String, EntityId)>) -> Seq<(Seq<char>, EntityId)> {
    by_key.map_values(|p: (String, EntityId)| (p.0@, p.1))
}

/// The entity filed last under `key`, if any.
pub open spec fn lookup_key(keys: Seq<(Seq<char>, EntityId)>, key: Seq<char>) -> Option<EntityId>
    decreases keys.len(),
{
    if keys.len() == 0 {
        None
    } else if keys.last().0 == key {
        Some(keys.last().1)
    } else {
        lookup_key(keys.drop_last(), key)
    }
}

proof fn lemma_lookup_key(by_key: Seq<(String, EntityId)>, key: Seq<char>)
    ensures
        lookup_spec(by_key, key) == lookup_key(key_view(by_key), key),
    decreases by_key.len(),
{
    if by_key.len() > 0 {
        assert(key_view(by_key).drop_last() =~= key_view(by_key.drop_last()));
        lemma_lookup_key(by_key.drop_last(), key);
    }
}

/// What a spawn pass files: for each node keyed `kind`, in order, paired
/// with the entity spawned for it, its `id` text when it has one.
pub open spec fn key_entries(vs: Seq<NodeView>, kind: Seq<char>, ids: Seq<EntityId>) -> Seq<(Seq<char>, EntityId)>
    decreases vs.len(),
{
    if vs.len() == 0 {
        Seq::empty()
    } else if vs.last().key == kind {
        key_entries(vs.drop_last(), kind, ids.drop_last()) + match text_opt(vs.last(), "id"@) {
            Some(k) => seq![(k, ids.last())],
            None => Seq::empty(),
        }
    } else {
        key_entries(vs.drop_last(), kind, ids)
    }
}

/// The change a `field` of `n` asks for, from `source`: a unit-weight edge
/// of `kind` to the entity its text names, when one is filed.
pub open spec fn link(source: EntityId, n: NodeView, field: Seq<char>, kind: u16, keys: Seq<(Seq<char>, EntityId)>) -> Seq<
    RelationEntry,
> {
    match text_opt(n, field) {
        Some(other) => match lookup_key(keys, other) {
            Some(target) => seq![RelationEntry { source, relation: RelationId(kind), target, value: UNIT_WEIGHT }],
            None => Seq::empty(),
        },
        None => Seq::empty(),
    }
}

/// The changes a character node asks for: married, sworn, rules and
/// located, in that order, from the entity filed under its `id`.
pub open spec fn node_links(n: NodeView, keys: Seq<(Seq<char>, EntityId)>) -> Seq<RelationEntry> {
    if n.key == "character"@ {
        match text_opt(n, "id"@) {
            Some(k) => match lookup_key(keys, k) {
                Some(s) => link(s, n, "married"@, MARRIED, keys) + link(s, n, "sworn"@, SWORN_TO, keys) + link(
                    s,
                    n,
                    "rules"@,
                    RULES,
                    keys,
                ) + link(s, n, "located"@, LOCATED_IN, keys),
                None => Seq::empty(),
            },
            None => Seq::empty(),
        }
    } else {
        Seq::empty()
    }
}

/// The changes the data asks for, node by node.
pub open spec fn data_links(vs: Seq<NodeView>, keys: Seq<(Seq<char>, EntityId)>) -> Seq<RelationEntry>
    decreases vs.len(),
{
    if vs.len() == 0 {
        Seq::empty()
    } else {
        data_links(vs.drop_last(), keys) + node_links(vs.last(), keys)
    }
}

/// The place the last LocatedIn change from `x` among `changes` names.
pub open spec fn last_located(changes: Seq<RelationEntry>, x: EntityId) -> Option<EntityId>
    decreases changes.len(),
{
    if changes.len() == 0 {
        None
    } else if changes.last().source == x && changes.last().relation == RelationId(LOCATED_IN) {
        Some(changes.last().target)
    } else {
        last_located(changes.drop_last(), x)
    }
}

/// Changes of other kinds leave the last place alone.
proof fn lemma_last_located_skip(changes: Seq<RelationEntry>, extra: Seq<RelationEntry>, x: EntityId)
    requires
        forall|k: int| 0 <= k < extra.len() ==> (#[trigger] extra[k]).relation != RelationId(LOCATED_IN),
    ensures
        last_located(changes + extra, x) == last_located(changes, x),
    decreases extra.len(),
{
    if extra.len() > 0 {
        assert((changes + extra).drop_last() =~= changes + extra.drop_last());
        assert((changes + extra).last() == extra[extra.len() - 1]);
        lemma_last_located_skip(changes, extra.drop_last(), x);
    }
}

/// A link is of its own kind.
proof fn lemma_link_kind(source: EntityId, n: NodeView, field: Seq<char>, kind: u16, keys: Seq<(Seq<char>, EntityId)>)
    ensures
        forall|k: int| 0 <= k < link(source, n, field, kind, keys).len() ==> (#[trigger] link(source, n, field, kind, keys)[k]).relation
            == RelationId(kind),
{
}

/// Files `id` under `key`; true when the key was already taken (the new
/// entity then shadows the old one).
fn file_key(by_key: &mut Vec<(String, EntityId)>, key: &str, id: EntityId) -> (taken: bool)
    ensures
        final(by_key)@.len() == old(by_key)@.len() + 1,
        final(by_key)@.drop_last() == old(by_key)@,
        final(by_key)@.last().0@ == key@,
        final(by_key)@.last().1 == id,
        taken == (lookup_spec(old(by_key)@, key@) is Some),
{
    let taken = lookup(by_key, key).is_some();
    by_key.push((key.to_owned(), id));
    proof {
        assert(by_key@.drop_last() =~= old(by_key)@);
    }
    taken
}

/// "<prefix><middle><suffix>".
fn message(prefix: &str, middle: &str, suffix: &str) -> (s: String)
    ensures
        s@ == prefix@ + middle@ + suffix@,
{
    let mut s = String::new();
    string_push_str(&mut s, prefix);
    string_push_str(&mut s, middle);
    string_push_str(&mut s, suffix);
    s
}

/// "data/characters.txt: '<key>' <what> unknown id '<target>'".
fn unknown_message(key: &str, what: &str, target: &str) -> (s: String)
    ensures
        s@ == "data/characters.txt: '"@ + key@ + "' "@ + what@ + " unknown id '"@ + target@ + "'"@,
{
    let mut s = message("data/characters.txt: '", key, "' ");
    string_push_str(&mut s, what);
    string_push_str(&mut s, " unknown id '");
    string_push_str(&mut s, target);
    string_push_str(&mut s, "'");
    proof {
        reveal_strlit("data/characters.txt: '");
    }
    s
}


proof fn lemma_count_step(vs: Seq<NodeView>, key: Seq<char>, default: Seq<char>, i: int)
    requires
        0 <= i < vs.len(),
    ensures
        count_key(vs.take(i + 1), key) == count_key(vs.take(i), key) + if vs[i].key == key { 1nat } else { 0nat },
        name_bytes(vs.take(i + 1), key, default) == name_bytes(vs.take(i), key, default) + if vs[i].key == key {
            encode_utf8(text_or(vs[i], "name"@, default)).len()
        } else {
            0nat
        },
{
    assert(vs.take(i + 1).drop_last() =~= vs.take(i));
    assert(vs.take(i + 1).last() == vs[i]);
}

proof fn lemma_count_mono(vs: Seq<NodeView>, key: Seq<char>, default: Seq<char>, i: int, j: int)
    requires
        0 <= i <= j <= vs.len(),
    ensures
        count_key(vs.take(i), key) <= count_key(vs.take(j), key),
        name_bytes(vs.take(i), key, default) <= name_bytes(vs.take(j), key, default),
    decreases j - i,
{
    if i < j {
        lemma_count_mono(vs, key, default, i, j - 1);
        lemma_count_step(vs, key, default, j - 1);
    }
}

/// Spawns a named entity for every root keyed `kind`, files it under its
/// `id`, and puts it in `set`.
#[verifier::spinoff_prover]
#[verifier::rlimit(60)]
fn spawn_pass(
    world: &mut World,
    roots: &Vec<Node>,
    by_key: &mut Vec<(String, EntityId)>,
    errors: &mut Vec<String>,
    kind: &str,
    default_name: &str,
    set: u16,
    Ghost(spare): Ghost<nat>,
    Ghost(budget): Ghost<nat>,
) -> (spawned: Vec<EntityId>)
    requires
        sim_world(old(world)),
        starts_past(old(world)),
        keys_live(old(world), old(by_key)@),
        set == PEOPLE || set == SETTLEMENTS,
        count_key(view_nodes(roots@), kind@) + spare <= old(world).ids.free().len(),
        old(world).names.vocabulary().len() + name_bytes(view_nodes(roots@), kind@, default_name@) + budget <= u32::MAX,
    ensures
        sim_world(final(world)),
        starts_past(final(world)),
        keys_live(final(world), final(by_key)@),
        final(world).ids.free().len() + count_key(view_nodes(roots@), kind@) == old(world).ids.free().len(),
        final(world).names.vocabulary().len() + budget <= u32::MAX,
        final(world).epoch == old(world).epoch,
        final(world).map == old(world).map,
        final(world).defs == old(world).defs,
        forall|x: EntityId| #[trigger] old(world).ids.alive(x) ==> final(world).ids.alive(x),
        spawned@.len() == count_key(view_nodes(roots@), kind@),
        forall|k: int| 0 <= k < spawned@.len() ==> final(world).ids.alive(#[trigger] spawned@[k]),
        forall|a: int, b: int| 0 <= a < b < spawned@.len() ==> (#[trigger] spawned@[a]).idx() != (#[trigger] spawned@[b]).idx(),
        extends(old(errors)@, final(errors)@),
        forall|y: EntityId|
            #[trigger] old(world).ids.alive(y) ==> final(world).ids.bits(y.idx() as int) == old(world).ids.bits(y.idx() as int)
                && final(world).names.name(y.idx() as int) == old(world).names.name(y.idx() as int),
        forall|i: int|
            0 <= i < roots@.len() && (#[trigger] view_nodes(roots@)[i]).key == kind@ ==> spawned_for(
                old(world),
                final(world),
                set,
                view_nodes(roots@)[i],
                default_name@,
            ),
        forall|k: int| 0 <= k < spawned@.len() ==> !old(world).ids.alive(#[trigger] spawned@[k]),
        key_view(final(by_key)@) == key_view(old(by_key)@) + key_entries(view_nodes(roots@), kind@, spawned@),
        final(world).state.relations == old(world).state.relations,
        final(world).tags == old(world).tags,
{
    let ghost vs = view_nodes(roots@);
    let ghost free0 = world.ids.free().len();
    proof {
        assert(errors@.subrange(0, errors@.len() as int) =~= errors@);
    }
    let mut spawned: Vec<EntityId> = Vec::new();
    let mut i: usize = 0;
    proof {
        lemma_view_nodes_index(roots@);
        assert(vs.take(0) =~= Seq::<NodeView>::empty());
    }
    while i < roots.len()
        invariant
            vs == view_nodes(roots@),
            vs.len() == roots@.len(),
            forall|j: int| 0 <= j < roots@.len() ==> #[trigger] vs[j] == view_node(roots@[j]),
            i <= roots@.len(),
            sim_world(world),
            starts_past(world),
            keys_live(world, by_key@),
            set == PEOPLE || set == SETTLEMENTS,
            world.ids.free().len() + count_key(vs.take(i as int), kind@) == free0,
            count_key(vs, kind@) + spare <= free0,
            world.names.vocabulary().len() + name_bytes(vs, kind@, default_name@) - name_bytes(vs.take(i as int), kind@, default_name@)
                + budget <= u32::MAX,
            world.epoch == old(world).epoch,
            world.map == old(world).map,
            world.defs == old(world).defs,
            forall|x: EntityId| #[trigger] old(world).ids.alive(x) ==> world.ids.alive(x),
            spawned@.len() == count_key(vs.take(i as int), kind@),
            forall|k: int| 0 <= k < spawned@.len() ==> world.ids.alive(#[trigger] spawned@[k]),
            forall|k: int| 0 <= k < spawned@.len() ==> !old(world).ids.alive(#[trigger] spawned@[k]),
            key_view(by_key@) == key_view(old(by_key)@) + key_entries(vs.take(i as int), kind@, spawned@),
            world.state.relations == old(world).state.relations,
            world.tags == old(world).tags,
            forall|a: int, b: int| 0 <= a < b < spawned@.len() ==> (#[trigger] spawned@[a]).idx() != (#[trigger] spawned@[b]).idx(),
            extends(old(errors)@, errors@),
            forall|y: EntityId|
                #[trigger] old(world).ids.alive(y) ==> world.ids.bits(y.idx() as int) == old(world).ids.bits(y.idx() as int)
                    && world.names.name(y.idx() as int) == old(world).names.name(y.idx() as int),
            forall|j: int|
                0 <= j < i && (#[trigger] vs[j]).key == kind@ ==> spawned_for(old(world), world, set, vs[j], default_name@),
        decreases roots@.len() - i,
    {
        proof {
            lemma_count_step(vs, kind@, default_name@, i as int);
            lemma_count_mono(vs, kind@, default_name@, i + 1, vs.len() as int);
            assert(vs.take(vs.len() as int) =~= vs);
        }
        let node = &roots[i];
        let ghost k0 = key_view(by_key@);
        let ghost s0 = spawned@;
        proof {
            assert(vs.take(i + 1).drop_last() =~= vs.take(i as int));
            assert(vs.take(i + 1).last() == vs[i as int]);
            assert(vs[i as int].key == node.key@);
        }
        if same_text(node.key.as_str(), kind) {
            let ghost before = *world;
            let id = world.spawn();
            let ghost spawned_w = *world;
            let name = text_or_default(node, "name", default_name);
            let sym = world.names.add(name);
            let ghost added = *world;
            world.names.set(id, sym);
            let ghost named = *world;
            proof {
                assert forall|k: int| 0 <= k < CAPACITY && k != id.idx() implies #[trigger] named.names.name(k)
                    == spawned_w.names.name(k) by {
                    assert(named.names.symbol(k) == added.names.symbol(k));
                    assert(added.names.name(k) == spawned_w.names.name(k));
                }
            }
            proof {
                assert forall|k: int| 0 <= k < by_key@.len() implies world.ids.alive(#[trigger] by_key@[k].1) by {
                    assert(before.ids.alive(by_key@[k].1));
                }
            }
            world.join_set(id, SetId(set));
            let ghost joined = *world;
            proof {
                assert forall|k: int| 0 <= k < CAPACITY && k != id.idx() implies #[trigger] world.ids.bits(k) == before.ids.bits(k)
                    && world.names.name(k) == before.names.name(k) by {
                    assert(world.names == named.names);
                    assert(named.names.name(k) == spawned_w.names.name(k));
                }
                assert(vs[i as int] == view_node(roots@[i as int]));
                lemma_spawn_step(*old(world), before, *world, id, set, vs, i as int, kind@, default_name@);
            }
            match node_text(node, "id") {
                Some(key) => {
                    let ghost b0 = by_key@;
                    let taken = file_key(by_key, key, id);
                    proof {
                        assert(key_view(by_key@) =~= key_view(b0).push((key@, id)));
                    }
                    if taken {
                        let ghost e0 = errors@;
                        errors.push(message("data/characters.txt: duplicate id '", key, "'"));
                        proof {
                            lemma_extends_push(e0, errors@.last());
                            assert(e0.push(errors@.last()) =~= errors@);
                            lemma_extends_trans(old(errors)@, e0, errors@);
                        }
                    }
                },
                None => {},
            }
            proof {
                assert forall|k: int| 0 <= k < by_key@.len() implies world.ids.alive(#[trigger] by_key@[k].1) by {
                    if k < by_key@.len() - 1 && by_key@.len() > 0 {
                        assert(by_key@.drop_last()[k] == by_key@[k]);
                    }
                }
                assert forall|k: int| 0 <= k < spawned@.len() implies world.ids.alive(#[trigger] spawned@[k]) by {
                    assert(before.ids.alive(spawned@[k]));
                }
            }
            let ghost prev = spawned@;
            spawned.push(id);
            proof {
                assert(spawned@.drop_last() =~= prev);
                assert(!old(world).ids.alive(id));
                assert(key_view(by_key@) =~= key_view(old(by_key)@) + key_entries(vs.take(i + 1), kind@, spawned@));
                assert forall|a: int, b: int| 0 <= a < b < spawned@.len() implies (#[trigger] spawned@[a]).idx()
                    != (#[trigger] spawned@[b]).idx() by {
                    if b == prev.len() {
                        assert(before.ids.alive(prev[a]));
                        assert(world.ids.alive(prev[a]));
                        lemma_live_slots_differ(&*world, prev[a], id);
                    } else {
                        assert(spawned@[a] == prev[a] && spawned@[b] == prev[b]);
                    }
                }
            }
        }
        proof {
            if vs[i as int].key != kind@ {
                assert(key_view(by_key@) =~= key_view(old(by_key)@) + key_entries(vs.take(i + 1), kind@, spawned@));
            }
        }
        i = i + 1;
    }
    proof {
        assert(vs.take(i as int) =~= vs);
    }
    spawned
}


/// The weight every authored relation carries: `1.0`, as `f32` bits.
pub const UNIT_WEIGHT: u32 = 0x3F80_0000;

/// Births, genders and tags of the characters `spawn_pass` spawned, in
/// the same order. The data speaks in ages, the sim in birth epochs: whole
/// ages put every starting birthday on new year's day.
#[verifier::spinoff_prover]
#[verifier::rlimit(60)]
fn character_details<Y: Fn(&Value) -> u64>(world: &mut World, roots: &Vec<Node>, spawned: &Vec<EntityId>, whole_years: &Y)
    requires
        sim_world(old(world)),
        starts_past(old(world)),
        spawned@.len() == count_key(view_nodes(roots@), "character"@),
        forall|k: int| 0 <= k < spawned@.len() ==> old(world).ids.alive(#[trigger] spawned@[k]),
        forall|a: int, b: int| 0 <= a < b < spawned@.len() ==> (#[trigger] spawned@[a]).idx() != (#[trigger] spawned@[b]).idx(),
        forall|v: &Value| #[trigger] whole_years.requires((v,)),
    ensures
        final(world).state.relations == old(world).state.relations,
        sim_world(final(world)),
        starts_past(final(world)),
        final(world).ids == old(world).ids,
        final(world).names == old(world).names,
        final(world).epoch == old(world).epoch,
        final(world).map == old(world).map,
        final(world).defs == old(world).defs,
        forall|i: int|
            0 <= i < roots@.len() && (#[trigger] roots@[i]).key@ == "character"@ ==> born(
                final(world),
                character_id(roots@, spawned@, i),
                roots@[i],
                old(world).epoch.0,
                *whole_years,
            ) && final(world).state.uvars.value(character_id(roots@, spawned@, i).idx() as int, GENDER as int) == gender_of(
                roots@[i],
            ).bits_of(),
        final(world).tags.map() == tags_after(old(world).tags.map(), roots@, spawned@, roots@.len() as int),
{
    let ghost vs = view_nodes(roots@);
    let mut k: usize = 0;
    let mut i: usize = 0;
    proof {
        lemma_view_nodes_index(roots@);
        assert(vs.take(0) =~= Seq::<NodeView>::empty());
    }
    while i < roots.len()
        invariant
            vs == view_nodes(roots@),
            vs.len() == roots@.len(),
            forall|j: int| 0 <= j < roots@.len() ==> #[trigger] vs[j] == view_node(roots@[j]),
            i <= roots@.len(),
            sim_world(world),
            starts_past(world),
            world.ids == old(world).ids,
            world.names == old(world).names,
            world.epoch == old(world).epoch,
            world.map == old(world).map,
            world.defs == old(world).defs,
            spawned@.len() == count_key(vs, "character"@),
            forall|j: int| 0 <= j < spawned@.len() ==> world.ids.alive(#[trigger] spawned@[j]),
            forall|v: &Value| #[trigger] whole_years.requires((v,)),
            k == count_key(vs.take(i as int), "character"@),
            forall|a: int, b: int| 0 <= a < b < spawned@.len() ==> (#[trigger] spawned@[a]).idx() != (#[trigger] spawned@[b]).idx(),
            forall|j: int|
                0 <= j < i && (#[trigger] roots@[j]).key@ == "character"@ ==> born(
                    world,
                    character_id(roots@, spawned@, j),
                    roots@[j],
                    old(world).epoch.0,
                    *whole_years,
                ) && world.state.uvars.value(character_id(roots@, spawned@, j).idx() as int, GENDER as int) == gender_of(
                    roots@[j],
                ).bits_of(),
            forall|j: int|
                0 <= j < i && (#[trigger] roots@[j]).key@ == "character"@ ==> count_key(vs.take(j), "character"@) < k,
            world.tags.map() == tags_after(old(world).tags.map(), roots@, spawned@, i as int),
            world.state.relations == old(world).state.relations,
        decreases roots@.len() - i,
    {
        proof {
            lemma_count_step(vs, "character"@, "Anonymous"@, i as int);
            lemma_count_mono(vs, "character"@, "Anonymous"@, i + 1, vs.len() as int);
            assert(vs.take(vs.len() as int) =~= vs);
        }
        let node = &roots[i];
        if same_text(node.key.as_str(), "character") {
            assert(vs[i as int].key == node.key@);
            assert(count_key(vs.take(i + 1), "character"@) == k + 1);
            let n = spawned.len();
            assert(k < n);
            let id = spawned[k];
            let ghost w_before = *world;
            let years: u64 = match node.get_value("age") {
                Some(v) => if v.is_number {
                    whole_years(v)
                } else {
                    0
                },
                None => 0,
            };
            proof {
                assert(roots@[i as int] == *node);
                assert(years_ok(*node, *whole_years, years));
            }
            let birth = Epoch(world.epoch.0.wrapping_sub(years.wrapping_mul(360)));
            world.set_uvar(id, UVarId(BIRTH_EPOCH), birth);
            let gender = match node.get_text("gender") {
                Some(g) => if same_text(g, "male") {
                    Gender::Male
                } else {
                    Gender::Female
                },
                None => Gender::Female,
            };
            proof {
                assert(gender == gender_of(*node));
            }
            world.set_uvar(id, UVarId(GENDER), gender);
            let ghost w_set = *world;
            match node.get_text("tag") {
                Some(tag) => {
                    let ghost before = *world;
                    world.tags.bind(&world.ids, tag, id);
                    proof {
                        assert forall|t: Seq<char>| #[trigger] world.tags.map().contains_key(t) implies world.ids.alive(
                            world.tags.map()[t],
                        ) by {
                            if t != tag@ {
                                assert(before.tags.map().contains_key(t));
                            }
                        }
                    }
                },
                None => {},
            }
            assert(k < n);
            proof {
                assert(world.state.uvars == w_set.state.uvars);
                assert(character_id(roots@, spawned@, i as int) == id);
                assert forall|q: int| 0 <= q < spawned@.len() implies ((#[trigger] spawned@[q]).idx() as int) < CAPACITY by {
                    assert(world.ids.alive(spawned@[q]));
                }
                lemma_details_step(roots@, spawned@, w_before, *world, i as int, k as int, old(world).epoch.0, *whole_years, years);
            }
            k = k + 1;
        }
        i = i + 1;
    }
}

/// The whole years `node` gives its character, `y`: what `whole_years`
/// reads of the number atom keyed "age", or none without one.
pub open spec fn years_ok<Y: Fn(&Value) -> u64>(node: Node, whole_years: Y, y: u64) -> bool {
    let i = first_keyed(node.children@, "age"@, 0);
    if i < node.children@.len() && node.children@[i].kind == Kind::Atom && node.children@[i].value.is_number {
        whole_years.ensures((&node.children@[i].value,), y)
    } else {
        y == 0
    }
}

/// `id` was born as many 360-day years before `now` as its node gives it,
/// counted in wrapping epochs.
pub open spec fn born<Y: Fn(&Value) -> u64>(w: &World, id: EntityId, node: Node, now: u64, whole_years: Y) -> bool {
    exists|y: u64|
        #[trigger] years_ok(node, whole_years, y) && w.state.uvars.value(id.idx() as int, BIRTH_EPOCH as int) == now.wrapping_sub(
            y.wrapping_mul(360),
        )
}

/// A character is male when its node says `gender = male`, else female.
pub open spec fn gender_of(node: Node) -> Gender {
    let i = first_keyed(node.children@, "gender"@, 0);
    if i < node.children@.len() && node.children@[i].kind == Kind::Atom && node.children@[i].value.text@ == "male"@ {
        Gender::Male
    } else {
        Gender::Female
    }
}

/// A character's gender is read from its node: male exactly when the
/// node's first `gender` entry is the atom `male`; `female`, anything else,
/// or no entry at all reads female.
pub proof fn lemma_gender_from_node(node: Node)
    ensures
        (gender_of(node) == Gender::Male) == (text_opt(view_node(node), "gender"@) == Some("male"@)),
        (gender_of(node) == Gender::Female) == (text_opt(view_node(node), "gender"@) != Some("male"@)),
{
    lemma_first_keyed_view(node.children@, "gender"@, 0);
    lemma_view_nodes_index(node.children@);
    let i = first_keyed(node.children@, "gender"@, 0);
    assert(view_node(node).children == view_nodes(node.children@));
    crate::tabula::lemma_first_keyed_bounds(node.children@, "gender"@, 0);
    if 0 <= i < node.children@.len() {
        assert(view_node(node).children[i] == view_node(node.children@[i]));
    }
}

/// The entity spawned for character root `i`: the one in the order they
/// were spawned.
pub open spec fn character_id(roots: Seq<Node>, spawned: Seq<EntityId>, i: int) -> EntityId {
    spawned[count_key(view_nodes(roots).take(i), "character"@) as int]
}

/// The tags after binding the `tag` of each of the first `n` character
/// roots to its entity, later bindings replacing earlier ones.
pub open spec fn tags_after(m: Map<Seq<char>, EntityId>, roots: Seq<Node>, spawned: Seq<EntityId>, n: int) -> Map<
    Seq<char>,
    EntityId,
>
    decreases n,
{
    if n <= 0 {
        m
    } else {
        let prev = tags_after(m, roots, spawned, n - 1);
        let node = roots[n - 1];
        let i = first_keyed(node.children@, "tag"@, 0);
        if node.key@ == "character"@ && i < node.children@.len() && node.children@[i].kind == Kind::Atom {
            prev.insert(node.children@[i].value.text@, character_id(roots, spawned, n - 1))
        } else {
            prev
        }
    }
}

/// One character's details set, the earlier characters' kept: each stays
/// born and gendered as its node says.
proof fn lemma_details_step<Y: Fn(&Value) -> u64>(
    roots: Seq<Node>,
    spawned: Seq<EntityId>,
    before: World,
    after: World,
    i: int,
    k: int,
    now: u64,
    whole_years: Y,
    years: u64,
)
    requires
        0 <= i < roots.len(),
        roots[i].key@ == "character"@,
        k == count_key(view_nodes(roots).take(i), "character"@),
        0 <= k < spawned.len(),
        forall|q: int| 0 <= q < spawned.len() ==> ((#[trigger] spawned[q]).idx() as int) < CAPACITY,
        forall|a: int, b: int| 0 <= a < b < spawned.len() ==> (#[trigger] spawned[a]).idx() != (#[trigger] spawned[b]).idx(),
        forall|j: int|
            0 <= j < i && (#[trigger] roots[j]).key@ == "character"@ ==> count_key(view_nodes(roots).take(j), "character"@) < k,
        forall|j: int|
            0 <= j < i && (#[trigger] roots[j]).key@ == "character"@ ==> born(
                &before,
                character_id(roots, spawned, j),
                roots[j],
                now,
                whole_years,
            ) && before.state.uvars.value(character_id(roots, spawned, j).idx() as int, GENDER as int) == gender_of(
                roots[j],
            ).bits_of(),
        years_ok(roots[i], whole_years, years),
        after.state.uvars.value(spawned[k].idx() as int, BIRTH_EPOCH as int) == now.wrapping_sub(years.wrapping_mul(360)),
        after.state.uvars.value(spawned[k].idx() as int, GENDER as int) == gender_of(roots[i]).bits_of(),
        forall|s: int, v: int|
            0 <= s < CAPACITY && 0 <= v < 3 && s != spawned[k].idx() ==> #[trigger] after.state.uvars.value(s, v)
                == before.state.uvars.value(s, v),
    ensures
        forall|j: int|
            0 <= j < i + 1 && (#[trigger] roots[j]).key@ == "character"@ ==> born(
                &after,
                character_id(roots, spawned, j),
                roots[j],
                now,
                whole_years,
            ) && after.state.uvars.value(character_id(roots, spawned, j).idx() as int, GENDER as int) == gender_of(
                roots[j],
            ).bits_of(),
{
    assert forall|j: int|
        0 <= j < i + 1 && (#[trigger] roots[j]).key@ == "character"@ implies born(
        &after,
        character_id(roots, spawned, j),
        roots[j],
        now,
        whole_years,
    ) && after.state.uvars.value(character_id(roots, spawned, j).idx() as int, GENDER as int) == gender_of(roots[j]).bits_of() by {
        if j < i {
            let c = count_key(view_nodes(roots).take(j), "character"@) as int;
            assert(c < k);
            assert(spawned[c].idx() != spawned[k].idx());
            assert(born(&before, spawned[c], roots[j], now, whole_years));
            let y = choose|y: u64|
                #[trigger] years_ok(roots[j], whole_years, y) && before.state.uvars.value(spawned[c].idx() as int, BIRTH_EPOCH as int)
                    == now.wrapping_sub(y.wrapping_mul(360));
            assert((spawned[c].idx() as int) < CAPACITY);
            assert(after.state.uvars.value(spawned[c].idx() as int, BIRTH_EPOCH as int) == before.state.uvars.value(
                spawned[c].idx() as int,
                BIRTH_EPOCH as int,
            ));
            assert(after.state.uvars.value(spawned[c].idx() as int, GENDER as int) == before.state.uvars.value(
                spawned[c].idx() as int,
                GENDER as int,
            ));
            assert(years_ok(roots[j], whole_years, y));
        } else {
            assert(character_id(roots, spawned, j) == spawned[k]);
            assert(years_ok(roots[j], whole_years, years));
        }
    }
}

/// Who a `key` field of the character names, as a change from `source`,
/// or a warning when no one is filed under it.
fn relate_field(
    node: &Node,
    field: &str,
    what: &str,
    kind: u16,
    key: &str,
    source: EntityId,
    by_key: &Vec<(String, EntityId)>,
    world: &World,
    changes: &mut Vec<RelationEntry>,
    errors: &mut Vec<String>,
)
    requires
        world.wf(),
        keys_live(world, by_key@),
        world.ids.alive(source),
        kind < 4,
        forall|k: int| 0 <= k < old(changes)@.len() ==> change_ok(&world.ids, 4, #[trigger] old(changes)@[k]),
    ensures
        forall|k: int| 0 <= k < final(changes)@.len() ==> change_ok(&world.ids, 4, #[trigger] final(changes)@[k]),
        extends(old(errors)@, final(errors)@),
        final(changes)@ == old(changes)@ + link(source, view_node(*node), field@, kind, key_view(by_key@)),
{
    proof {
        assert(errors@.subrange(0, errors@.len() as int) =~= errors@);
    }
    match node_text(node, field) {
        Some(other) => match lookup(by_key, other) {
            Some(target) => {
                proof {
                    lemma_lookup_key(by_key@, other@);
                    lemma_lookup_live(world, by_key@, other@);
                    assert(0x3F80_0000u32 & 0x7f80_0000u32 != 0x7f80_0000u32) by (bit_vector);
                    assert(0x3F80_0000u32 & 0x7fff_ffffu32 != 0) by (bit_vector);
                }
                changes.push(RelationEntry { source, relation: RelationId(kind), target, value: UNIT_WEIGHT });
            },
            None => {
                errors.push(unknown_message(key, what, other));
                proof {
                    lemma_lookup_key(by_key@, other@);
                    assert(errors@.subrange(0, old(errors)@.len() as int) =~= old(errors)@);
                    assert(changes@ =~= old(changes)@ + link(source, view_node(*node), field@, kind, key_view(by_key@)));
                }
            },
        },
        None => {
            assert(changes@ =~= old(changes)@ + link(source, view_node(*node), field@, kind, key_view(by_key@)));
        },
    }
}


/// The characters' relations and whereabouts, in data order: whom each
/// married, swore to, and rules, and where each is located. "located" sets
/// both halves of place: the position (the settlement's anchor cell) and
/// the LocatedIn relation.
fn relations_pass(world: &mut World, roots: &Vec<Node>, by_key: &Vec<(String, EntityId)>, errors: &mut Vec<String>) -> (changes: Vec<
    RelationEntry,
>)
    requires
        sim_world(old(world)),
        starts_past(old(world)),
        keys_live(old(world), by_key@),
    ensures
        sim_world(final(world)),
        starts_past(final(world)),
        final(world).ids == old(world).ids,
        final(world).names == old(world).names,
        final(world).epoch == old(world).epoch,
        final(world).map == old(world).map,
        final(world).defs == old(world).defs,
        forall|k: int| 0 <= k < changes@.len() ==> change_ok(&final(world).ids, 4, #[trigger] changes@[k]),
        extends(old(errors)@, final(errors)@),
        final(world).state.relations == old(world).state.relations,
        final(world).state.uvars == old(world).state.uvars,
        final(world).tags == old(world).tags,
        changes@ == data_links(view_nodes(roots@), key_view(by_key@)),
        forall|x: EntityId|
            #[trigger] final(world).ids.alive(x) && last_located(changes@, x) is Some ==> final(world).state.positions.row(
                x.idx() as int,
            ).1 == final(world).map.anchor_of(last_located(changes@, x).unwrap()),
{
    let mut changes: Vec<RelationEntry> = Vec::new();
    let mut i: usize = 0;
    let ghost vs = view_nodes(roots@);
    let ghost keys = key_view(by_key@);
    proof {
        assert(errors@.subrange(0, errors@.len() as int) =~= errors@);
        lemma_view_nodes_index(roots@);
        assert(vs.take(0) =~= Seq::<NodeView>::empty());
    }
    while i < roots.len()
        invariant
            i <= roots@.len(),
            vs == view_nodes(roots@),
            vs.len() == roots@.len(),
            forall|j: int| 0 <= j < roots@.len() ==> #[trigger] vs[j] == view_node(roots@[j]),
            keys == key_view(by_key@),
            changes@ == data_links(vs.take(i as int), keys),
            world.state.relations == old(world).state.relations,
            world.state.uvars == old(world).state.uvars,
            world.tags == old(world).tags,
            forall|x: EntityId|
                #[trigger] world.ids.alive(x) && last_located(changes@, x) is Some ==> world.state.positions.row(
                    x.idx() as int,
                ).1 == world.map.anchor_of(last_located(changes@, x).unwrap()),
            sim_world(world),
            starts_past(world),
            keys_live(world, by_key@),
            world.ids == old(world).ids,
            world.names == old(world).names,
            world.epoch == old(world).epoch,
            world.map == old(world).map,
            world.defs == old(world).defs,
            forall|k: int| 0 <= k < changes@.len() ==> change_ok(&world.ids, 4, #[trigger] changes@[k]),
            extends(old(errors)@, errors@),
        decreases roots@.len() - i,
    {
        let node = &roots[i];
        let ghost at_start = errors@;
        let ghost c0 = changes@;
        let ghost nv = vs[i as int];
        proof {
            assert(nv == view_node(*node));
            assert(nv.key == node.key@);
        }
        if same_text(node.key.as_str(), "character") {
            match node_text(node, "id") {
                Some(key) => match lookup(by_key, key) {
                    Some(source) => {
                        proof {
                            lemma_lookup_key(by_key@, key@);
                            lemma_lookup_live(world, by_key@, key@);
                        }
                        proof {
                            assert(at_start.subrange(0, at_start.len() as int) =~= at_start);
                        }
                        relate_field(node, "married", "married", MARRIED, key, source, by_key, world, &mut changes, errors);
                        let ghost e1 = errors@;
                        relate_field(node, "sworn", "sworn to", SWORN_TO, key, source, by_key, world, &mut changes, errors);
                        proof {
                            lemma_extends_trans(at_start, e1, errors@);
                        }
                        let ghost e2 = errors@;
                        relate_field(node, "rules", "rules", RULES, key, source, by_key, world, &mut changes, errors);
                        proof {
                            lemma_extends_trans(at_start, e2, errors@);
                        }
                        let ghost e3 = errors@;
                        let ghost c3 = changes@;
                        proof {
                            let extra = link(source, nv, "married"@, MARRIED, keys) + link(source, nv, "sworn"@, SWORN_TO, keys)
                                + link(source, nv, "rules"@, RULES, keys);
                            assert(c3 =~= c0 + extra);
                            lemma_link_kind(source, nv, "married"@, MARRIED, keys);
                            lemma_link_kind(source, nv, "sworn"@, SWORN_TO, keys);
                            lemma_link_kind(source, nv, "rules"@, RULES, keys);
                            assert forall|k: int| 0 <= k < extra.len() implies (#[trigger] extra[k]).relation != RelationId(
                                LOCATED_IN,
                            ) by {
                                let l1 = link(source, nv, "married"@, MARRIED, keys);
                                let l2 = link(source, nv, "sworn"@, SWORN_TO, keys);
                                if k < l1.len() {
                                    assert(extra[k] == l1[k]);
                                } else if k < l1.len() + l2.len() {
                                    assert(extra[k] == l2[k - l1.len()]);
                                } else {
                                    assert(extra[k] == link(source, nv, "rules"@, RULES, keys)[k - l1.len() - l2.len()]);
                                }
                            }
                            assert forall|x: EntityId| #[trigger] world.ids.alive(x) && last_located(c3, x) is Some implies world.state.positions.row(
                                x.idx() as int,
                            ).1 == world.map.anchor_of(last_located(c3, x).unwrap()) by {
                                lemma_last_located_skip(c0, extra, x);
                            }
                        }
                        match node_text(node, "located") {
                            Some(place) => match lookup(by_key, place) {
                                Some(target) => {
                                    proof {
                                        lemma_lookup_key(by_key@, place@);
                                        lemma_lookup_live(world, by_key@, place@);
                                        assert(0x3F80_0000u32 & 0x7f80_0000u32 != 0x7f80_0000u32) by (bit_vector);
                                        assert(0x3F80_0000u32 & 0x7fff_ffffu32 != 0) by (bit_vector);
                                    }
                                    let anchor = world.map.anchor(target);
                                    if anchor == CellPos::default() {
                                        errors.push(message("data/map.txt: '", place, "' has no cells on the map"));
                                        proof {
                                            lemma_extends_push(e3, errors@.last());
                                            assert(e3.push(errors@.last()) =~= errors@);
                                            lemma_extends_trans(at_start, e3, errors@);
                                        }
                                    }
                                    let ghost wb = *world;
                                    world.set_position(source, anchor);
                                    changes.push(
                                        RelationEntry { source, relation: RelationId(LOCATED_IN), target, value: UNIT_WEIGHT },
                                    );
                                    proof {
                                        assert(changes@.drop_last() =~= c3);
                                        assert forall|x: EntityId| #[trigger] world.ids.alive(x) && last_located(changes@, x) is Some implies world.state.positions.row(
                                            x.idx() as int,
                                        ).1 == world.map.anchor_of(last_located(changes@, x).unwrap()) by {
                                            if x != source {
                                                assert(wb.ids.alive(x));
                                                assert(x.idx() != source.idx());
                                                assert(last_located(changes@, x) == last_located(c3, x));
                                            }
                                        }
                                    }
                                },
                                None => {
                                    errors.push(unknown_message(key, "located", place));
                                    proof {
                                        lemma_lookup_key(by_key@, place@);
                                        lemma_extends_push(e3, errors@.last());
                                        assert(e3.push(errors@.last()) =~= errors@);
                                        lemma_extends_trans(at_start, e3, errors@);
                                    }
                                },
                            },
                            None => {},
                        }
                        proof {
                            assert(changes@ =~= c3 + link(source, nv, "located"@, LOCATED_IN, keys));
                            assert(node_links(nv, keys) =~= link(source, nv, "married"@, MARRIED, keys) + link(
                                source,
                                nv,
                                "sworn"@,
                                SWORN_TO,
                                keys,
                            ) + link(source, nv, "rules"@, RULES, keys) + link(source, nv, "located"@, LOCATED_IN, keys));
                            assert(changes@ =~= c0 + node_links(nv, keys));
                        }
                    },
                    None => {
                        proof {
                            lemma_lookup_key(by_key@, key@);
                            assert(node_links(nv, keys) =~= Seq::<RelationEntry>::empty());
                            assert(changes@ =~= c0 + node_links(nv, keys));
                        }
                    },
                },
                None => {
                    assert(changes@ =~= c0 + node_links(nv, keys));
                },
            }
        } else {
            assert(changes@ =~= c0 + node_links(nv, keys));
        }
        proof {
            assert(vs.take(i + 1).drop_last() =~= vs.take(i as int));
            assert(vs.take(i + 1).last() == nv);
            assert(changes@ == data_links(vs.take(i + 1), keys));
            assert(at_start.subrange(0, at_start.len() as int) =~= at_start);
            if !extends(at_start, errors@) {
                assert(errors@ == at_start);
            }
            lemma_extends_trans(old(errors)@, at_start, errors@);
        }
        i = i + 1;
    }
    proof {
        assert(vs.take(vs.len() as int) =~= vs);
    }
    changes
}

/// What bootstrap records of the characters themselves: the entity spawned
/// for each character node (in order among `people`) was born as many
/// 360-day years before `now` as the node's age gives, has the node's
/// gender, and the tags are `tags` with each node's `tag` bound to its
/// entity, later nodes winning.
pub open spec fn cast_details<Y: Fn(&Value) -> u64>(
    w: &World,
    nodes: Seq<Node>,
    people: Seq<EntityId>,
    now: u64,
    whole_years: Y,
    tags: Map<Seq<char>, EntityId>,
) -> bool {
    &&& forall|i: int|
        0 <= i < nodes.len() && (#[trigger] nodes[i]).key@ == "character"@ ==> born(
            w,
            character_id(nodes, people, i),
            nodes[i],
            now,
            whole_years,
        ) && w.state.uvars.value(character_id(nodes, people, i).idx() as int, GENDER as int) == gender_of(nodes[i]).bits_of()
    &&& w.tags.map() == tags_after(tags, nodes, people, nodes.len() as int)
}

/// `places` and `people` are the entities spawned for the settlement and
/// character nodes of `vs`, in data order, each new since `before`.
pub open spec fn spawned_cast(before: &World, after: &World, vs: Seq<NodeView>, places: Seq<EntityId>, people: Seq<EntityId>) -> bool {
    &&& places.len() == count_key(vs, "settlement"@)
    &&& people.len() == count_key(vs, "character"@)
    &&& forall|k: int| 0 <= k < places.len() ==> after.ids.alive(#[trigger] places[k]) && !before.ids.alive(places[k])
    &&& forall|k: int| 0 <= k < people.len() ==> after.ids.alive(#[trigger] people[k]) && !before.ids.alive(people[k])
}

/// The data's links, resolved through the keys filed for `places` and
/// `people`.
pub open spec fn cast_links(vs: Seq<NodeView>, places: Seq<EntityId>, people: Seq<EntityId>) -> Seq<RelationEntry> {
    data_links(vs, key_entries(vs, "settlement"@, places) + key_entries(vs, "character"@, people))
}

/// What bootstrap records of a character's gender: the entity spawned for
/// a character node carries Male exactly when the node says
/// `gender = male`, and Female otherwise.
pub proof fn lemma_spawned_gender<Y: Fn(&Value) -> u64>(
    w: &World,
    nodes: Seq<Node>,
    people: Seq<EntityId>,
    now: u64,
    whole_years: Y,
    tags: Map<Seq<char>, EntityId>,
    i: int,
)
    requires
        cast_details(w, nodes, people, now, whole_years, tags),
        0 <= i < nodes.len(),
        nodes[i].key@ == "character"@,
    ensures
        w.state.uvars.value(character_id(nodes, people, i).idx() as int, GENDER as int) == if text_opt(
            view_node(nodes[i]),
            "gender"@,
        ) == Some("male"@) {
            Gender::Male.bits_of()
        } else {
            Gender::Female.bits_of()
        },
{
    lemma_gender_from_node(nodes[i]);
}

/// The relations the data authors: every row of `after` is exactly the
/// data's links from its slot's entity.
pub open spec fn authored(before: &World, after: &World, vs: Seq<NodeView>, places: Seq<EntityId>, people: Seq<EntityId>) -> bool {
    &&& spawned_cast(before, after, vs, places, people)
    &&& forall|s: int|
        0 <= s < CAPACITY ==> row_map(#[trigger] after.state.relations.row(s)) == apply_changes(
            Map::empty(),
            slot_changes(cast_links(vs, places, people), s),
            after.ids.slot(s),
        )
}

/// Where the data puts people: every live entity that a character's
/// `located` places stands at the anchor of the last place named for it.
pub open spec fn placed(before: &World, after: &World, vs: Seq<NodeView>, places: Seq<EntityId>, people: Seq<EntityId>) -> bool {
    &&& spawned_cast(before, after, vs, places, people)
    &&& forall|x: EntityId|
        #[trigger] after.ids.alive(x) && last_located(cast_links(vs, places, people), x) is Some
            ==> after.state.positions.row(x.idx() as int).1 == after.map.anchor_of(
            last_located(cast_links(vs, places, people), x).unwrap(),
        )
}

/// Spawns the starting world from the characters source and the map
/// source: settlements first, then the map (its legend names them by key),
/// then characters and their relations. `whole_years` reads an age atom as
/// whole years. Returns the problems met, one line each, for the caller to
/// report; what could be read is spawned regardless. Each character gets
/// its birth, gender and tag; "located" puts it at its place's anchor; and
/// on a world with no relations yet, the relations are exactly the links
/// the data names (married, sworn, rules, located).
pub fn bootstrap<Y: Fn(&Value) -> u64>(world: &mut World, characters: &str, map_source: &str, whole_years: &Y) -> (errors: Vec<String>)
    requires
        sim_world(old(world)),
        starts_past(old(world)),
        bootstrap_fits(old(world), characters@, map_source@),
        forall|v: &Value| #[trigger] whole_years.requires((v,)),
    ensures
        sim_world(final(world)),
        starts_past(final(world)),
        final(world).epoch == old(world).epoch,
        final(world).ids.free().len() + count_key(parse_spec(characters@).0, "settlement"@) + count_key(
            parse_spec(characters@).0,
            "character"@,
        ) == old(world).ids.free().len(),
        forall|x: EntityId| #[trigger] old(world).ids.alive(x) ==> final(world).ids.alive(x),
        final(world).map.grid_width() == crate::game::map_text::widest(crate::game::map::map_rows(map_source@)),
        final(world).map.grid_height() == crate::game::map::map_rows(map_source@).len(),
        forall|i: int|
            0 <= i < parse_spec(characters@).0.len() && (#[trigger] parse_spec(characters@).0[i]).key == "settlement"@
                ==> spawned_for(old(world), final(world), SETTLEMENTS, parse_spec(characters@).0[i], "Nowhere"@),
        forall|i: int|
            0 <= i < parse_spec(characters@).0.len() && (#[trigger] parse_spec(characters@).0[i]).key == "character"@
                ==> spawned_for(old(world), final(world), PEOPLE, parse_spec(characters@).0[i], "Anonymous"@),
        errors@.len() >= parse_spec(characters@).1.len(),
        forall|k: int|
            0 <= k < parse_spec(characters@).1.len() ==> (#[trigger] errors@[k])@ == "data/characters.txt: "@ + error_text(
                parse_spec(characters@).1[k],
            ),
        (forall|s: int| 0 <= s < CAPACITY ==> (#[trigger] old(world).state.relations.row(s)).len() == 0) ==> exists|
            places: Seq<EntityId>,
            people: Seq<EntityId>,
        | #[trigger] authored(old(world), final(world), parse_spec(characters@).0, places, people),
        exists|places: Seq<EntityId>, people: Seq<EntityId>|
            #[trigger] placed(old(world), final(world), parse_spec(characters@).0, places, people),
        exists|nodes: Seq<Node>, people: Seq<EntityId>|
            #[trigger] cast_details(final(world), nodes, people, old(world).epoch.0, *whole_years, old(world).tags.map())
                && view_nodes(nodes) == parse_spec(characters@).0 && people.len() == count_key(
                parse_spec(characters@).0,
                "character"@,
            ) && forall|k: int| 0 <= k < people.len() ==> final(world).ids.alive(#[trigger] people[k]) && !old(
                world,
            ).ids.alive(people[k]),
{
    let result = parse(characters);
    let ghost roots = parse_spec(characters@).0;
    let mut errors: Vec<String> = Vec::new();
    let mut e: usize = 0;
    while e < result.errors.len()
        invariant
            e <= result.errors@.len(),
            errors@.len() == e,
            forall|k: int| 0 <= k < e ==> (#[trigger] errors@[k])@ == "data/characters.txt: "@ + error_text(result.errors@[k]),
        decreases result.errors@.len() - e,
    {
        let text = result.errors[e].to_string();
        errors.push(message("data/characters.txt: ", text.as_str(), ""));
        proof {
            reveal_strlit("");
            assert(errors@[e as int]@ =~= "data/characters.txt: "@ + error_text(result.errors@[e as int]));
        }
        e = e + 1;
    }
    let ghost parse_lines = errors@;
    let mut by_key: Vec<(String, EntityId)> = Vec::new();
    let ghost pre1 = *world;
    let places = spawn_pass(
        world,
        &result.roots,
        &mut by_key,
        &mut errors,
        "settlement",
        "Nowhere",
        SETTLEMENTS,
        Ghost(count_key(roots, "character"@)),
        Ghost(name_bytes(roots, "character"@, "Anonymous"@)),
    );
    let ghost w1 = *world;
    let ghost kv1 = key_view(by_key@);
    proof {
        assert(kv1 =~= key_entries(roots, "settlement"@, places@)) by {
            assert(view_nodes(result.roots@) == roots);
        }
    }
    proof {
        assert forall|i: int| 0 <= i < roots.len() && (#[trigger] roots[i]).key == "settlement"@ implies spawned_for(
            &pre1,
            &w1,
            SETTLEMENTS,
            roots[i],
            "Nowhere"@,
        ) by {
            reveal_strlit("settlement");
            reveal_strlit("Nowhere");
            lemma_view_nodes_index(result.roots@);
            assert(view_nodes(result.roots@)[i] == roots[i]);
            assert(view_nodes(result.roots@)[i].key == "settlement"@);
            assert(0 <= i < result.roots@.len());
            assert(spawned_for(&pre1, &w1, SETTLEMENTS, view_nodes(result.roots@)[i], "Nowhere"@));
        }
    }
    let resolve = |key: &str| -> (r: Option<EntityId>)
        ensures
            r == lookup_spec(by_key@, key@),
        { lookup(&by_key, key) };
    let (map, map_errors) = WorldMap::parse(map_source, resolve);
    let mut e: usize = 0;
    while e < map_errors.len()
        invariant
            e <= map_errors@.len(),
            extends(parse_lines, errors@),
        decreases map_errors@.len() - e,
    {
        let ghost e0 = errors@;
        errors.push(message("data/map.txt: ", map_errors[e].as_str(), ""));
        proof {
            lemma_extends_push(e0, errors@.last());
            assert(e0.push(errors@.last()) =~= errors@);
            lemma_extends_trans(parse_lines, e0, errors@);
        }
        e = e + 1;
    }
    world.map = map;
    let ghost w2 = *world;
    let ghost e1 = errors@;
    let people = spawn_pass(
        world,
        &result.roots,
        &mut by_key,
        &mut errors,
        "character",
        "Anonymous",
        PEOPLE,
        Ghost(0),
        Ghost(0),
    );
    proof {
        lemma_extends_trans(parse_lines, e1, errors@);
    }
    let ghost e2 = errors@;
    let ghost w3 = *world;
    proof {
        assert(view_nodes(result.roots@) == roots);
        assert(key_view(by_key@) =~= key_entries(roots, "settlement"@, places@) + key_entries(roots, "character"@, people@));
    }
    proof {
        assert forall|i: int| 0 <= i < roots.len() && (#[trigger] roots[i]).key == "character"@ implies spawned_for(
            &w2,
            &w3,
            PEOPLE,
            roots[i],
            "Anonymous"@,
        ) by {
            reveal_strlit("character");
            reveal_strlit("Anonymous");
            lemma_view_nodes_index(result.roots@);
            assert(view_nodes(result.roots@)[i] == roots[i]);
        }
    }
    let ghost w_pre_details = *world;
    character_details(world, &result.roots, &people, whole_years);
    let ghost w_details = *world;
    let mut changes = relations_pass(world, &result.roots, &by_key, &mut errors);
    let ghost w_rel = *world;
    proof {
        lemma_extends_trans(parse_lines, e2, errors@);
        assert forall|k: int| 0 <= k < parse_lines.len() implies (#[trigger] errors@[k])@ == "data/characters.txt: "@ + error_text(
            parse_spec(characters@).1[k],
        ) by {
            assert(errors@.subrange(0, parse_lines.len() as int)[k] == errors@[k]);
        }
    }
    let mut previous = Relations::new(&world.defs);
    std::mem::swap(&mut previous, &mut world.state.relations);
    let keep = |kind: RelationId| -> (b: bool)
        ensures
            b,
        { true };
    let ghost changes0 = changes@;
    world.state.relations.rebuild(&previous, &world.ids, &mut changes, keep);
    proof {
        let w0 = *old(world);
        let keys = key_entries(roots, "settlement"@, places@) + key_entries(roots, "character"@, people@);
        assert(changes0 == data_links(roots, keys));
        assert(previous == w0.state.relations);
        assert forall|x: EntityId| #[trigger] w0.ids.alive(x) implies w2.ids.alive(x) by {
            assert(w1.ids.alive(x));
        }
        if forall|s: int| 0 <= s < CAPACITY ==> (#[trigger] w0.state.relations.row(s)).len() == 0 {
            assert forall|s: int| 0 <= s < CAPACITY implies row_map(#[trigger] world.state.relations.row(s)) == apply_changes(
                Map::empty(),
                slot_changes(data_links(roots, keys), s),
                world.ids.slot(s),
            ) by {
                assert(previous.row(s).len() == 0);
                assert(row_map(previous.row(s)) =~= Map::empty());
                assert(crate::entities::relations::carried_base(&previous, &world.ids, keep, s) =~= Map::empty());
            }
            assert forall|k: int| 0 <= k < places@.len() implies world.ids.alive(#[trigger] places@[k]) && !w0.ids.alive(
                places@[k],
            ) by {
                assert(w1.ids.alive(places@[k]));
            }
            assert forall|k: int| 0 <= k < people@.len() implies world.ids.alive(#[trigger] people@[k]) && !w0.ids.alive(
                people@[k],
            ) by {
                assert(w3.ids.alive(people@[k]));
            }
            assert(authored(&w0, &*world, roots, places@, people@));
        }
        assert(spawned_cast(&w0, &*world, roots, places@, people@)) by {
            assert forall|k: int| 0 <= k < places@.len() implies world.ids.alive(#[trigger] places@[k]) && !w0.ids.alive(
                places@[k],
            ) by {
                assert(w1.ids.alive(places@[k]));
            }
            assert forall|k: int| 0 <= k < people@.len() implies world.ids.alive(#[trigger] people@[k]) && !w0.ids.alive(
                people@[k],
            ) by {
                assert(w3.ids.alive(people@[k]));
            }
        }
        assert(placed(&w0, &*world, roots, places@, people@)) by {
            assert(world.state.positions == w_rel.state.positions);
            assert(world.map == w_rel.map);
            assert(world.ids == w_rel.ids);
        }
        assert(w_pre_details.tags == w0.tags);
        assert(w_pre_details.epoch == w0.epoch);
        assert(cast_details(&*world, result.roots@, people@, w0.epoch.0, *whole_years, w0.tags.map())) by {
            assert(world.state.uvars == w_details.state.uvars);
            assert(world.tags == w_details.tags);
        }
        assert forall|k: int| 0 <= k < people@.len() implies world.ids.alive(#[trigger] people@[k]) && !w0.ids.alive(
            people@[k],
        ) by {
            assert(w3.ids.alive(people@[k]));
        }
    }
    proof {
        let w0 = *old(world);
        let vs = view_nodes(result.roots@);
        assert(vs == roots);
        assert forall|y: EntityId| #[trigger] w3.ids.alive(y) implies world.ids.alive(y) && world.ids.bits(y.idx() as int)
            == w3.ids.bits(y.idx() as int) && world.names.name(y.idx() as int) == w3.names.name(y.idx() as int) by {
        }
        assert forall|y: EntityId| #[trigger] w1.ids.alive(y) implies world.ids.alive(y) && world.ids.bits(y.idx() as int)
            == w1.ids.bits(y.idx() as int) && world.names.name(y.idx() as int) == w1.names.name(y.idx() as int) by {
            assert(w2.ids.alive(y));
            assert(w3.ids.alive(y));
        }
        assert forall|i: int| 0 <= i < roots.len() && (#[trigger] roots[i]).key == "settlement"@ implies spawned_for(
            &w0,
            &*world,
            SETTLEMENTS,
            roots[i],
            "Nowhere"@,
        ) by {
            assert(vs[i].key == "settlement"@);
            assert(pre1 == w0);
            assert(spawned_for(&w0, &w1, SETTLEMENTS, vs[i], "Nowhere"@));
            lemma_spawned_for_carry(w0, w0, w1, *world, SETTLEMENTS, roots[i], "Nowhere"@);
        }
        assert forall|i: int| 0 <= i < roots.len() && (#[trigger] roots[i]).key == "character"@ implies spawned_for(
            &w0,
            &*world,
            PEOPLE,
            roots[i],
            "Anonymous"@,
        ) by {
            assert(vs[i].key == "character"@);
            assert forall|x: EntityId| #[trigger] w0.ids.alive(x) implies w2.ids.alive(x) by {
                assert(w1.ids.alive(x));
            }
            assert(spawned_for(&w2, &w3, PEOPLE, vs[i], "Anonymous"@));
            lemma_spawned_for_carry(w0, w2, w3, *world, PEOPLE, roots[i], "Anonymous"@);
        }
    }
    errors
}

} // verus!
