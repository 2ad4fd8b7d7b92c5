use imperium::entities::defs::{Definitions, RelationId, SetId, UVarId, VarId};
use imperium::entities::id::{EntityId, Ids, CAPACITY};
use imperium::entities::names::Names;
use imperium::entities::relations::{RelationEntry, Relations};
use imperium::entities::sets::Sets;
use imperium::entities::table::Table;
use imperium::entities::tags::Tags;
use imperium::entities::uvars::UVars;
use imperium::entities::vars::Vars;

#[test]
fn defs_definitions_assign_names_and_iterate_ids() {
    let mut defs = Definitions::default();
    let x = defs.define_var("x");
    let age = defs.define_var("age");
    let married = defs.define_relation("married");
    let citizens = defs.define_set("citizens");

    assert_eq!(defs.get_var_name(x), Some("x"));
    assert_eq!(defs.get_var_name(age), Some("age"));
    assert_eq!(defs.get_relation_name(married), Some("married"));
    assert_eq!(defs.get_set_name(citizens), Some("citizens"));
    assert_eq!(defs.get_var_name(VarId(2)), None);
    assert_eq!(defs.iter_vars(), [x, age]);
    assert_eq!(defs.iter_relations(), [married]);
    assert_eq!(defs.iter_sets(), [citizens]);
}

#[test]
fn entities_definitions_assign_names_and_iterate_ids() {
    let mut defs = Definitions::default();
    let x = defs.define_var("x");
    let age = defs.define_var("age");
    let married = defs.define_relation("married");
    let citizens = defs.define_set("citizens");

    assert_eq!(defs.get_var_name(x), Some("x"));
    assert_eq!(defs.get_var_name(age), Some("age"));
    assert_eq!(defs.get_relation_name(married), Some("married"));
    assert_eq!(defs.get_set_name(citizens), Some("citizens"));
    assert_eq!(defs.get_var_name(VarId(2)), None);
    assert_eq!(defs.iter_vars(), [x, age]);
    assert_eq!(defs.iter_relations(), [married]);
    assert_eq!(defs.iter_sets(), [citizens]);
}

#[test]
fn uvar_names_and_ids_line_up() {
    let mut defs = Definitions::default();
    let handle = defs.define_uvar("handle");
    assert_eq!(defs.get_uvar_name(handle), Some("handle"));
    assert_eq!(defs.get_relation_name(RelationId(1)), None);
    assert_eq!(defs.iter_uvars(), [handle]);
    assert_eq!((defs.var_count(), defs.uvar_count(), defs.relation_count(), defs.set_count()), (0, 1, 0, 0));
}

#[test]
fn id_ids_round_trip_through_bits_and_strings() {
    let mut ids = Ids::new();
    let id = ids.spawn();

    assert_eq!(EntityId::from_bits(id.to_bits()), id);
    assert_eq!(id.to_string().parse::<EntityId>(), Ok(id));

    // The null id is "0", both ways.
    assert_eq!(EntityId::default().to_bits(), 0);
    assert_eq!("0".parse::<EntityId>(), Ok(EntityId::default()));

    // Garbage degrades safely: not-a-number is an error; out-of-range bits
    // pack to the null id, which is never alive.
    assert!("brutus".parse::<EntityId>().is_err());
    let overflow = "99999999999999".parse::<EntityId>().unwrap();
    assert_eq!(overflow, EntityId::default());
    assert!(!ids.is_alive(overflow));
}

#[test]
fn id_default_id_is_not_alive() {
    let ids = Ids::new();
    assert!(!ids.is_alive(EntityId::default()));
    assert!(!ids.is_alive(EntityId::null()));
}

#[test]
fn id_marked_entities_stay_alive_until_sweep() {
    let mut ids = Ids::new();
    let doomed = ids.spawn();
    ids.mark_despawn(doomed);
    // Double-marking is harmless and dedups: one dead id comes back.
    ids.mark_despawn(doomed);

    assert!(ids.is_alive(doomed));
    assert_eq!(ids.sweep(), [doomed]);
    assert!(!ids.is_alive(doomed));

    // Marking an already-dead id is harmless too.
    ids.mark_despawn(doomed);
    assert_eq!(ids.sweep(), []);
}

#[test]
fn id_iter_alive_lists_live_entities_in_slot_order() {
    let mut ids = Ids::new();
    assert_eq!(ids.iter_alive().len(), 0);

    let a = ids.spawn();
    let b = ids.spawn();
    let c = ids.spawn();
    ids.mark_despawn(b);

    // Marked but unswept: still alive.
    assert_eq!(ids.iter_alive(), [a, b, c]);

    ids.sweep();
    assert_eq!(ids.iter_alive(), [a, c]);

    let reused = ids.spawn();
    assert_eq!(reused.index(), b.index());
    assert_eq!(ids.iter_alive(), [a, reused, c]);
}

#[test]
fn id_exhausted_generation_retires_slot() {
    let mut ids = Ids::new();
    let first = ids.spawn();
    let exhausted = ids.force_generation(first, u16::MAX);

    ids.mark_despawn(exhausted);
    ids.sweep();
    let next = ids.spawn();

    assert!(!ids.is_alive(exhausted));
    assert_ne!(next.index(), exhausted.index());
}

#[test]
fn id_at_reads_each_slots_current_id() {
    let mut ids = Ids::new();
    let a = ids.spawn();
    assert_eq!(ids.id_at(a.index()), a);
    ids.mark_despawn(a);
    ids.sweep();
    let after = ids.id_at(a.index());
    assert_eq!(after.index(), a.index());
    assert_ne!(after, a);
    assert!(!after.is_valid());
}

#[test]
fn names_are_stored_by_slot_and_cleared_by_purge() {
    let mut ids = Ids::new();
    let mut names = Names::new();
    let first = ids.spawn();
    let cicero = names.add("Marcus Tullius Cicero");
    names.set(first, cicero);
    assert_eq!(names.get(first), "Marcus Tullius Cicero");

    ids.mark_despawn(first);
    let dead = ids.sweep();
    names.purge(&dead);
    let replacement = ids.spawn();

    assert_eq!(names.get(replacement), "");
    let caesar = names.add("Gaius Julius Caesar");
    names.set(replacement, caesar);
    assert_eq!(names.get(replacement), "Gaius Julius Caesar");
}

#[test]
fn names_one_symbol_names_many_entities_and_outlives_them() {
    let mut ids = Ids::new();
    let mut names = Names::new();
    let gaius = names.add("Gaius");
    let a = ids.spawn();
    let b = ids.spawn();
    names.set(a, gaius);
    names.set(b, gaius);
    assert_eq!(names.get(a), "Gaius");
    assert_eq!(names.get(b), "Gaius");
    // One vocabulary entry serves both.
    assert_eq!(names.vocabulary_len(), "Gaius".len());

    ids.mark_despawn(a);
    let dead = ids.sweep();
    names.purge(&dead);
    let c = ids.spawn();
    names.set(c, gaius);
    assert_eq!(names.get(c), "Gaius");
}

fn sets_fixture() -> (Ids, Sets) {
    let mut defs = Definitions::default();
    defs.define_set("dummy");
    (Ids::new(), Sets::new(&defs))
}

#[test]
fn sets_set_membership_is_idempotent_and_removable() {
    let (mut ids, mut sets) = sets_fixture();
    let first = ids.spawn();
    let second = ids.spawn();

    assert!(sets.add(&mut ids, SetId(0), first));
    assert!(!sets.add(&mut ids, SetId(0), first));
    assert!(sets.add(&mut ids, SetId(0), second));
    assert!(sets.contains(&ids, SetId(0), first));
    assert_eq!(sets.iter(SetId(0)), [first, second]);
    assert!(sets.remove(&mut ids, SetId(0), first));
    assert!(!sets.remove(&mut ids, SetId(0), first));
    assert!(!sets.contains(&ids, SetId(0), first));
}

#[test]
fn purge_removes_memberships_of_dead_entities() {
    let (mut ids, mut sets) = sets_fixture();
    let dead = ids.spawn();
    sets.add(&mut ids, SetId(0), dead);
    ids.mark_despawn(dead);

    // Marked but not yet swept: still a member.
    assert!(sets.contains(&ids, SetId(0), dead));

    let swept = ids.sweep();
    sets.purge(&swept);
    assert!(!sets.contains(&ids, SetId(0), dead));
    assert_eq!(sets.iter(SetId(0)).len(), 0);
    assert_eq!(sets.len(), 0);

    // The reused slot's inline bits start clean.
    let replacement = ids.spawn();
    assert!(!sets.contains(&ids, SetId(0), replacement));
}

#[derive(Clone, Copy, Default, PartialEq, Debug)]
struct Row {
    kind: u16,
    target: EntityId,
}

#[test]
fn rows_read_default_until_set_and_reset_clears() {
    let mut ids = Ids::new();
    let mut table: Table<Row> = Table::new();
    let id = ids.spawn();
    let other = ids.spawn();
    table.reset(id);

    assert_eq!(*table.get(id), Row::default());
    table.set(id, Row { kind: 3, target: other });
    assert_eq!(table.get(id).kind, 3);
    assert_eq!(table.get(id).target, other);

    table.reset(id);
    assert_eq!(*table.get(id), Row::default());
}

#[test]
fn table_copies_chunks_and_edits_in_place() {
    let mut ids = Ids::new();
    let mut source: Table<Row> = Table::new();
    let mut copy: Table<Row> = Table::new();
    let id = ids.spawn();
    source.set(id, Row { kind: 9, target: id });
    copy.copy_chunk_from(&source, 0..CAPACITY);
    assert_eq!(copy.get(id).kind, 9);
    copy.get_mut(id).kind = 4;
    assert_eq!(copy.get(id).kind, 4);
    assert_eq!(source.get(id).kind, 9);
    assert_eq!(copy.rows().len(), CAPACITY);
}

#[test]
fn tags_tags_can_be_bound_replaced_and_unbound() {
    let mut ids = Ids::new();
    let mut tags = Tags::default();
    let first = ids.spawn();
    let second = ids.spawn();

    assert_eq!(tags.bind(&ids, "consul", first), None);
    assert_eq!(tags.lookup("consul"), Some(first));
    assert_eq!(tags.bind(&ids, "consul", second), Some(first));
    assert_eq!(tags.lookup("consul"), Some(second));
    assert_eq!(tags.unbind("consul"), Some(second));
    assert_eq!(tags.unbind("consul"), None);
    assert_eq!(tags.lookup("consul"), None);
}

#[test]
fn purge_drops_tags_of_dead_entities() {
    let mut ids = Ids::new();
    let mut tags = Tags::default();
    let dead = ids.spawn();
    tags.bind(&ids, "emperor", dead);
    ids.mark_despawn(dead);

    // Marked but not yet swept: the tag still resolves.
    assert_eq!(tags.lookup("emperor"), Some(dead));

    ids.sweep();
    tags.purge(&ids);
    assert_eq!(tags.lookup("emperor"), None);
    assert_eq!(tags.len(), 0);

    let replacement = ids.spawn();
    assert_eq!(dead.to_bits() & 0xffff, replacement.to_bits() & 0xffff);
    assert_eq!(tags.lookup("emperor"), None);
}

fn uvars_fixture() -> UVars {
    let mut defs = Definitions::default();
    defs.define_uvar("handle");
    defs.define_uvar("friend");
    UVars::new(&defs)
}

#[test]
fn uvars_read_zero_until_set_and_reset_clears() {
    let mut ids = Ids::new();
    let mut uvars = uvars_fixture();
    let id = ids.spawn();

    assert_eq!(uvars.get::<u64>(id, UVarId(0)), 0);
    uvars.set(id, UVarId(0), 99u64);
    assert_eq!(uvars.get::<u64>(id, UVarId(0)), 99);

    uvars.reset(id);
    assert_eq!(uvars.get::<u64>(id, UVarId(0)), 0);
}

#[test]
fn entity_ids_round_trip_as_weak_refs() {
    let mut ids = Ids::new();
    let mut uvars = uvars_fixture();
    let holder = ids.spawn();
    let friend = ids.spawn();

    // The zero slot reads as the null id.
    assert_eq!(uvars.get::<EntityId>(holder, UVarId(1)), EntityId::null());

    uvars.set(holder, UVarId(1), friend);
    assert_eq!(uvars.get::<EntityId>(holder, UVarId(1)), friend);

    // Nothing purges a weak ref on death: it reads back stale and simply
    // fails the caller's liveness check.
    ids.mark_despawn(friend);
    ids.sweep();
    let stale: EntityId = uvars.get(holder, UVarId(1));
    assert_eq!(stale, friend);
    assert!(!ids.is_alive(stale));

    // And a reused slot can't be aliased by it.
    let replacement = ids.spawn();
    assert!(ids.is_alive(replacement));
    assert!(!ids.is_alive(stale));
}

#[test]
fn vars_read_zero_until_set_and_reset_clears() {
    let mut ids = Ids::new();
    let mut defs = Definitions::default();
    defs.define_var("x");
    let mut vars = Vars::new(&defs);
    let id = ids.spawn();

    assert_eq!(f32::from_bits(vars.get(id, VarId(0))), 0.0);
    vars.set(id, VarId(0), 1.5f32.to_bits());
    assert_eq!(f32::from_bits(vars.get(id, VarId(0))), 1.5);
    vars.reset(id);
    assert_eq!(vars.get(id, VarId(0)), 0);
}

// Relations: weights travel as f32 bit patterns.

fn relations_fixture() -> (Ids, Relations, Relations) {
    let mut defs = Definitions::default();
    defs.define_relation("married");
    defs.define_relation("located");
    (Ids::new(), Relations::new(&defs), Relations::new(&defs))
}

fn edge(source: EntityId, relation: u16, target: EntityId, value: f32) -> RelationEntry {
    RelationEntry { source, relation: RelationId(relation), target, value: value.to_bits() }
}

fn weight(bits: u32) -> f32 {
    f32::from_bits(bits)
}

fn all(_: RelationId) -> bool {
    true
}

#[test]
fn rebuild_from_empty_then_query_both_directions_in_order() {
    let (mut ids, mut relations, empty) = relations_fixture();
    let first = ids.spawn();
    let second = ids.spawn();
    let target = ids.spawn();

    let mut changes = vec![
        edge(second, 0, target, 2.0),
        edge(first, 0, target, 1.0),
        edge(first, 1, target, 3.0),
        edge(first, 0, second, 4.0),
        edge(first, 1, second, 0.0), // zero = no edge
    ];
    relations.rebuild(&empty, &ids, &mut changes, all);

    assert_eq!(weight(relations.get(&ids, first, RelationId(0), target)), 1.0);
    assert_eq!(weight(relations.get(&ids, target, RelationId(0), first)), 0.0);
    assert_eq!(weight(relations.get(&ids, first, RelationId(1), second)), 0.0);

    // Forward: (relation, target) order.
    assert_eq!(relations.get_related(&ids, first).len(), 3);
    assert_eq!(
        relations.get_related_via(&ids, first, RelationId(0)),
        [(second, 4.0f32.to_bits()), (target, 1.0f32.to_bits())]
    );

    // Reverse: (relation, source) order.
    assert_eq!(
        relations.get_related_to_via(&ids, target, RelationId(0)),
        [(first, 1.0f32.to_bits()), (second, 2.0f32.to_bits())]
    );
    let incoming = relations.get_related_to(&ids, target);
    assert_eq!(incoming.len(), 3);
    assert!(incoming.iter().all(|e| e.target == target));
}

#[test]
fn carried_kinds_flow_forward_and_changes_land_on_top() {
    let (mut ids, mut a, mut b) = relations_fixture();
    let x = ids.spawn();
    let y = ids.spawn();
    let z = ids.spawn();
    // Kind 0 carries; kind 1 does not.
    let carries = |r: RelationId| r == RelationId(0);

    a.rebuild(&b, &ids, &mut vec![edge(x, 0, y, 1.0), edge(x, 0, z, 5.0), edge(x, 1, y, 9.0)], carries);

    b.rebuild(
        &a,
        &ids,
        &mut vec![
            edge(x, 0, y, 2.0), // update
            edge(x, 0, z, 0.0), // deletion
            edge(y, 0, z, 7.0), // addition
        ],
        carries,
    );
    assert_eq!(weight(b.get(&ids, x, RelationId(0), y)), 2.0);
    assert_eq!(weight(b.get(&ids, x, RelationId(0), z)), 0.0);
    assert_eq!(weight(b.get(&ids, y, RelationId(0), z)), 7.0);
    assert_eq!(weight(b.get(&ids, x, RelationId(1), y)), 0.0);

    // No changes at all: carried kinds persist untouched.
    a.rebuild(&b, &ids, &mut Vec::new(), carries);
    assert_eq!(weight(a.get(&ids, x, RelationId(0), y)), 2.0);
    assert_eq!(weight(a.get(&ids, y, RelationId(0), z)), 7.0);
}

#[test]
fn the_last_write_to_a_key_wins() {
    let (mut ids, mut relations, empty) = relations_fixture();
    let x = ids.spawn();
    let y = ids.spawn();

    relations.rebuild(&empty, &ids, &mut vec![edge(x, 0, y, 1.0), edge(x, 0, y, 3.0)], all);
    assert_eq!(weight(relations.get(&ids, x, RelationId(0), y)), 3.0);

    let mut defs = Definitions::default();
    defs.define_relation("married");
    defs.define_relation("located");
    let mut second = Relations::new(&defs);
    second.rebuild(&empty, &ids, &mut vec![edge(x, 0, y, 1.0), edge(x, 0, y, 0.0)], all);
    assert_eq!(weight(second.get(&ids, x, RelationId(0), y)), 0.0);
    assert_eq!(second.get_related(&ids, x).len(), 0);
}

#[test]
fn dead_endpoints_read_as_no_relation_and_the_carry_drops_them() {
    let (mut ids, mut a, mut b) = relations_fixture();
    let source = ids.spawn();
    let doomed = ids.spawn();
    let live = ids.spawn();
    a.rebuild(
        &b,
        &ids,
        &mut vec![edge(source, 0, doomed, 1.0), edge(source, 0, live, 2.0), edge(doomed, 0, live, 3.0)],
        all,
    );

    ids.mark_despawn(doomed);
    // Marked but unswept: still alive, still related.
    assert_eq!(weight(a.get(&ids, source, RelationId(0), doomed)), 1.0);

    ids.sweep();
    // Stale edges linger but every query filters them.
    assert_eq!(weight(a.get(&ids, source, RelationId(0), doomed)), 0.0);
    assert_eq!(a.get_related(&ids, source).len(), 1);
    assert_eq!(a.get_related(&ids, doomed).len(), 0);
    assert_eq!(a.get_related_to(&ids, live).len(), 1);

    // The next rebuild's carry drops them physically, no changes needed.
    b.rebuild(&a, &ids, &mut Vec::new(), all);
    assert_eq!(b.get_related(&ids, source).len(), 1);
    assert_eq!(b.get_related_to(&ids, live).len(), 1);
}

#[test]
fn reused_slots_read_empty_and_carry_nothing() {
    let (mut ids, mut a, mut b) = relations_fixture();
    let source = ids.spawn();
    let doomed = ids.spawn();
    a.rebuild(&b, &ids, &mut vec![edge(doomed, 0, source, 1.0), edge(source, 0, doomed, 2.0)], all);

    ids.mark_despawn(doomed);
    ids.sweep();
    let replacement = ids.spawn();
    assert_eq!(replacement.index(), doomed.index());

    // The slot's rows were built for the corpse: the replacement owns none
    // of them, in either direction.
    assert_eq!(a.get_related(&ids, replacement).len(), 0);
    assert_eq!(a.get_related_to(&ids, replacement).len(), 0);

    // And the next rebuild's carry starts the slot from nothing.
    b.rebuild(&a, &ids, &mut Vec::new(), all);
    assert_eq!(b.get_related(&ids, replacement).len(), 0);
    assert_eq!(b.get_related(&ids, source).len(), 0);
}

#[test]
fn zero_changes_to_dead_endpoints_are_cleanup() {
    let (mut ids, mut relations, empty) = relations_fixture();
    let source = ids.spawn();
    let dead = ids.spawn();
    ids.mark_despawn(dead);
    ids.sweep();
    // A zero change to a dead endpoint is cleanup, not an error; so is
    // negative zero.
    relations.rebuild(&empty, &ids, &mut vec![edge(source, 0, dead, 0.0), edge(source, 0, dead, -0.0)], all);
    assert_eq!(relations.get_related(&ids, source).len(), 0);
    assert_eq!(relations.kind_count(), 2);
}

#[test]
fn negative_zero_deletes_like_zero() {
    let (mut ids, mut a, mut b) = relations_fixture();
    let x = ids.spawn();
    let y = ids.spawn();
    a.rebuild(&b, &ids, &mut vec![edge(x, 0, y, 5.0)], all);
    b.rebuild(&a, &ids, &mut vec![edge(x, 0, y, -0.0)], all);
    assert_eq!(b.get(&ids, x, RelationId(0), y), 0);
    assert_eq!(b.get_related_to(&ids, y).len(), 0);
}

#[test]
fn changes_end_stably_sorted_by_source_kind_and_target() {
    let (mut ids, mut relations, empty) = relations_fixture();
    let x = ids.spawn();
    let y = ids.spawn();
    let mut changes = vec![edge(y, 0, x, 1.0), edge(x, 0, y, 2.0), edge(x, 0, y, 3.0)];
    relations.rebuild(&empty, &ids, &mut changes, all);
    assert_eq!(changes, vec![edge(x, 0, y, 2.0), edge(x, 0, y, 3.0), edge(y, 0, x, 1.0)]);
    // The last write to a key still wins.
    assert_eq!(weight(relations.get(&ids, x, RelationId(0), y)), 3.0);
}
