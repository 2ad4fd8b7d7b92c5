use imperium::entities::defs::{Definitions, RelationId, SetId, UVarId, VarId};
use imperium::entities::id::{EntityId, Ids};
use imperium::entities::relations::{RelationEntry, Relations};
use imperium::game::command::{ActionError, Command};
use imperium::game::date::{days_between, Date, DAYS_PER_YEAR};
use imperium::game::defs::{init_world, is_derived_id, located_at, Gender, Relation, SetKind, UVar};
use imperium::game::map::{Cell, CellPos, Terrain, WorldMap};
use imperium::game::spatial_map::SpatialMap;
use imperium::game::pathfinding::{manhattan, successors, Pathfinding};
use imperium::game::world::{Activity, ActivityVerb, Epoch, World};

#[test]
fn dates_derive_from_the_epoch() {
    // Epoch 0 is the dawn of the calendar, not the start of the sim.
    assert_eq!(Date::of(Epoch(0)), Date { year: 0, month: 1, day: 1 });
    assert_eq!(Date::of(Epoch(29)), Date { year: 0, month: 1, day: 30 });
    assert_eq!(Date::of(Epoch(30)), Date { year: 0, month: 2, day: 1 });
    assert_eq!(Date::of(Epoch(360)), Date { year: 1, month: 1, day: 1 });
    assert_eq!(Date::of(Epoch(700 * DAYS_PER_YEAR)).to_string(), "Day 1 of Month 1, 700 AUC");
}

#[test]
fn days_between_ignores_direction() {
    assert_eq!(days_between(Epoch(10), Epoch(3)), 7);
    assert_eq!(days_between(Epoch(3), Epoch(10)), 7);
    assert_eq!(days_between(Epoch(5), Epoch(5)), 0);
}

#[test]
fn last_day_of_the_year_reads_right() {
    assert_eq!(Date::of(Epoch(359)), Date { year: 0, month: 12, day: 30 });
    assert_eq!(Date::of(Epoch(359)).to_string(), "Day 30 of Month 12, 0 AUC");
}

const SOURCE: &str = "
        ~..
        ~aa#
        a = home
    ";

fn home() -> EntityId {
    Ids::new().spawn()
}

fn map() -> (WorldMap, Vec<String>) {
    WorldMap::parse(SOURCE, |key: &str| if key == "home" { Some(home()) } else { None })
}

#[test]
fn parses_grid_legend_and_costs() {
    let (map, errors) = map();
    assert!(errors.is_empty());
    assert_eq!((map.width, map.height), (4, 2));

    // Sea keeps its kind; wilds are the zero cell, as is row padding.
    assert_eq!(map.cell(CellPos { x: 0, y: 0 }).terrain, Terrain::Sea);
    assert_eq!(map.cell(CellPos { x: 1, y: 0 }).terrain, Terrain::Wild);
    assert_eq!(map.cell(CellPos { x: 3, y: 0 }).terrain, Terrain::Wild);
    // Roads are steppable but belong to no one.
    let road = map.cell(CellPos { x: 3, y: 1 });
    assert_eq!(road.terrain, Terrain::Road);
    assert_eq!(road.cost, 1);
    assert_eq!(road.settlement, EntityId::null());
    // Settlement cells carry their blob's id; the anchor is the blob's
    // first cell.
    let town = map.cell(CellPos { x: 1, y: 1 });
    assert_eq!(town.terrain, Terrain::Settlement);
    assert_eq!(town.cost, 1);
    assert_eq!(town.settlement, home());
    assert_eq!(map.anchor(home()), CellPos { x: 1, y: 1 });
    assert_eq!(map.anchor(EntityId::null()), CellPos::default());
}

#[test]
fn out_of_bounds_is_the_void() {
    let (map, _) = map();
    let beyond = map.cell(CellPos { x: 99, y: 0 });
    assert_eq!(beyond.terrain, Terrain::Wild);
    assert_eq!(beyond.cost, 0);
    assert_eq!(beyond.settlement, EntityId::null());
    assert_eq!(beyond, Cell::default());
}

#[test]
fn problems_become_errors_and_void_cells() {
    let (map, errors) = WorldMap::parse("x?\nx = ghost\n1 = home", |_: &str| None);
    // Unknown key, bad legend glyph, then per-cell: legendless 'x',
    // unknown '?'.
    assert_eq!(errors.len(), 4);
    assert_eq!(map.cell(CellPos { x: 0, y: 0 }).terrain, Terrain::Wild);
    assert_eq!(map.cell(CellPos { x: 1, y: 0 }).terrain, Terrain::Wild);
}

#[test]
fn problem_messages_name_the_culprit() {
    let (_, errors) = WorldMap::parse("x?\nx = ghost\n1 = home\nab = x", |_: &str| None);
    assert_eq!(
        errors,
        [
            "legend 'x' names unknown id 'ghost'",
            "legend glyph '1' is not a letter",
            "legend glyph 'ab' is not a letter",
            "glyph 'x' at 0,0 has no legend",
            "unknown glyph '?' at 1,0",
        ]
    );
}

#[test]
fn later_legend_lines_win_and_rows_keep_their_shape() {
    let mut ids = Ids::new();
    let first = ids.spawn();
    let second = ids.spawn();
    let resolve = |key: &str| match key {
        "one" => Some(first),
        "two" => Some(second),
        _ => None,
    };
    let (map, errors) = WorldMap::parse("  bB\r\n\n    b.\nb = one\nB = two\n b = two", resolve);
    // Inside a row, blanks are no glyph at all.
    assert_eq!(errors, ["unknown glyph ' ' at 0,1", "unknown glyph ' ' at 1,1"]);
    assert_eq!((map.width, map.height), (4, 2));
    assert_eq!(map.cell(CellPos { x: 0, y: 0 }).settlement, second);
    assert_eq!(map.cell(CellPos { x: 1, y: 0 }).settlement, second);
    assert_eq!(map.cell(CellPos { x: 2, y: 1 }).settlement, second);
    assert_eq!(map.cell(CellPos { x: 3, y: 1 }).terrain, Terrain::Wild);
    // One blob, one anchor: its first cell in row-major order.
    assert_eq!(map.anchor(second), CellPos { x: 0, y: 0 });
    assert_eq!(map.anchor(first), CellPos::default());
}

#[test]
fn an_empty_text_is_an_empty_map() {
    let (map, errors) = WorldMap::parse("", |_: &str| None);
    assert!(errors.is_empty());
    assert_eq!((map.width, map.height), (0, 0));
    assert_eq!(map.cell(CellPos::default()), Cell::default());
}

#[test]
fn cells_round_trip_through_their_text() {
    let pos = CellPos { x: 4, y: 1 };
    assert_eq!(pos.to_string(), ((4u64 << 32) | 1).to_string());
    assert_eq!(CellPos::parse(&pos.to_string()), Some(pos));
    assert_eq!(CellPos::parse("elsewhere"), None);
}

#[test]
fn travel_orders_parse_and_garbage_does_not() {
    let mut command = Command::default();
    assert_eq!(command.parse(&format!("travel {}", CellPos { x: 4, y: 1 }.to_string())), Ok(()));
    assert_eq!(command.activity, Some(ActivityVerb::Travel));
    assert_eq!(command.destination, CellPos { x: 4, y: 1 });

    // Garbage and "nowhere" alike order nothing.
    let mut command = Command::default();
    assert_eq!(command.parse("travel elsewhere"), Err(ActionError::Malformed));
    assert_eq!(command.parse("travel 0"), Ok(()));
    assert_eq!(command.parse("travel"), Err(ActionError::Malformed));
    assert_eq!(command.activity, None);
    assert_eq!(command.destination, CellPos::default());
}

#[test]
fn actions_fold_into_one_command() {
    let mut ids = Ids::new();
    let someone = ids.spawn();
    let mut command = Command::default();
    assert_eq!(command.parse("  advance_time  "), Ok(()));
    assert_eq!(command.parse("rest"), Ok(()));
    assert_eq!(command.parse("choose 2"), Ok(()));
    assert_eq!(command.parse(&format!("remove {}", someone.to_string())), Ok(()));
    assert_eq!(command.parse("femalify nobody"), Err(ActionError::Malformed));
    assert_eq!(command.parse("choose -1"), Err(ActionError::Malformed));
    assert_eq!(command.parse("dance"), Err(ActionError::Unhandled));
    assert_eq!(command.parse(""), Err(ActionError::Unhandled));
    assert!(command.advance_time);
    assert_eq!(command.activity, Some(ActivityVerb::Rest));
    assert_eq!(command.choose, Some(2));
    assert_eq!(command.remove, someone);
    assert_eq!(command.femalify, EntityId::null());
    assert_eq!(command.parse("stop"), Ok(()));
    assert_eq!(command.activity, Some(ActivityVerb::Idle));

    let only = Command::advance_time();
    assert!(only.advance_time);
    assert_eq!(only.activity, None);
}

#[test]
fn relation_kinds_bridge_onto_ids() {
    assert_eq!(RelationId::from(Relation::LocatedIn), RelationId(1));
    assert_eq!(Relation::from_id(RelationId(3)), Some(Relation::Rules));
    assert_eq!(Relation::from_id(RelationId(4)), None);
    assert!(Relation::LocatedIn.is_derived());
    assert!(!Relation::Married.is_derived());
    assert!(is_derived_id(RelationId(1)));
    assert!(!is_derived_id(RelationId(0)));
    assert!(!is_derived_id(RelationId(99)));
    assert_eq!(SetId::from(SetKind::People), SetId(1));
    assert_eq!(SetKind::from_id(SetId(2)), Some(SetKind::Settlements));
    assert_eq!(SetKind::from_id(SetId(3)), None);
    assert_eq!(UVarId::from(UVar::Gender), UVarId(2));
}

#[test]
fn init_world_defines_the_schema_in_enum_order() {
    let world = init_world(7);
    assert_eq!(world.seed, 7);
    assert_eq!(world.epoch, Epoch(0));
    assert_eq!(world.defs.get_relation_name(RelationId(1)), Some("LocatedIn"));
    assert_eq!(world.defs.get_set_name(SetId(2)), Some("Settlements"));
    assert_eq!(world.defs.get_uvar_name(UVarId(1)), Some("BirthEpoch"));
    assert_eq!(world.defs.get_var_name(VarId(0)), Some("Dummy"));
    assert_eq!(world.state.relations.kind_count(), 4);
}

#[test]
fn located_at_reads_the_live_blob_owner() {
    let mut world = init_world(1);
    let town = world.spawn();
    let (map, _) = WorldMap::parse("~a\na = t", |key: &str| if key == "t" { Some(town) } else { None });
    world.map = map;
    assert_eq!(located_at(CellPos { x: 1, y: 0 }, &world.map, &world.ids), town);
    assert_eq!(located_at(CellPos { x: 0, y: 0 }, &world.map, &world.ids), EntityId::null());
    world.ids.mark_despawn(town);
    world.sweep();
    assert_eq!(located_at(CellPos { x: 1, y: 0 }, &world.map, &world.ids), EntityId::null());
}

fn small_world() -> World {
    let mut defs = Definitions::default();
    defs.define_var("x");
    defs.define_uvar("birth");
    defs.define_relation("married");
    World::new(defs, 42)
}

#[test]
fn marked_entities_stay_fully_alive_until_sweep_purges_every_store() {
    let mut world = small_world();
    let doomed = world.spawn();
    let widow = world.spawn();
    world.tags.bind(&world.ids, "emperor", doomed);
    let empty = Relations::new(&world.defs);
    world.state.relations.rebuild(
        &empty,
        &world.ids,
        &mut vec![RelationEntry { source: doomed, relation: RelationId(0), target: widow, value: 1.0f32.to_bits() }],
        |_: RelationId| true,
    );
    let name = world.names.add("Cuthbert");
    world.names.set(doomed, name);

    world.ids.mark_despawn(doomed);

    // Marked but unswept: visible everywhere, like any live entity.
    assert!(world.ids.is_alive(doomed));
    assert_eq!(world.tags.lookup("emperor"), Some(doomed));
    assert_eq!(world.related(doomed).len(), 1);
    assert_eq!(world.related_to(widow).len(), 1);
    assert_eq!(world.names.get(doomed), "Cuthbert");

    world.sweep();

    // Swept: gone from every store at once.
    assert!(!world.ids.is_alive(doomed));
    assert_eq!(world.tags.lookup("emperor"), None);
    assert_eq!(world.related(doomed).len(), 0);
    assert_eq!(world.related_to(widow).len(), 0);
}

#[test]
fn reused_slots_start_with_a_clean_slate() {
    let mut world = small_world();
    let stale = world.spawn();
    world.set_var(stale, VarId(0), 1.0f32.to_bits());
    world.set_activity(stale, Activity { verb: ActivityVerb::Rest, ..Default::default() });
    world.set_uvar(stale, UVarId(0), Epoch(12));
    let name = world.names.add("Sigered");
    world.names.set(stale, name);
    world.ids.mark_despawn(stale);
    world.sweep();

    let replacement = world.spawn();
    assert!(!world.ids.is_alive(stale));
    assert_eq!(f32::from_bits(world.get_var(replacement, VarId(0))), 0.0);
    assert_eq!(world.get_uvar::<Epoch>(replacement, UVarId(0)), Epoch(0));
    assert_eq!(world.names.get(replacement), "");
    assert_eq!(world.activity(replacement).verb, ActivityVerb::Idle);
    assert_eq!(world.position(replacement), CellPos::default());
}

#[test]
fn world_relation_queries_see_both_directions() {
    let mut world = small_world();
    let a = world.spawn();
    let b = world.spawn();
    let empty = Relations::new(&world.defs);
    world.state.relations.rebuild(
        &empty,
        &world.ids,
        &mut vec![RelationEntry { source: a, relation: RelationId(0), target: b, value: 2.0f32.to_bits() }],
        |_: RelationId| true,
    );
    assert_eq!(f32::from_bits(world.relation(a, RelationId(0), b)), 2.0);
    assert_eq!(world.related_via(a, RelationId(0)), [(b, 2.0f32.to_bits())]);
    assert_eq!(world.related_to_via(b, RelationId(0)), [(a, 2.0f32.to_bits())]);
    assert_eq!(world.related_to(b)[0].source, a);
}

#[test]
fn spatial_map_files_live_entities_by_cell_in_slot_order() {
    let mut world = init_world(3);
    let (map, _) = WorldMap::parse("....\n....", |_: &str| None);
    world.map = map;
    let a = world.spawn();
    let b = world.spawn();
    let c = world.spawn();
    let gone = world.spawn();
    world.set_position(a, CellPos { x: 2, y: 1 });
    world.set_position(b, CellPos { x: 2, y: 1 });
    world.set_position(c, CellPos { x: 9, y: 9 });
    world.set_position(gone, CellPos { x: 2, y: 1 });
    world.ids.mark_despawn(gone);
    world.sweep();

    let mut index = SpatialMap::default();
    assert_eq!(index.at(CellPos { x: 2, y: 1 }), []);
    index.rebuild(&world);
    assert_eq!(index.at(CellPos { x: 2, y: 1 }), [a, b]);
    assert_eq!(index.at(CellPos { x: 9, y: 9 }), []);
    assert_eq!(index.at(CellPos::default()), []);
}

#[test]
fn epochs_advance_and_genders_round_trip() {
    let mut e = Epoch::default();
    e.advance();
    assert_eq!(e, Epoch(1));
    assert_eq!(Epoch::never(), Epoch(u64::MAX));
    let mut world = init_world(5);
    let who = world.spawn();
    assert_eq!(world.get_uvar::<Gender>(who, UVarId::from(UVar::Gender)), Gender::Male);
    world.set_uvar(who, UVarId::from(UVar::Gender), Gender::Female);
    assert_eq!(world.get_uvar::<Gender>(who, UVarId::from(UVar::Gender)), Gender::Female);
}

// Routes: a road ring around a wild block, a settlement at each end of the
// top road, and a sea-moated island no road reaches.
const RING: &str = "
        a###b
        #...#
        #####
        ~~~~~
        ~.c.~
        a = a
        b = b
        c = c
    ";

fn ring() -> WorldMap {
    let mut ids = Ids::new();
    let (a, b, c) = (ids.spawn(), ids.spawn(), ids.spawn());
    let (map, errors) = WorldMap::parse(RING, |key: &str| match key {
        "a" => Some(a),
        "b" => Some(b),
        "c" => Some(c),
        _ => None,
    });
    assert!(errors.is_empty(), "{errors:?}");
    map
}

fn at(x: u32, y: u32) -> CellPos {
    CellPos { x, y }
}

#[test]
fn steps_along_the_road_toward_the_goal() {
    let map = ring();
    let mut routes = Pathfinding::default();

    // a(0,0) to b(4,0): straight along the top road, one cell east.
    assert_eq!(routes.next_step(&map, at(0, 0), at(4, 0)), at(1, 0));
    assert_eq!(routes.next_step(&map, at(1, 0), at(4, 0)), at(2, 0));
    assert_eq!(routes.next_step(&map, at(3, 0), at(4, 0)), at(4, 0));
}

#[test]
fn routes_around_the_impassable() {
    let map = ring();
    let mut routes = Pathfinding::default();

    // The wild block can't be crossed; from the middle of the top road the
    // way down runs along a side column.
    let next = routes.next_step(&map, at(2, 0), at(2, 2));
    assert!(next == at(1, 0) || next == at(3, 0));
}

#[test]
fn no_route_means_no_move() {
    let map = ring();
    let mut routes = Pathfinding::default();

    // The island settlement is behind sea; nowhere = the zero cell.
    assert_eq!(routes.next_step(&map, at(0, 0), at(2, 4)), CellPos::default());
    // Already there.
    assert_eq!(routes.next_step(&map, at(0, 0), at(0, 0)), CellPos::default());
    // Off the map entirely.
    assert_eq!(routes.next_step(&map, at(0, 0), at(99, 99)), CellPos::default());
}

#[test]
fn one_computation_seeds_the_whole_journey() {
    let map = ring();
    let mut routes = Pathfinding::default();

    routes.next_step(&map, at(0, 0), at(4, 0));
    let seeded = routes.len();
    assert_eq!(seeded, 5);
    // Every later hop of the same journey answers from the memo.
    routes.next_step(&map, at(1, 0), at(4, 0));
    routes.next_step(&map, at(2, 0), at(4, 0));
    routes.next_step(&map, at(4, 0), at(4, 0));
    assert_eq!(routes.len(), seeded);
}

#[test]
fn clear_forgets_every_answer() {
    let map = ring();
    let mut routes = Pathfinding::default();
    routes.next_step(&map, at(0, 0), at(4, 0));
    assert!(routes.len() > 0);
    routes.clear();
    assert_eq!(routes.len(), 0);
}

#[test]
fn neighbours_are_the_enterable_cells_around() {
    let map = ring();
    // From the top-left corner: west and north don't exist, east is road,
    // south is road.
    assert_eq!(successors(&map, at(0, 0)), [(at(1, 0), 1), (at(0, 1), 1)]);
    // Below the top road's middle lies the wild block.
    assert_eq!(successors(&map, at(2, 0)), [(at(1, 0), 1), (at(3, 0), 1)]);
    assert_eq!(manhattan(at(0, 0), at(4, 3)), 7);
    assert_eq!(manhattan(at(4, 3), at(0, 0)), 7);
    assert_eq!(manhattan(at(0, 0), at(u32::MAX, u32::MAX)), 2 * u32::MAX as u64);
}

#[test]
fn a_square_blob_is_anchored_at_its_center() {
    let source = ".....\n.aaa.\n.aaa.\n.aaa.\n.....\na = home";
    let (map, errors) = WorldMap::parse(source, |key: &str| if key == "home" { Some(home()) } else { None });
    assert!(errors.is_empty(), "{errors:?}");
    assert_eq!(map.anchor(home()), CellPos { x: 2, y: 2 });
    assert_eq!(map.cell(map.anchor(home())).settlement, home());
}
