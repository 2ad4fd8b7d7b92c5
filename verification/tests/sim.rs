use imperium::entities::defs::{RelationId, SetId};
use imperium::entities::id::EntityId;
use imperium::game::bootstrap::{bootstrap, cast_fits};
use imperium::game::command::Command;
use imperium::game::defs::init_world;
use imperium::game::draw_map::{build, DrawCell, Swatch};
use imperium::game::game::{age, is_birthday, name_of, report_death, time_may_flow, Game, START_DAY};
use imperium::game::interaction::{apply, arrival, ChoiceParams, Effect};
use imperium::game::map::{map_text_fits, CellPos};
use imperium::game::tick::{tick, Odds};
use imperium::game::world::{ActivityVerb, Epoch, World};
use imperium::tabula::Value;
use imperium::ui::ir::{Binding, UiData};
use imperium::ui::layout::ElementId;
use imperium::util::rng::Rng;

const TEST_CAST: &str = r#"
    settlement = { id = v name = "Wicstow" }
    settlement = { id = w name = "Hamtun" }
    character = { id = a name = "Alfric" age = 20 tag = player married = b located = v }
    character = { id = b name = "Beorhtgifu" age = 30 located = v }
    character = { id = c name = "Methuselah" age = 95 }
"#;

const TEST_MAP: &str = "
    ~....
    ~v##w
    ~....
    v = v
    w = w
";

/// An age atom read as whole years, the way `f32` parsing and `as u64`
/// read it.
fn whole_years(v: &Value) -> u64 {
    v.text.parse::<f32>().map(|x| x as u64).unwrap_or(0)
}

/// A roll as `f32` arithmetic makes it: the draw's top 24 bits as a
/// fraction of one, against the odds.
fn roll(draw: u64, odds: Odds) -> bool {
    let x = (draw >> 40) as f32 / (1u64 << 24) as f32;
    let p = match odds {
        Odds::Wander => 0.05,
        Odds::Mortality(age) => (age as f32 - 60.0) / 30.0,
    };
    x < p
}

fn world() -> World {
    let mut world = init_world(7);
    world.epoch = Epoch(START_DAY);
    let errors = bootstrap(&mut world, TEST_CAST, TEST_MAP, &whole_years);
    assert!(errors.is_empty(), "{errors:?}");
    world
}

fn game() -> Game {
    Game::with_world(world())
}

fn command(action: &str) -> Command {
    let mut command = Command::default();
    let _ = command.parse(action);
    command
}

fn step(game: &mut Game, command: Command) -> Vec<String> {
    let mut log = Vec::new();
    tick(game, command, &roll, &mut log);
    log
}

fn rest_and_tick_days(game: &mut Game, days: u64) {
    step(game, command("rest"));
    for _ in 0..days {
        step(game, Command::advance_time());
    }
}

fn people(world: &World) -> usize {
    world.ids.iter_alive().into_iter().filter(|&id| world.ids.in_set(id, SetId(1))).count()
}

fn player(world: &World) -> EntityId {
    world.tags.lookup("player").unwrap()
}

#[test]
fn game_time_flows_only_while_the_player_is_occupied() {
    let mut game = game();

    // Fresh game: the player is idle, so the sim declines time.
    step(&mut game, Command::advance_time());
    step(&mut game, Command::advance_time());
    assert_eq!(game.world.epoch, Epoch(START_DAY));

    // Resting occupies the player: days pass.
    step(&mut game, command("rest"));
    step(&mut game, Command::advance_time());
    assert_eq!(game.world.epoch, Epoch(START_DAY + 1));

    // Stopping goes idle again: declined again.
    step(&mut game, command("stop"));
    step(&mut game, Command::advance_time());
    assert_eq!(game.world.epoch, Epoch(START_DAY + 1));
}

#[test]
fn game_the_old_die_on_their_birthdays_and_the_young_do_not() {
    let mut game = game();

    // Methuselah (95) is past certain death; Alfric (20) and Beorhtgifu (30)
    // are below the ramp. One year of days reaches everyone's birthday.
    rest_and_tick_days(&mut game, 360);
    assert_eq!(people(&game.world), 2);
    let player = player(&game.world);
    assert_eq!(age(&game.world, player), 21);
    assert!(!game.world.related(player).is_empty());
}

#[test]
fn game_dead_player_halts_time_for_good() {
    let mut game = game();
    let player = player(&game.world);
    step(&mut game, command("rest"));
    step(&mut game, Command { remove: player, ..Command::default() });

    let epoch = game.world.epoch;
    step(&mut game, Command::advance_time());
    assert_eq!(game.world.epoch, epoch);
    // Commanding the void does nothing.
    step(&mut game, command("rest"));
    step(&mut game, Command::advance_time());
    assert_eq!(game.world.epoch, epoch);
}

fn global(data: &UiData, key: &str) -> String {
    data.globals.iter().find(|g| data.text(g.key) == key).map(|g| data.text(g.value).to_string()).unwrap()
}

fn bound(data: &UiData, bindings: &[Binding], key: &str) -> Option<String> {
    bindings.iter().find(|b| data.text(b.key) == key).map(|b| data.text(b.value).to_string())
}

#[test]
fn game_ui_data_carries_status_date_and_people_rows() {
    let game = game();
    let mut data = UiData::default();
    game.fill_ui_data(&mut data);

    assert_eq!(global(&data, "STATUS"), "3 souls");
    assert_eq!(global(&data, "DATE"), "Day 1 of Month 1, 700 AUC");
    assert_eq!(global(&data, "HAS_PLAYER"), "yes");
    // Idle player: the occupation toggle offers Rest.
    assert_eq!(global(&data, "PLAYER_BUTTON"), "Rest");
    assert_eq!(global(&data, "PLAYER_ACTION"), "rest");

    assert_eq!(data.lists.len(), 1);
    let people_rows = data.rows(data.lists[0]);
    assert_eq!(people_rows.len(), 3);
    let bindings = data.bindings(people_rows[0]);
    assert_eq!(bound(&data, bindings, "NAME").unwrap(), "Alfric");
    assert_eq!(bound(&data, bindings, "AGE").unwrap(), "20");
    assert_eq!(bound(&data, bindings, "ACTIVITY").unwrap(), "");
    // The ID binding round-trips back to the live entity.
    let id = EntityId::parse(&bound(&data, bindings, "ID").unwrap()).unwrap();
    assert_eq!(Some(id), game.world.tags.lookup("player"));
}

#[test]
fn game_commands_round_trip_through_the_action_protocol() {
    let mut game = game();
    let player = player(&game.world);

    // The zero command and garbage are no-ops.
    step(&mut game, Command::default());
    step(&mut game, command("frobnicate 12"));
    step(&mut game, command("remove not-an-id"));
    assert_eq!(game.world.epoch, Epoch(START_DAY));
    assert_eq!(people(&game.world), 3);

    // The exact strings the UI script emits, ids in decimal.
    step(&mut game, command(&format!("remove {}", player.to_string())));
    assert!(!game.world.ids.is_alive(player));
    assert_eq!(people(&game.world), 2);

    // A stale id parses fine and does nothing.
    step(&mut game, command(&format!("remove {}", player.to_string())));
    assert_eq!(people(&game.world), 2);
}

#[test]
fn travel_walks_the_road_and_arrival_halts_time() {
    let mut game = game();
    let player = player(&game.world);
    let vicus = game.entity_at(CellPos { x: 1, y: 1 });
    let wick = game.entity_at(CellPos { x: 4, y: 1 });
    let destination = game.anchor(wick);

    step(&mut game, command(&format!("travel {}", destination.to_string())));
    assert_eq!(game.world.activity(player).verb, ActivityVerb::Travel);

    // One day, one cell: onto the road, out of Wicstow.
    step(&mut game, Command::advance_time());
    assert_eq!(game.world.position(player), CellPos { x: 2, y: 1 });
    assert_eq!(f32::from_bits(game.world.relation(player, RelationId(1), vicus)), 0.0);

    // Two more days reach Hamtun: position on its anchor, LocatedIn
    // mirroring it, the journey resolved back to Idle.
    step(&mut game, Command::advance_time());
    step(&mut game, Command::advance_time());
    assert_eq!(game.world.position(player), destination);
    assert_eq!(f32::from_bits(game.world.relation(player, RelationId(1), wick)), 1.0);
    assert_eq!(game.world.activity(player).verb, ActivityVerb::Idle);

    // Arrived: the gates' interaction is open and time declines.
    assert!(game.interaction.is_some());
    let epoch = game.world.epoch;
    step(&mut game, Command::advance_time());
    assert_eq!(game.world.epoch, epoch);
}

#[test]
fn arrival_screen_names_the_place_its_ruler_and_the_way_on() {
    let game = game();
    let wicstow = game.entity_at(CellPos { x: 1, y: 1 });
    let screen = arrival(&game.world, ChoiceParams { target: wicstow }).unwrap();
    assert_eq!(screen.title, "Wicstow");
    assert_eq!(screen.text, "You arrive at Wicstow. The settlement is ruled by no one.");
    let captions: Vec<&str> = screen.choices.iter().map(|c| c.text.as_str()).collect();
    assert_eq!(captions, ["Seek out company", "Rest a while", "Be on your way"]);
    // Beorhtgifu is there besides the player: company is pickable.
    assert!(screen.choices[0].disabled.is_empty());

    let hamtun = game.entity_at(CellPos { x: 4, y: 1 });
    let empty = arrival(&game.world, ChoiceParams { target: hamtun }).unwrap();
    assert_eq!(empty.choices[0].disabled, "no one of note is here");
}

#[test]
fn picking_company_lists_who_is_there_and_rest_occupies_the_player() {
    let mut game = game();
    let wicstow = game.entity_at(CellPos { x: 1, y: 1 });
    let params = ChoiceParams { target: wicstow };
    let company = apply(Effect::Company, &mut game.world, params).unwrap();
    assert_eq!(company.text, "You find Beorhtgifu here.");
    assert_eq!(company.choices[0].effect, Effect::Arrival);

    assert!(!time_may_flow(&game.world));
    assert!(apply(Effect::RestHere, &mut game.world, params).is_none());
    assert!(time_may_flow(&game.world));
    assert!(apply(Effect::Close, &mut game.world, params).is_none());
}

#[test]
fn an_invalid_pick_leaves_the_interaction_standing() {
    let mut game = game();
    let wick = game.entity_at(CellPos { x: 4, y: 1 });
    game.interaction = arrival(&game.world, ChoiceParams { target: wick });
    // Disabled (no company at Hamtun) and out of range: nothing happens.
    step(&mut game, Command { choose: Some(0), ..Command::default() });
    step(&mut game, Command { choose: Some(9), ..Command::default() });
    assert_eq!(game.interaction.as_ref().unwrap().title, "Hamtun");
    // "Be on your way" closes it.
    step(&mut game, Command { choose: Some(2), ..Command::default() });
    assert!(game.interaction.is_none());
}

#[test]
fn obituaries_name_the_date_and_the_surviving_spouse() {
    let world = world();
    let alfric = player(&world);
    assert_eq!(report_death(&world, alfric), "Day 1 of Month 1, 700 AUC: Alfric has died, survived by Beorhtgifu.");
    let methuselah = world.ids.iter_alive().into_iter().find(|&id| world.names.get(id) == "Methuselah").unwrap();
    assert_eq!(report_death(&world, methuselah), "Day 1 of Month 1, 700 AUC: Methuselah has died.");
}

#[test]
fn bootstrap_reports_bad_references_and_keeps_going() {
    let mut world = init_world(7);
    world.epoch = Epoch(START_DAY);
    let cast = r#"
        settlement = { id = v name = "Wicstow" }
        character = { id = a married = z located = nowhere }
        character = { id = a name = "Twin" }
    "#;
    let errors = bootstrap(&mut world, cast, "\n    ~v.\n    v = v\n", &whole_years);
    assert_eq!(
        errors,
        [
            "data/characters.txt: duplicate id 'a'",
            "data/characters.txt: 'a' married unknown id 'z'",
            "data/characters.txt: 'a' located unknown id 'nowhere'",
        ]
    );
    assert_eq!(people(&world), 2);
}

#[test]
fn wandering_and_rolls_follow_the_keyed_generator() {
    // The same key gives the same generator; another turn another one.
    assert_eq!(Rng::at(7, 1, 42), Rng::at(7, 1, 42));
    assert_ne!(Rng::at(7, 1, 42), Rng::at(7, 2, 42));
    let mut a = Rng::at(7, 1, 42);
    let mut b = Rng::at(7, 1, 42);
    assert_eq!(a.next_u64(), b.next_u64());
}

#[test]
fn ui_bindings_read_back_what_was_bound() {
    let mut data = UiData::default();
    data.bind_global("TITLE", "Imperium");
    data.begin_list("rows");
    data.begin_row();
    data.bind("NAME", "Römer");
    data.bind("AGE", "41");
    data.begin_row();
    data.bind_global("LATE", "fine");
    assert_eq!(data.lists.len(), 1);
    let rows = data.rows(data.lists[0]);
    assert_eq!(rows.len(), 2);
    let first = data.bindings(rows[0]);
    assert_eq!(bound(&data, first, "NAME").unwrap(), "Römer");
    assert_eq!(bound(&data, first, "AGE").unwrap(), "41");
    assert!(data.bindings(rows[1]).is_empty());
    assert_eq!(global(&data, "LATE"), "fine");
    assert_eq!(data.text(data.lists[0].id), "rows");
    data.clear();
    assert!(data.lists.is_empty() && data.globals.is_empty() && data.strings.is_empty());
}

#[test]
fn element_ids_hash_names_with_fnv1a_and_indices_apart() {
    assert_eq!(ElementId::named("").0, 0xcbf2_9ce4_8422_2325);
    assert_eq!(ElementId::named("a").0, 0xaf63_dc4c_8601_ec8c);
    assert_eq!(ElementId::named("row"), ElementId::named("row"));
    assert_ne!(ElementId::indexed("row", 0), ElementId::indexed("row", 1));
    assert_ne!(ElementId::indexed("row", 0), ElementId::named("row"));
    assert_eq!(ElementId::indexed("row", 3), ElementId::named("row").child(3));
}

#[test]
fn the_drawn_map_fills_terrain_and_dots_only_travellers_on_roads() {
    let mut game = game();
    let map = build(&game.world);
    assert_eq!((map.width, map.height), (5, 3));
    assert_eq!(map.cells.len(), 15);
    let at = |m: &imperium::game::draw_map::DrawMap, x: usize, y: usize| m.cells[y * m.width as usize + x];
    assert_eq!(at(&map, 0, 0), DrawCell { fill: Swatch::Sea, dot: Swatch::Clear });
    assert_eq!(at(&map, 1, 0), DrawCell { fill: Swatch::Wild, dot: Swatch::Clear });
    // Everyone starts in a settlement or nowhere: no dots anywhere.
    assert_eq!(at(&map, 1, 1), DrawCell { fill: Swatch::Settlement, dot: Swatch::Clear });
    assert_eq!(at(&map, 2, 1), DrawCell { fill: Swatch::Road, dot: Swatch::Clear });
    assert!(map.cells.iter().all(|c| c.dot == Swatch::Clear));

    // The player sets out; a day later the player's dot is on the road.
    let wick = game.entity_at(CellPos { x: 4, y: 1 });
    let destination = game.anchor(wick);
    step(&mut game, command(&format!("travel {}", destination.to_string())));
    step(&mut game, Command::advance_time());
    let map = build(&game.world);
    assert_eq!(at(&map, 2, 1), DrawCell { fill: Swatch::Road, dot: Swatch::Player });
    assert_eq!(map.cells.iter().filter(|c| c.dot != Swatch::Clear).count(), 1);
}

fn doom(_draw: u64, odds: Odds) -> bool {
    matches!(odds, Odds::Mortality(_))
}

#[test]
fn nobody_dies_off_their_birthday_even_when_every_roll_says_die() {
    let mut game = game();
    step(&mut game, command("rest"));
    let mut log = Vec::new();
    // The cast was born on this calendar day: the next 359 days are no one's
    // birthday, so the doomed dice find nobody to take.
    for _ in 0..359 {
        tick(&mut game, Command::advance_time(), &doom, &mut log);
    }
    assert_eq!(people(&game.world), 3);
    assert!(log.iter().all(|line| !line.contains("died")), "{log:?}");

    // The birthday itself: every person rolls, and the doomed dice take
    // them all, young and old.
    let before = game.world.ids.iter_alive();
    tick(&mut game, Command::advance_time(), &doom, &mut log);
    assert_eq!(people(&game.world), 0);
    for id in before {
        if !game.world.ids.is_alive(id) {
            assert!(is_birthday(&game.world, id));
        }
    }
}

#[test]
fn an_open_interaction_or_an_idle_player_declines_time_and_an_occupied_one_takes_it() {
    let mut game = game();
    // Idle: declined.
    step(&mut game, Command::advance_time());
    assert_eq!(game.world.epoch, Epoch(START_DAY));
    // Occupied, nothing open, nothing marked: the day passes.
    step(&mut game, command("rest"));
    assert!(time_may_flow(&game.world));
    step(&mut game, Command::advance_time());
    assert_eq!(game.world.epoch, Epoch(START_DAY + 1));
}

#[test]
fn bootstrap_reports_syntax_errors_first_with_their_place() {
    let mut world = init_world(7);
    world.epoch = Epoch(START_DAY);
    let cast = "settlement = { id = v name = \"Wicstow\" }\ncharacter = { id = a } }\n";
    let errors = bootstrap(&mut world, cast, "\n    ~v.\n    v = v\n", &whole_years);
    assert_eq!(errors, ["data/characters.txt: 2:24: unexpected '}'"]);
    assert_eq!(people(&world), 1);
}

fn never(_draw: u64, _odds: Odds) -> bool {
    false
}

#[test]
fn only_travellers_move_in_a_day() {
    let mut game = game();
    let mut log = Vec::new();
    let before: Vec<(EntityId, CellPos)> =
        game.world.ids.iter_alive().into_iter().map(|id| (id, game.world.position(id))).collect();
    // Nobody travels and the dice never send anyone off: a resting day
    // moves no one.
    tick(&mut game, command("rest"), &never, &mut log);
    tick(&mut game, Command::advance_time(), &never, &mut log);
    assert_eq!(game.world.epoch, Epoch(START_DAY + 1));
    for (id, pos) in before {
        assert_eq!(game.world.position(id), pos);
        // Without a wander roll coming up, no one sets out either.
        assert_ne!(game.world.activity(id).verb, ActivityVerb::Travel);
    }
}

#[test]
fn bootstrap_names_everyone_and_files_them_in_their_sets() {
    let mut world = init_world(7);
    world.epoch = Epoch(START_DAY);
    let cast = "settlement = { id = v }\ncharacter = { id = a name = \"Alfric\" }\ncharacter = { id = b }\n";
    let errors = bootstrap(&mut world, cast, "\n    ~v.\n    v = v\n", &whole_years);
    assert!(errors.is_empty(), "{errors:?}");
    let mut names: Vec<(String, bool, bool)> = world
        .ids
        .iter_alive()
        .into_iter()
        .map(|id| (name_of(&world, id).to_string(), world.ids.in_set(id, SetId(1)), world.ids.in_set(id, SetId(2))))
        .collect();
    names.sort();
    assert_eq!(
        names,
        vec![
            ("Alfric".to_string(), true, false),
            ("Anonymous".to_string(), true, false),
            ("Nowhere".to_string(), false, true),
        ]
    );
}

#[test]
fn bootstrap_records_the_links_the_data_names_and_places_people_at_anchors() {
    let world = world();
    let a = player(&world);
    let links = world.state.relations.get_related(&world.ids, a);
    let married: Vec<_> = links.iter().filter(|e| e.relation == RelationId(0)).collect();
    assert_eq!(married.len(), 1);
    assert_eq!(name_of(&world, married[0].target), "Beorhtgifu");
    assert_eq!(married[0].value, 0x3F80_0000);
    let located: Vec<_> = links.iter().filter(|e| e.relation == RelationId(1)).collect();
    assert_eq!(located.len(), 1);
    let v = located[0].target;
    assert_eq!(name_of(&world, v), "Wicstow");
    assert_eq!(world.position(a), world.map.anchor(v));
    assert_eq!(world.position(a), CellPos { x: 1, y: 1 });
    // Methuselah names no one and is placed nowhere.
    let c = world
        .ids
        .iter_alive()
        .into_iter()
        .find(|&id| name_of(&world, id) == "Methuselah")
        .unwrap();
    assert!(world.state.relations.get_related(&world.ids, c).is_empty());
    assert_eq!(world.position(c), CellPos::default());
}

#[test]
fn the_checks_before_bootstrap_take_the_test_data_and_refuse_a_map_cut_mid_character() {
    let mut world = init_world(7);
    world.epoch = Epoch(START_DAY);
    assert!(map_text_fits(TEST_MAP));
    assert!(map_text_fits(""));
    assert!(cast_fits(&world, TEST_CAST, TEST_MAP));
    // A no-break space is two bytes: cutting the one-byte common indent
    // would split it.
    let bad = "\u{a0}..\n ..\n";
    assert!(!map_text_fits(bad));
    assert!(!cast_fits(&world, TEST_CAST, bad));
}
