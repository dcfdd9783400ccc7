use textworld::components::{Description, Storage};
use textworld::game::{Game, RunState};
use textworld::manual_map::generate_map;
use textworld::map::{ExitDirection, WorldMap};
use textworld::world::World;

fn desc(glance: &str, text: &str) -> Description {
    Description { description: text.to_string(), glance: glance.to_string(), name: None }
}

#[test]
fn new_game_starts_before_the_first_turn() {
    let g = Game::new();
    assert_eq!(g.run_state(), RunState::PreRun);
    assert_eq!(g.player(), 3);
    assert_eq!(g.player_room_id(), 0);
    assert_eq!(g.world().num_entities(), 4);
}

#[test]
fn moving_next_lands_in_the_second_room() {
    let mut g = Game::new();
    let (_, fatal) = g.tick(None);
    assert!(!fatal);
    assert_eq!(g.run_state(), RunState::AwaitingInput);

    let (out, fatal) = g.tick(Some("next"));
    assert!(!fatal);
    assert_eq!(out, vec!["=============== input  tick ===============".to_string()]);
    assert_eq!(g.run_state(), RunState::PlayerTurn);
    // the move is only an intent so far
    assert_eq!(g.player_room_id(), 0);

    let (out, fatal) = g.tick(None);
    assert!(!fatal);
    assert_eq!(g.player_room_id(), 1);
    assert!(out.iter().any(|s| s == "This is the second room"));
    assert_eq!(g.run_state(), RunState::NpcTurn);

    let (_, _) = g.tick(None);
    assert_eq!(g.run_state(), RunState::AwaitingInput);

    // and back again
    let (_, _) = g.tick(Some("prev"));
    let (out, _) = g.tick(None);
    assert_eq!(g.player_room_id(), 0);
    assert!(out.iter().any(|s| s.starts_with("This is the first room")));
}

#[test]
fn moving_past_the_last_room_is_reported() {
    let mut g = Game::new();
    g.tick(None);
    let (out, _) = g.tick(Some("prev"));
    assert_eq!(out[1], "Already at the first room!");
    assert_eq!(g.run_state(), RunState::AwaitingInput);
    assert_eq!(g.player_room_id(), 0);
}

#[test]
fn look_lists_colocated_glances() {
    let mut g = Game::new();
    g.tick(None);
    let (out, _) = g.tick(Some("look"));
    assert_eq!(out[1], "This is the first room\n===\nYou see a table, a cabinet, and an oboe.");
    assert_eq!(g.run_state(), RunState::AwaitingInput);
}

#[test]
fn look_at_prints_the_long_description() {
    let mut g = Game::new();
    g.tick(None);
    let (out, _) = g.tick(Some("look at table"));
    assert_eq!(out[1], "It looks like a sturdy table!");
    let (out, _) = g.tick(Some("look at dragon"));
    assert_eq!(out[1], "Could not find \"dragon\"");
    let (out, _) = g.tick(Some("xyzzy"));
    assert_eq!(out[1], "No such command!");
}

#[test]
fn help_prints_the_actions() {
    let mut g = Game::new();
    g.tick(None);
    let (out, _) = g.tick(Some("help"));
    assert_eq!(
        out[1],
        "Available actions:\nnext          Go to the next room\nprev          Go to the previous room\nlook          Describe the current room\nlook at ____  Describe an object by name"
    );
}

#[test]
fn get_put_and_drop_cycle_through_the_cabinet() {
    let mut g = Game::new();
    g.tick(None);

    // pick the oboe up from the room
    g.tick(Some("get oboe"));
    assert_eq!(g.run_state(), RunState::PlayerTurn);
    g.tick(None);
    g.tick(None);
    assert_eq!(g.world().storage_items(3).unwrap(), &vec![2]);
    assert_eq!(g.world().get_in_room(2), None);

    let (out, _) = g.tick(Some("inv"));
    assert_eq!(out[1], "Your inventory -----");
    assert_eq!(out[2], "- oboe");

    // stow it in the cabinet
    g.tick(Some("put oboe in cabinet"));
    g.tick(None);
    g.tick(None);
    assert_eq!(g.world().storage_items(1).unwrap(), &vec![2]);

    let (out, _) = g.tick(Some("look in cabinet"));
    assert_eq!(out[1], "cabinet inventory -----");
    assert_eq!(out[2], "- oboe");

    let (out, _) = g.tick(Some("inv"));
    assert_eq!(out[1], "Your inventory is empty!");

    // take it back out and drop it
    g.tick(Some("get oboe from cabinet"));
    g.tick(None);
    g.tick(None);
    let (out, _) = g.tick(Some("look in cabinet"));
    assert_eq!(out[1], "The cabinet is empty");

    g.tick(Some("drop oboe"));
    g.tick(None);
    g.tick(None);
    assert_eq!(g.world().get_in_room(2), Some(0));
    assert!(g.world().storage_items(3).unwrap().is_empty());
}

#[test]
fn get_with_no_match_keeps_the_turn_open() {
    let mut g = Game::new();
    g.tick(None);
    let (out, _) = g.tick(Some("get dragon"));
    assert_eq!(out[1], "Not able to pickup \"dragon\"");
    assert_eq!(g.run_state(), RunState::AwaitingInput);
}

#[test]
fn table_cannot_store_items() {
    let mut g = Game::new();
    g.tick(None);
    g.tick(Some("get oboe"));
    g.tick(None);
    g.tick(None);
    let (out, _) = g.tick(Some("put oboe in table"));
    assert_eq!(out[1], "table cannot store items");
    assert_eq!(g.run_state(), RunState::AwaitingInput);
    let (out, _) = g.tick(Some("look in table"));
    assert_eq!(out[1], "You can't store items in table!");
}

#[test]
fn awaiting_input_without_a_line_stays_put() {
    let mut g = Game::new();
    g.tick(None);
    let (out, fatal) = g.tick(None);
    assert!(!fatal);
    assert_eq!(out, vec!["=============== input  tick ===============".to_string()]);
    assert_eq!(g.run_state(), RunState::AwaitingInput);
}

#[test]
fn get_key_from_bin_empties_the_bin() {
    // Room B holds a storage-bearing bin with a key inside
    let mut world = World::new();
    let bin = world.create_entity();
    world.set_description(bin, desc("bin", "A lost-and-found bin"));
    world.set_in_room(bin, 0);
    let key = world.create_entity();
    world.set_description(key, desc("key", "A bin key"));
    world.set_item(key);
    world.set_storage(bin, Storage { items: vec![key] });
    let player = world.create_entity();
    world.set_player(player);
    world.set_in_room(player, 0);
    world.set_storage(player, Storage::new());

    let mut map = WorldMap::new();
    let room_b = map.create_room("Room B");
    map.set_spawn(room_b.id());
    map.insert_room(room_b);

    let mut g = Game::from_world(world, map, player).unwrap();
    g.tick(None);
    let (_, fatal) = g.tick(Some("get key from bin"));
    assert!(!fatal);
    assert_eq!(g.run_state(), RunState::PlayerTurn);
    let (_, fatal) = g.tick(None);
    assert!(!fatal);
    assert!(g.world().storage_items(bin).unwrap().is_empty());
    assert_eq!(g.world().storage_items(player).unwrap(), &vec![key]);
    g.tick(None);
    let (out, _) = g.tick(Some("look in bin"));
    assert_eq!(out[1], "The bin is empty");
}

#[test]
fn locked_gate_blocks_and_reports() {
    let mut map = WorldMap::new();
    let mut cell = map.create_room("A bare cell");
    let yard = map.create_room("The yard");
    let door = yard.as_gate_locked("A locked door", vec![]);
    cell.add_exit(ExitDirection::Next, door);
    map.set_spawn(cell.id());
    map.insert_room(cell);
    map.insert_room(yard);

    let mut world = World::new();
    let player = world.create_entity();
    world.set_player(player);
    world.set_in_room(player, 0);
    world.set_storage(player, Storage::new());

    let mut g = Game::from_world(world, map, player).unwrap();
    g.tick(None);
    let (out, fatal) = g.tick(Some("next"));
    assert!(!fatal);
    assert_eq!(out[1], "That path is locked!");
    assert_eq!(g.run_state(), RunState::AwaitingInput);
    assert_eq!(g.player_room_id(), 0);
}

#[test]
fn from_world_rejects_an_unplaced_player() {
    let mut map = WorldMap::new();
    let room = map.create_room("A room");
    map.set_spawn(room.id());
    map.insert_room(room);

    let mut world = World::new();
    let player = world.create_entity();
    world.set_player(player);
    world.set_in_room(player, 0);
    // no storage on the player
    assert!(Game::from_world(world, map, player).is_none());
}

#[test]
fn from_world_rejects_rooms_outside_the_map() {
    let mut map = WorldMap::new();
    let room = map.create_room("A room");
    map.set_spawn(room.id());
    map.insert_room(room);

    let mut world = World::new();
    let player = world.create_entity();
    world.set_player(player);
    world.set_in_room(player, 9);
    world.set_storage(player, Storage::new());
    assert!(Game::from_world(world, map, player).is_none());
}

#[test]
fn sample_world_keeps_the_keycard_in_the_bin() {
    let mut world = World::new();
    let map = generate_map(&mut world);
    assert_eq!(map.spawn(), 4);
    assert!(map.contains_room(4));
    assert!(map.contains_room(5));
    assert!(!map.contains_room(0));
    assert_eq!(world.num_entities(), 7);
    assert_eq!(world.storage_items(3).unwrap(), &vec![2]);
    assert_eq!(world.get_in_room(2), None);
    assert_eq!(world.resolve_in_container(3, "blue"), Some(2));
    // the sample cars are not part of the returned map, so the sample world
    // does not validate against it
    let player = 0;
    assert!(Game::from_world(world, map, player).is_none());
}

#[test]
fn create_player_spawns_at_the_spawn_point() {
    let mut g = Game::new();
    let id = g.create_player();
    assert_eq!(id, 4);
    assert_eq!(g.world().num_entities(), 5);
    assert_eq!(g.world().get_in_room(id), Some(0));
    // the acting player is unchanged
    assert_eq!(g.player(), 3);
}

#[test]
fn look_at_finds_carried_objects_too() {
    let mut g = Game::new();
    g.tick(None);
    g.tick(Some("get oboe"));
    g.tick(None);
    g.tick(None);
    // the oboe left the room, but the player's own storage is in scope
    let (out, _) = g.tick(Some("look at oboe"));
    assert_eq!(out[1], "A double reed woodwind instrument.");
}

#[test]
fn only_marked_items_can_be_picked_up() {
    let mut g = Game::new();
    g.tick(None);
    // the table stands in the room but carries no item marker
    let (out, _) = g.tick(Some("get table"));
    assert_eq!(out[1], "Not able to pickup \"table\"");
    assert_eq!(g.run_state(), RunState::AwaitingInput);
}

#[test]
fn container_listing_keeps_insertion_order() {
    let mut world = World::new();
    let bin = world.create_entity();
    world.set_description(bin, desc("bin", "A bin"));
    world.set_in_room(bin, 0);
    let coin = world.create_entity();
    world.set_description(coin, desc("coin", "A coin"));
    let pearl = world.create_entity();
    world.set_description(pearl, desc("pearl", "A pearl"));
    world.set_storage(bin, Storage { items: vec![pearl, coin] });
    let player = world.create_entity();
    world.set_player(player);
    world.set_in_room(player, 0);
    world.set_storage(player, Storage::new());

    let mut map = WorldMap::new();
    let room = map.create_room("A room");
    map.set_spawn(room.id());
    map.insert_room(room);

    let mut g = Game::from_world(world, map, player).unwrap();
    g.tick(None);
    let (out, _) = g.tick(Some("look in bin"));
    assert_eq!(out[1], "bin inventory -----");
    assert_eq!(out[2], "- pearl");
    assert_eq!(out[3], "- coin");
}

#[test]
fn component_constructors_start_empty() {
    let d = Description::new();
    assert_eq!(d.description, "");
    assert_eq!(d.glance, "");
    assert!(d.name.is_none());
    let s = Storage::new();
    assert!(s.items.is_empty());
}
