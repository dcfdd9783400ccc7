use textworld::components::{Description, Storage};
use textworld::map::WorldMap;
use textworld::systems::{InventorySystem, MovementSystem};
use textworld::world::{get_entities_in_storage, get_entity_room_id, get_room_entities, World};

fn desc(glance: &str, text: &str) -> Description {
    Description { description: text.to_string(), glance: glance.to_string(), name: None }
}

#[test]
fn pickup_moves_item_from_room_into_storage() {
    let mut world = World::new();
    let key = world.create_entity();
    world.set_description(key, desc("key", "A small key"));
    world.set_in_room(key, 5);
    world.set_item(key);
    let player = world.create_entity();
    world.set_in_room(player, 5);
    world.set_storage(player, Storage::new());
    world.set_change(key, None, Some(player));

    let (msgs, fatal) = InventorySystem::run(&mut world);
    assert!(msgs.is_empty());
    assert!(!fatal);
    assert_eq!(world.get_in_room(key), None);
    assert_eq!(world.storage_items(player).unwrap(), &vec![key]);
    assert_eq!(world.get_change(key), None);
}

#[test]
fn get_then_drop_restores_the_original_room() {
    let mut world = World::new();
    let key = world.create_entity();
    world.set_description(key, desc("key", "A small key"));
    world.set_in_room(key, 5);
    world.set_item(key);
    let player = world.create_entity();
    world.set_in_room(player, 5);
    world.set_storage(player, Storage::new());

    world.set_change(key, None, Some(player));
    let (_, fatal) = InventorySystem::run(&mut world);
    assert!(!fatal);

    world.set_change(key, Some(player), None);
    let (msgs, fatal) = InventorySystem::run(&mut world);
    assert!(msgs.is_empty());
    assert!(!fatal);
    assert_eq!(world.get_in_room(key), Some(5));
    assert!(world.storage_items(player).unwrap().is_empty());
}

#[test]
fn transfer_without_storage_aborts_the_batch() {
    let mut world = World::new();
    let gem = world.create_entity();
    world.set_description(gem, desc("gem", "A shiny gem"));
    world.set_item(gem);
    let box_ = world.create_entity();
    world.set_description(box_, desc("box", "A wooden box"));
    world.set_in_room(box_, 1);
    let crate_ = world.create_entity();
    world.set_description(crate_, desc("crate", "A big crate"));
    world.set_in_room(crate_, 1);
    let coin = world.create_entity();
    world.set_description(coin, desc("coin", "A copper coin"));
    world.set_item(coin);
    let chest = world.create_entity();
    world.set_description(chest, desc("chest", "A chest"));
    world.set_in_room(chest, 1);
    world.set_storage(chest, Storage::new());
    world.set_storage(box_, Storage { items: vec![gem, coin] });

    // the crate has no storage: the first transfer fails and the second,
    // although well-formed, is left unprocessed
    world.set_change(gem, Some(box_), Some(crate_));
    world.set_change(coin, Some(box_), Some(chest));
    let (msgs, fatal) = InventorySystem::run(&mut world);
    assert_eq!(
        msgs,
        vec![
            "Error: Failed to move item 0 between containers because one or both containers are missing the Storage component."
                .to_string(),
        ]
    );
    assert!(!fatal);
    assert_eq!(world.storage_items(box_).unwrap(), &vec![gem, coin]);
    assert!(world.storage_items(chest).unwrap().is_empty());
    // both intents are cleared regardless
    assert_eq!(world.get_change(gem), None);
    assert_eq!(world.get_change(coin), None);
}

#[test]
fn picking_up_an_unplaced_entity_is_fatal() {
    let mut world = World::new();
    let pouch = world.create_entity();
    world.set_description(pouch, desc("pouch", "A pouch"));
    world.set_in_room(pouch, 2);
    let bead = world.create_entity();
    world.set_description(bead, desc("bead", "A glass bead"));
    world.set_item(bead);
    let player = world.create_entity();
    world.set_in_room(player, 2);
    world.set_storage(player, Storage::new());
    world.set_storage(pouch, Storage { items: vec![bead] });

    // the bead sits inside the pouch, not in any room
    world.set_change(bead, None, Some(player));
    let (msgs, fatal) = InventorySystem::run(&mut world);
    assert!(fatal);
    assert_eq!(
        msgs,
        vec!["Error: Failed to pick up item 1 because it is not attached to a room.".to_string()]
    );
    assert_eq!(world.storage_items(pouch).unwrap(), &vec![bead]);
    assert_eq!(world.get_change(bead), None);
}

#[test]
fn resolution_prefers_the_smallest_entity_id() {
    let mut world = World::new();
    let first = world.create_entity();
    world.set_description(first, desc("robot pirate", "The first robot"));
    world.set_in_room(first, 3);
    let second = world.create_entity();
    world.set_description(second, desc("robot pirate", "The second robot"));
    world.set_in_room(second, 3);
    let actor = world.create_entity();
    world.set_in_room(actor, 3);
    world.set_storage(actor, Storage::new());

    assert_eq!(world.resolve_in_scope(actor, "robot"), Some(first));
    assert_eq!(world.resolve_in_scope(actor, "robot pirate"), Some(first));
    assert_eq!(world.resolve_in_scope(actor, "parrot"), None);
}

#[test]
fn container_resolution_goes_by_id_not_list_order() {
    let mut world = World::new();
    let early = world.create_entity();
    world.set_description(early, desc("coin of gold", "A gold coin"));
    let late = world.create_entity();
    world.set_description(late, desc("coin of silver", "A silver coin"));
    let chest = world.create_entity();
    world.set_in_room(chest, 0);
    // the later-created coin sits first in the list
    world.set_storage(chest, Storage { items: vec![late, early] });

    assert_eq!(world.resolve_in_container(chest, "coin"), Some(early));
    assert_eq!(world.resolve_in_container(chest, "coin of s"), Some(late));
    assert_eq!(world.resolve_in_container(early, "coin"), None);
}

#[test]
fn movement_announces_the_last_mover_destination() {
    let mut map = WorldMap::new();
    let room_a = map.create_room("Room A");
    let room_b = map.create_room("Room B");
    let room_c = map.create_room("Room C");
    let (a, b, c) = (room_a.id(), room_b.id(), room_c.id());
    map.insert_room(room_a);
    map.insert_room(room_b);
    map.insert_room(room_c);

    let mut world = World::new();
    let walker = world.create_entity();
    world.set_in_room(walker, a);
    let runner = world.create_entity();
    world.set_in_room(runner, a);
    world.set_move(walker, b);
    world.set_move(runner, c);

    let out = MovementSystem::run(&mut world, &map);
    assert_eq!(out, Some("Room C".to_string()));
    assert_eq!(world.get_in_room(walker), Some(b));
    assert_eq!(world.get_in_room(runner), Some(c));
    assert_eq!(world.get_move(walker), None);
    assert_eq!(world.get_move(runner), None);
}

#[test]
fn movement_without_movers_stays_silent() {
    let mut map = WorldMap::new();
    let room_a = map.create_room("Room A");
    map.insert_room(room_a);
    let mut world = World::new();
    let idler = world.create_entity();
    world.set_in_room(idler, 0);
    let out = MovementSystem::run(&mut world, &map);
    assert_eq!(out, None);
    assert_eq!(world.get_in_room(idler), Some(0));
}

#[test]
fn placement_helpers_report_rooms_and_contents() {
    let mut world = World::new();
    let stone = world.create_entity();
    world.set_in_room(stone, 4);
    let bag = world.create_entity();
    world.set_in_room(bag, 4);
    let marble = world.create_entity();
    world.set_description(marble, desc("marble", "A marble"));
    world.set_storage(bag, Storage { items: vec![marble] });

    assert_eq!(get_entity_room_id(stone, &world), Some(4));
    assert_eq!(get_entity_room_id(marble, &world), None);
    assert_eq!(get_room_entities(4, &world), vec![stone, bag]);
    assert_eq!(get_room_entities(9, &world), Vec::<usize>::new());
    assert_eq!(get_entities_in_storage(bag, &world), Some(vec![marble]));
    assert_eq!(get_entities_in_storage(stone, &world), None);
}
