//! A hand-written sample world: themed train cars with NPCs, a locked door,
//! a keycard, and a lost-and-found bin holding it.  The four themed cars
//! are wired up but kept aside; only the plain starter pair is put into the
//! returned map, with the first of them as the spawn.

use vstd::prelude::*;
use vstd::string::*;
use crate::components::{Description, Entity, Storage};
use crate::map::{ExitDirection, WorldMap};
use crate::world::World;

verus! {

/// Populates a fresh world with the sample entities and returns the map.
pub fn generate_map(world: &mut World) -> (m: WorldMap)
    requires
        old(world)@.wf(),
        old(world)@.n() == 0,
    ensures
        m@.wf(),
        m@.closed(),
        m@.spawn == Some(4u64),
        m@.contains_room(4) && m@.contains_room(5),
        m@.spec_room(4).next_gate is Some && m@.spec_room(4).next_gate->0.to == 5
            && !m@.spec_room(4).next_gate->0.is_locked,
        m@.spec_room(5).previous_gate is Some && m@.spec_room(5).previous_gate->0.to == 4,
        final(world)@.wf(),
        final(world)@.n() == 7,
        final(world)@.location_exclusive(),
        final(world)@.stored_described(),
        final(world)@.changes_valid(),
        forall|e: Entity|
            e < 7 ==> !(#[trigger] final(world)@.has_move(e)) && !final(world)@.has_change(e),
        forall|e: Entity| e < 7 && e != 2 ==> #[trigger] final(world)@.has_in_room(e),
        forall|e: Entity| e < 7 ==> #[trigger] final(world)@.has_desc(e),
        final(world)@.is_npc(0) && final(world)@.room_of(0) == 0 && final(world)@.glance_of(0)
            == "receptionist"@,
        final(world)@.is_npc(1) && final(world)@.room_of(1) == 0 && final(world)@.glance_of(1)
            == "old man"@,
        final(world)@.is_item(2) && !final(world)@.has_in_room(2) && final(world)@.glance_of(2)
            == "blue keycard"@,
        final(world)@.has_storage(3) && final(world)@.storage_of(3) == seq![2usize],
        final(world)@.stored_in(3, 2),
        final(world)@.room_of(3) == 0 && final(world)@.glance_of(3) == "bin"@,
        forall|e: Entity|
            4 <= e < 7 ==> (#[trigger] final(world)@.is_npc(e)) && final(world)@.room_of(e) == 1
                && final(world)@.glance_of(e) == "robot pirate"@,
{
    let mut map = WorldMap::new();

    let mut room0 = map.create_room(
        "A train car, transformed into a luxurious atrium either by experienced interior designers or story-wizards. The lush carpet pads the footfalls of everyone in the room.",
    );
    let mut room1 = map.create_room("A martini lounge.");
    let mut room2 = map.create_room(
        "Some kind of jazz club. Low lighting, light jazz music without an origin, and a small stage to the side for performances. There seems to be a lack of audience tho..",
    );
    let room3 = map.create_room(
        "A mostly empty storage railcar. A lanky figure with pale blue skin and dark orange hair is anxiously pacing the room.",
    );

    let g01 = room1.as_gate("Hallway leading to the next train car");
    room0.add_exit(ExitDirection::Next, g01);
    let g10 = room0.as_gate("Hallway leading to the previous train car");
    room1.add_exit(ExitDirection::Previous, g10);
    let g12 = room2.as_gate("Curved doorway to the next train car");
    room1.add_exit(ExitDirection::Next, g12);
    let g21 = room1.as_gate("Curved doorway to the previous train car");
    room2.add_exit(ExitDirection::Previous, g21);
    let g23 = room3.as_gate_locked("A locked door with a card-reader slot", Vec::new());
    room2.add_exit(ExitDirection::Next, g23);

    let receptionist = world.create_entity();
    world.set_in_room(receptionist, room0.id());
    world.set_npc(receptionist);
    world.set_description(
        receptionist,
        Description {
            name: Some(String::from_str("Clarice Nimpton")),
            glance: String::from_str("receptionist"),
            description: String::from_str("An ogrodon female welcoming all new-comers"),
        },
    );

    let passed_out_old_man = world.create_entity();
    world.set_in_room(passed_out_old_man, room0.id());
    world.set_npc(passed_out_old_man);
    world.set_description(
        passed_out_old_man,
        Description {
            name: Some(String::from_str("Mflel Bgargar")),
            glance: String::from_str("old man"),
            description: String::from_str("An elderly man passed out in a chair"),
        },
    );

    let room3_key = world.create_entity();
    world.set_item(room3_key);
    world.set_description(
        room3_key,
        Description {
            name: None,
            glance: String::from_str("blue keycard"),
            description: String::from_str(
                "A semi-translucent blue keycard with engraved letters \"C-4\" in the corner",
            ),
        },
    );
    room2.add_key_to_exit(ExitDirection::Next, room3_key);

    let room0_bin = world.create_entity();
    world.set_in_room(room0_bin, room0.id());
    world.set_description(
        room0_bin,
        Description {
            name: None,
            glance: String::from_str("bin"),
            description: String::from_str(
                "A plastic bin along the wall with a label: \"Lost & Found\"",
            ),
        },
    );
    let mut bin_items: Vec<Entity> = Vec::new();
    bin_items.push(room3_key);
    proof {
        assert(bin_items@ =~= seq![2usize]);
    }
    world.set_storage(room0_bin, Storage { items: bin_items });

    let robot_a = world.create_entity();
    world.set_npc(robot_a);
    world.set_in_room(robot_a, room1.id());
    world.set_description(
        robot_a,
        Description {
            name: Some(String::from_str("1-L3GG3D-J03")),
            glance: String::from_str("robot pirate"),
            description: String::from_str(
                "A decommissioned kitchen droid equipped with a buccaneer's hat",
            ),
        },
    );
    let robot_b = world.create_entity();
    world.set_npc(robot_b);
    world.set_in_room(robot_b, room1.id());
    world.set_description(
        robot_b,
        Description {
            name: Some(String::from_str("2-F1NG3RD-B0B")),
            glance: String::from_str("robot pirate"),
            description: String::from_str(
                "A decommissioned kitchen droid equipped with a buccaneer's hat",
            ),
        },
    );
    let robot_c = world.create_entity();
    world.set_npc(robot_c);
    world.set_in_room(robot_c, room1.id());
    world.set_description(
        robot_c,
        Description {
            name: Some(String::from_str("B1RD-3Y3-B1LLY")),
            glance: String::from_str("robot pirate"),
            description: String::from_str(
                "A decommissioned kitchen droid equipped with a buccaneer's hat",
            ),
        },
    );

    let mut first_room = map.create_room("This is the first room");
    let mut second_room = map.create_room("This is the second room");
    let back_gate = first_room.as_gate("Hallway leading to the previous train car.");
    second_room.add_exit(ExitDirection::Previous, back_gate);
    let fwd_gate = second_room.as_gate("Hallway leading to the next train car.");
    first_room.add_exit(ExitDirection::Next, fwd_gate);

    map.set_spawn(first_room.id());
    map.insert_room(first_room);
    map.insert_room(second_room);

    proof {
        assert forall|id: u64| #[trigger] map@.contains_room(id) implies (id == 4 || id == 5) by {}
        assert forall|id: u64| #[trigger] map@.contains_room(id) implies
            crate::map::room_gates_ok(map@, map@.spec_room(id)) by {
            assert(id == 4 || id == 5);
        }

        let w = world@;
        assert(w.n() == 7);
        assert forall|c: Entity, x: Entity| c < w.n() implies ((#[trigger] w.stored_in(c, x)) <==> (
        c == 3 && x == 2)) by {
            if c == 3 {
                assert(w.storage_of(3) == seq![2usize]);
                if w.storage_of(3).contains(x) {
                    let j = choose|j: int| 0 <= j < w.storage_of(3).len() && w.storage_of(3)[j]
                        == x;
                    assert(x == 2);
                }
                assert(w.storage_of(3)[0] == 2usize);
            }
        }
        assert forall|x: Entity|
            x < w.n() implies ((#[trigger] w.has_in_room(x)) <==> !w.in_some_storage(x)) by {
            if x == 2 {
                assert(w.stored_in(3, 2));
                assert(w.in_some_storage(2));
                assert(w.in_rooms[2] is None);
            } else {
                assert(w.in_rooms[x as int] is Some);
                if w.in_some_storage(x) {
                    let c = choose|c: Entity| c < w.n() && #[trigger] w.stored_in(c, x);
                    assert(c == 3 && x == 2);
                }
            }
        }
        assert forall|c1: Entity, c2: Entity, x: Entity|
            c1 < w.n() && c2 < w.n() && #[trigger] w.stored_in(c1, x) && #[trigger] w.stored_in(
                c2,
                x,
            ) implies c1 == c2 by {}
        assert forall|c: Entity|
            c < w.n() && w.has_storage(c) implies (#[trigger] w.storage_of(
            c,
        )).no_duplicates() by {
            assert(c == 3);
            assert(w.storage_of(3) == seq![2usize]);
        }
        assert(w.location_exclusive());
        assert forall|c: Entity, x: Entity|
            c < w.n() && #[trigger] w.stored_in(c, x) implies w.has_desc(x) by {
            assert(c == 3 && x == 2);
        }
        assert forall|x: Entity| x < w.n() implies #[trigger] w.change_valid(x) by {
            assert(w.changes[x as int] is None);
        }
        assert forall|e: Entity|
            e < 7 implies !(#[trigger] w.has_move(e)) && !w.has_change(e) by {
            assert(w.moves[e as int] is None);
            assert(w.changes[e as int] is None);
        }
    }
    map
}

} // verus!
