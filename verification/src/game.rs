//! The turn controller: a `Game` owns the world, the map and the acting
//! player, and steps through `PreRun -> AwaitingInput -> PlayerTurn ->
//! NpcTurn` turns.  A command line is parsed, turned into at most one intent
//! on the acting entity, and the resolver systems consume all pending
//! intents once per turn.
//!
//! Note: no command presents a key to `Gate::try_unlock`, so a locked gate
//! stays impassable during play; unlocking is reachable only through the
//! map-building interface.

use vstd::prelude::*;
use vstd::string::*;
use crate::components::{Description, Entity, RoomId, Storage};
use crate::map::{render_spec, ExitDirection, GateView, RoomView, WorldMap, WorldMapView};
use crate::parser::{parse_input, parse_spec, tokenize_spec, Command, CommandView};
use crate::systems::{inv_resolved, lemma_same_placement, InventorySystem, MovementSystem};
use crate::world::{item_lines, World, WorldView};

verus! {

/// The phase the turn controller is in.
#[derive(PartialEq, Eq, Structural, Copy, Clone, Debug)]
pub enum RunState {
    AwaitingInput,
    PreRun,
    PlayerTurn,
    NpcTurn,
}

/// One running game: the component store, the room graph, the acting
/// player's entity and the controller phase.
pub struct Game {
    world: World,
    map: WorldMap,
    player_id: Entity,
    run_state: RunState,
}

/// The mathematical content of a `Game`.
pub ghost struct GameView {
    pub world: WorldView,
    pub map: WorldMapView,
    pub player_id: Entity,
    pub run_state: RunState,
}

impl View for Game {
    type V = GameView;

    closed spec fn view(&self) -> GameView {
        GameView {
            world: self.world@,
            map: self.map@,
            player_id: self.player_id,
            run_state: self.run_state,
        }
    }
}

impl GameView {
    /// Everything the engine keeps true between public calls: a well-formed
    /// store under location exclusivity, valid pending intents, a closed map
    /// with a spawn point, and a placed, container-bearing player.
    pub open spec fn inv(self) -> bool {
        &&& self.world.wf()
        &&& self.world.n() <= usize::MAX
        &&& self.world.location_exclusive()
        &&& self.world.stored_described()
        &&& self.world.changes_valid()
        &&& self.world.moves_valid(self.map)
        &&& self.world.placed_in_map(self.map)
        &&& self.map.wf()
        &&& self.map.closed()
        &&& self.map.spawn is Some
        &&& self.map.contains_room(self.map.spawn->0)
        &&& self.player_id < self.world.n()
        &&& self.world.has_in_room(self.player_id)
        &&& self.world.has_storage(self.player_id)
        &&& !self.world.is_item(self.player_id)
        &&& !self.world.has_change(self.player_id)
    }

    /// The room the player stands in.
    pub open spec fn player_room(self) -> RoomId {
        self.world.room_of(self.player_id)
    }
}

// ---------------------------------------------------------------------------
// User-facing texts
// ---------------------------------------------------------------------------

pub open spec fn locked_text() -> Seq<char> {
    "That path is locked!"@
}

pub open spec fn limit_text(dir: ExitDirection) -> Seq<char> {
    match dir {
        ExitDirection::Next => "Already at the last room!"@,
        ExitDirection::Previous => "Already at the first room!"@,
    }
}

pub open spec fn could_not_find_text(x: Seq<char>) -> Seq<char> {
    "Could not find \""@ + x + "\""@
}

pub open spec fn nothing_room_text(x: Seq<char>) -> Seq<char> {
    "Nothing in the room like \""@ + x + "\""@
}

pub open spec fn cant_store_text(g: Seq<char>) -> Seq<char> {
    "You can't store items in "@ + g + "!"@
}

pub open spec fn inventory_header_text(g: Seq<char>) -> Seq<char> {
    g + " inventory -----"@
}

pub open spec fn is_empty_text(g: Seq<char>) -> Seq<char> {
    "The "@ + g + " is empty"@
}

pub open spec fn not_able_pickup_text(x: Seq<char>) -> Seq<char> {
    "Not able to pickup \""@ + x + "\""@
}

pub open spec fn could_not_find_room_text(x: Seq<char>) -> Seq<char> {
    "Could not find \""@ + x + "\" in the current room"@
}

pub open spec fn cannot_store_text(g: Seq<char>) -> Seq<char> {
    g + " cannot store items"@
}

pub open spec fn nothing_in_text(g: Seq<char>, x: Seq<char>) -> Seq<char> {
    "Nothing in the "@ + g + " like \""@ + x + "\""@
}

pub open spec fn nothing_inventory_text(x: Seq<char>) -> Seq<char> {
    "Nothing in your inventory like \""@ + x + "\""@
}

pub open spec fn your_inventory_text() -> Seq<char> {
    "Your inventory -----"@
}

pub open spec fn inventory_empty_text() -> Seq<char> {
    "Your inventory is empty!"@
}

pub open spec fn help_text() -> Seq<char> {
    "Available actions:\nnext          Go to the next room\nprev          Go to the previous room\nlook          Describe the current room\nlook at ____  Describe an object by name"@
}

pub open spec fn no_such_command_text() -> Seq<char> {
    "No such command!"@
}

fn quoted_msg(prefix: &str, x: &str, suffix: &str) -> (s: String)
    ensures
        s@ == prefix@ + x@ + suffix@,
{
    let mut s = String::from_str(prefix);
    s.append(x);
    s.append(suffix);
    s
}

// ---------------------------------------------------------------------------
// The command step, mathematically
// ---------------------------------------------------------------------------

/// What one movement command does: no exit or a locked gate is reported and
/// the turn stays open; an unlocked gate queues a move intent and ends the
/// player's input phase.
pub open spec fn move_command_rel(
    g0: GameView,
    dir: ExitDirection,
    g1: GameView,
    out: Seq<Seq<char>>,
) -> bool {
    let room = g0.map.spec_room(g0.player_room());
    match room.exit_of(dir) {
        None => g1.world == g0.world && g1.run_state == RunState::AwaitingInput && out == seq![
            limit_text(dir),
        ],
        Some(gt) => if gt.is_locked {
            g1.world == g0.world && g1.run_state == RunState::AwaitingInput && out == seq![
                locked_text(),
            ]
        } else {
            g1.world == g0.world.with_move(g0.player_id, gt.to) && g1.run_state
                == RunState::PlayerTurn && out == Seq::<Seq<char>>::empty()
        },
    }
}

/// What looking at something prints: the long description of the first
/// matching entity in scope, or a not-found message.
pub open spec fn lookat_out_rel(g0: GameView, x: Seq<char>, out: Seq<Seq<char>>) -> bool {
    ||| (exists|e: Entity|
        (#[trigger] g0.world.scope_match(g0.player_id, x, e)) && (forall|e2: Entity|
            e2 < e ==> !g0.world.scope_match(g0.player_id, x, e2)) && out == seq![
            g0.world.desc_of(e).description,
        ])
    ||| ((forall|e2: Entity| !g0.world.scope_match(g0.player_id, x, e2)) && out == seq![
        could_not_find_text(x),
    ])
}

/// What looking into a container prints: its contents listing, an emptiness
/// note, a "cannot store" complaint, or a not-found message.
pub open spec fn lookin_out_rel(g0: GameView, x: Seq<char>, out: Seq<Seq<char>>) -> bool {
    let room = g0.player_room();
    ||| (exists|e: Entity|
        (#[trigger] g0.world.room_named_match(room, x, e)) && (forall|e2: Entity|
            e2 < e ==> !g0.world.room_named_match(room, x, e2)) && ({
            if !g0.world.has_storage(e) {
                out == seq![cant_store_text(g0.world.glance_of(e))]
            } else if g0.world.storage_of(e).len() > 0 {
                out == seq![inventory_header_text(g0.world.glance_of(e))] + item_lines(
                    g0.world,
                    g0.world.storage_of(e),
                    0,
                )
            } else {
                out == seq![is_empty_text(g0.world.glance_of(e))]
            }
        }))
    ||| ((forall|e2: Entity| !g0.world.room_named_match(room, x, e2)) && out == seq![
        nothing_room_text(x),
    ])
}

/// What picking something up does: the first matching item in the player's
/// room gets a pickup intent; otherwise a message and the turn stays open.
pub open spec fn get_rel(g0: GameView, x: Seq<char>, g1: GameView, out: Seq<Seq<char>>) -> bool {
    let room = g0.player_room();
    ||| (exists|e: Entity|
        (#[trigger] g0.world.room_item_match(room, x, e)) && (forall|e2: Entity|
            e2 < e ==> !g0.world.room_item_match(room, x, e2)) && g1.world == g0.world.with_change(
            e,
            None,
            Some(g0.player_id),
        ) && g1.run_state == RunState::PlayerTurn && out == Seq::<Seq<char>>::empty())
    ||| ((forall|e2: Entity| !g0.world.room_item_match(room, x, e2)) && g1.world == g0.world
        && g1.run_state == RunState::AwaitingInput && out == seq![not_able_pickup_text(x)])
}

/// What taking an item out of a container does.
pub open spec fn getfrom_rel(
    g0: GameView,
    x: Seq<char>,
    cn: Seq<char>,
    g1: GameView,
    out: Seq<Seq<char>>,
) -> bool {
    let room = g0.player_room();
    ||| ((forall|c2: Entity| !g0.world.room_named_match(room, cn, c2)) && g1.world == g0.world
        && g1.run_state == RunState::AwaitingInput && out == seq![could_not_find_room_text(cn)])
    ||| (exists|c: Entity|
        (#[trigger] g0.world.room_named_match(room, cn, c)) && (forall|c2: Entity|
            c2 < c ==> !g0.world.room_named_match(room, cn, c2)) && ({
            if !g0.world.has_storage(c) {
                g1.world == g0.world && g1.run_state == RunState::AwaitingInput && out == seq![
                    cannot_store_text(g0.world.glance_of(c)),
                ]
            } else {
                ||| ((forall|i2: Entity| !g0.world.container_match(c, x, i2)) && g1.world
                    == g0.world && g1.run_state == RunState::AwaitingInput && out == seq![
                    nothing_in_text(g0.world.glance_of(c), x),
                ])
                ||| (exists|i: Entity|
                    (#[trigger] g0.world.container_match(c, x, i)) && (forall|i2: Entity|
                        i2 < i ==> !g0.world.container_match(c, x, i2)) && g1.world
                        == g0.world.with_change(i, Some(c), Some(g0.player_id)) && g1.run_state
                        == RunState::PlayerTurn && out == Seq::<Seq<char>>::empty())
            }
        }))
}

/// What listing the player's own inventory prints.
pub open spec fn inventory_out_rel(g0: GameView, out: Seq<Seq<char>>) -> bool {
    if g0.world.storage_of(g0.player_id).len() > 0 {
        out == seq![your_inventory_text()] + item_lines(
            g0.world,
            g0.world.storage_of(g0.player_id),
            0,
        )
    } else {
        out == seq![inventory_empty_text()]
    }
}

/// What putting an inventory item into a container does.
pub open spec fn putin_rel(
    g0: GameView,
    x: Seq<char>,
    cn: Seq<char>,
    g1: GameView,
    out: Seq<Seq<char>>,
) -> bool {
    let room = g0.player_room();
    ||| ((forall|i2: Entity| !g0.world.container_match(g0.player_id, x, i2)) && g1.world
        == g0.world && g1.run_state == RunState::AwaitingInput && out == seq![
        nothing_inventory_text(x),
    ])
    ||| (exists|i: Entity|
        (#[trigger] g0.world.container_match(g0.player_id, x, i)) && (forall|i2: Entity|
            i2 < i ==> !g0.world.container_match(g0.player_id, x, i2)) && ({
            ||| ((forall|c2: Entity| !g0.world.room_named_match(room, cn, c2)) && g1.world
                == g0.world && g1.run_state == RunState::AwaitingInput && out == seq![
                could_not_find_room_text(cn),
            ])
            ||| (exists|c: Entity|
                (#[trigger] g0.world.room_named_match(room, cn, c)) && (forall|c2: Entity|
                    c2 < c ==> !g0.world.room_named_match(room, cn, c2)) && ({
                    if !g0.world.has_storage(c) {
                        g1.world == g0.world && g1.run_state == RunState::AwaitingInput && out
                            == seq![cannot_store_text(g0.world.glance_of(c))]
                    } else {
                        g1.world == g0.world.with_change(i, Some(g0.player_id), Some(c))
                            && g1.run_state == RunState::PlayerTurn && out == Seq::<Seq<char>>::empty()
                    }
                }))
        }))
}

/// What dropping an inventory item does.
pub open spec fn drop_rel(g0: GameView, x: Seq<char>, g1: GameView, out: Seq<Seq<char>>) -> bool {
    ||| ((forall|i2: Entity| !g0.world.container_match(g0.player_id, x, i2)) && g1.world
        == g0.world && g1.run_state == RunState::AwaitingInput && out == seq![
        nothing_inventory_text(x),
    ])
    ||| (exists|i: Entity|
        (#[trigger] g0.world.container_match(g0.player_id, x, i)) && (forall|i2: Entity|
            i2 < i ==> !g0.world.container_match(g0.player_id, x, i2)) && g1.world
            == g0.world.with_change(i, Some(g0.player_id), None) && g1.run_state
            == RunState::PlayerTurn && out == Seq::<Seq<char>>::empty())
}

/// How one parsed command maps the game state to the next, with its output.
pub open spec fn command_step_rel(
    g0: GameView,
    cmd: CommandView,
    g1: GameView,
    out: Seq<Seq<char>>,
) -> bool {
    &&& g1.map == g0.map
    &&& g1.player_id == g0.player_id
    &&& match cmd {
        CommandView::Next => move_command_rel(g0, ExitDirection::Next, g1, out),
        CommandView::Previous => move_command_rel(g0, ExitDirection::Previous, g1, out),
        CommandView::Look => g1.world == g0.world && g1.run_state == RunState::AwaitingInput && out
            == seq![
            render_spec(
                g0.map.spec_room(g0.player_room()).description,
                g0.world.room_glances(g0.player_room()),
            ),
        ],
        CommandView::LookAt(x) => g1.world == g0.world && g1.run_state == RunState::AwaitingInput
            && lookat_out_rel(g0, x, out),
        CommandView::LookIn(x) => g1.world == g0.world && g1.run_state == RunState::AwaitingInput
            && lookin_out_rel(g0, x, out),
        CommandView::Get(x) => get_rel(g0, x, g1, out),
        CommandView::GetFrom(x, cn) => getfrom_rel(g0, x, cn, g1, out),
        CommandView::Inventory => g1.world == g0.world && g1.run_state == RunState::AwaitingInput
            && inventory_out_rel(g0, out),
        CommandView::PutIn(x, cn) => putin_rel(g0, x, cn, g1, out),
        CommandView::Drop(x) => drop_rel(g0, x, g1, out),
        CommandView::Help => g1.world == g0.world && g1.run_state == RunState::AwaitingInput && out
            == seq![help_text()],
        CommandView::Unknown => g1.world == g0.world && g1.run_state == RunState::AwaitingInput
            && out == seq![no_such_command_text()],
    }
}

// ---------------------------------------------------------------------------
// Command handling
// ---------------------------------------------------------------------------

impl Game {
    /// The controller phase the game is currently in.
    pub fn run_state(&self) -> (r: RunState)
        ensures
            r == self@.run_state,
    {
        self.run_state
    }

    /// The acting player's entity id.
    pub fn player(&self) -> (r: Entity)
        ensures
            r == self@.player_id,
    {
        self.player_id
    }

    /// Read access to the component store.
    pub fn world(&self) -> (r: &World)
        ensures
            r@ == self@.world,
    {
        &self.world
    }

    /// Read access to the room graph.
    pub fn map(&self) -> (r: &WorldMap)
        ensures
            r@ == self@.map,
    {
        &self.map
    }

    /// The player's current room id.
    pub fn player_room_id(&self) -> (r: RoomId)
        requires
            self@.inv(),
        ensures
            r == self@.player_room(),
            self@.map.contains_room(r),
    {
        match self.world.get_in_room(self.player_id) {
            Some(r) => r,
            None => {
                proof {
                    assert(false);
                }
                0
            },
        }
    }

    fn cmd_move(&mut self, dir: ExitDirection) -> (out: Vec<String>)
        requires
            old(self)@.inv(),
        ensures
            final(self)@.inv(),
            final(self)@.map == old(self)@.map,
            final(self)@.player_id == old(self)@.player_id,
            move_command_rel(old(self)@, dir, final(self)@, out.deep_view()),
    {
        let ghost g0 = self@;
        let player = self.player_id;
        let roomid = self.player_room_id();
        let room = self.map.room(&roomid);
        let gate_info: Option<(bool, RoomId)> = match room.exit(dir) {
            Some(g) => Some((g.is_locked(), g.to())),
            None => None,
        };
        match gate_info {
            None => {
                self.run_state = RunState::AwaitingInput;
                let msg = match dir {
                    ExitDirection::Next => String::from_str("Already at the last room!"),
                    ExitDirection::Previous => String::from_str("Already at the first room!"),
                };
                let mut out: Vec<String> = Vec::new();
                out.push(msg);
                proof {
                    assert(out.deep_view() =~= seq![limit_text(dir)]);
                }
                out
            },
            Some((true, _)) => {
                self.run_state = RunState::AwaitingInput;
                let mut out: Vec<String> = Vec::new();
                out.push(String::from_str("That path is locked!"));
                proof {
                    assert(out.deep_view() =~= seq![locked_text()]);
                }
                out
            },
            Some((false, to)) => {
                self.world.set_move(player, to);
                self.run_state = RunState::PlayerTurn;
                let out: Vec<String> = Vec::new();
                proof {
                    let g1 = self@;
                    assert(g0.map.contains_room(to));
                    lemma_same_placement(g0.world, g1.world, g0.map);
                    assert forall|x: Entity|
                        x < g1.world.n() && #[trigger] g1.world.has_move(x) implies
                        g0.map.contains_room(g1.world.move_of(x)) by {
                        if x != player {
                            assert(g1.world.moves[x as int] == g0.world.moves[x as int]);
                            assert(g0.world.has_move(x));
                        }
                    }
                    assert(g1.inv());
                    assert(out.deep_view() =~= Seq::<Seq<char>>::empty());
                }
                out
            },
        }
    }

    fn cmd_look(&mut self) -> (out: Vec<String>)
        requires
            old(self)@.inv(),
        ensures
            final(self)@.inv(),
            final(self)@.map == old(self)@.map,
            final(self)@.player_id == old(self)@.player_id,
            final(self)@.world == old(self)@.world,
            final(self)@.run_state == RunState::AwaitingInput,
            out.deep_view() == seq![
                render_spec(
                    old(self)@.map.spec_room(old(self)@.player_room()).description,
                    old(self)@.world.room_glances(old(self)@.player_room()),
                ),
            ],
    {
        let ghost g0 = self@;
        let roomid = self.player_room_id();
        let room = self.map.room(&roomid);
        let desc = room.description(&self.world);
        proof {
            g0.map.lemma_room_index(roomid);
            assert(room@.id == roomid);
        }
        self.run_state = RunState::AwaitingInput;
        let mut out: Vec<String> = Vec::new();
        out.push(desc);
        proof {
            assert(out.deep_view() =~= seq![
                render_spec(
                    g0.map.spec_room(g0.player_room()).description,
                    g0.world.room_glances(g0.player_room()),
                ),
            ]);
        }
        out
    }

    fn cmd_look_at(&mut self, x: &str) -> (out: Vec<String>)
        requires
            old(self)@.inv(),
        ensures
            final(self)@.inv(),
            final(self)@.map == old(self)@.map,
            final(self)@.player_id == old(self)@.player_id,
            final(self)@.world == old(self)@.world,
            final(self)@.run_state == RunState::AwaitingInput,
            lookat_out_rel(old(self)@, x@, out.deep_view()),
    {
        let ghost g0 = self@;
        let player = self.player_id;
        let mut out: Vec<String> = Vec::new();
        match self.world.resolve_in_scope(player, x) {
            Some(e) => {
                match self.world.get_description(e) {
                    Some(d) => {
                        out.push(String::from_str(d.description.as_str()));
                        proof {
                            assert(g0.world.scope_match(player, x@, e));
                            assert(out.deep_view() =~= seq![g0.world.desc_of(e).description]);
                        }
                    },
                    None => {
                        proof {
                            assert(false);
                        }
                    },
                }
            },
            None => {
                out.push(quoted_msg("Could not find \"", x, "\""));
                proof {
                    assert(out.deep_view() =~= seq![could_not_find_text(x@)]);
                }
            },
        }
        self.run_state = RunState::AwaitingInput;
        out
    }

    fn cmd_look_in(&mut self, x: &str) -> (out: Vec<String>)
        requires
            old(self)@.inv(),
        ensures
            final(self)@.inv(),
            final(self)@.map == old(self)@.map,
            final(self)@.player_id == old(self)@.player_id,
            final(self)@.world == old(self)@.world,
            final(self)@.run_state == RunState::AwaitingInput,
            lookin_out_rel(old(self)@, x@, out.deep_view()),
    {
        let ghost g0 = self@;
        let roomid = self.player_room_id();
        let mut out: Vec<String> = Vec::new();
        match self.world.resolve_named_in_room(roomid, x) {
            Some(e) => {
                proof {
                    assert(g0.world.room_named_match(roomid, x@, e));
                }
                let glance = match self.world.get_description(e) {
                    Some(d) => String::from_str(d.glance.as_str()),
                    None => {
                        proof {
                            assert(false);
                        }
                        String::new()
                    },
                };
                if !self.world.has_storage(e) {
                    out.push(quoted_msg("You can't store items in ", glance.as_str(), "!"));
                    proof {
                        assert(out.deep_view() =~= seq![cant_store_text(g0.world.glance_of(e))]);
                    }
                } else {
                    let emptyp = match self.world.storage_items(e) {
                        Some(it) => it.len() == 0,
                        None => true,
                    };
                    if !emptyp {
                        out.push(quoted_msg("", glance.as_str(), " inventory -----"));
                        proof {
                            reveal_strlit("");
                            assert(out.deep_view()[0] =~= inventory_header_text(
                                g0.world.glance_of(e),
                            ));
                            assert forall|j: int|
                                0 <= j < g0.world.storage_of(e).len() implies g0.world.has_desc(
                                #[trigger] g0.world.storage_of(e)[j]) by {
                                assert(g0.world.storage_of(e).contains(g0.world.storage_of(e)[j]));
                                assert(g0.world.stored_in(e, g0.world.storage_of(e)[j]));
                            }
                        }
                        let ghost out0 = out.deep_view();
                        let mut lines = self.world.list_item_lines(e);
                        out.append(&mut lines);
                        proof {
                            assert(out.deep_view() =~= out0 + item_lines(
                                g0.world,
                                g0.world.storage_of(e),
                                0,
                            ));
                            assert(out0 =~= seq![inventory_header_text(g0.world.glance_of(e))]);
                        }
                    } else {
                        out.push(quoted_msg("The ", glance.as_str(), " is empty"));
                        proof {
                            assert(out.deep_view() =~= seq![is_empty_text(g0.world.glance_of(e))]);
                        }
                    }
                }
            },
            None => {
                out.push(quoted_msg("Nothing in the room like \"", x, "\""));
                proof {
                    assert(out.deep_view() =~= seq![nothing_room_text(x@)]);
                }
            },
        }
        self.run_state = RunState::AwaitingInput;
        out
    }

    /// Re-establishes the game invariant after attaching one inventory
    /// change to a stored or room-standing entity other than the player.
    proof fn lemma_change_attached(g0: GameView, g1: GameView, e: Entity)
        requires
            g0.inv(),
            e < g0.world.n(),
            e != g0.player_id,
            g1.map == g0.map,
            g1.player_id == g0.player_id,
            g1.world == g0.world.with_change(
                e,
                g1.world.change_of(e).0,
                g1.world.change_of(e).1,
            ),
            g1.world.has_change(e),
            g1.world.change_valid(e),
        ensures
            g1.inv(),
    {
        g0.world.lemma_wf_same_storages(g1.world);
        lemma_same_placement(g0.world, g1.world, g0.map);
        assert forall|x: Entity| x < g1.world.n() implies #[trigger] g1.world.change_valid(x) by {
            if x != e {
                assert(g1.world.changes[x as int] == g0.world.changes[x as int]);
                assert(g0.world.change_valid(x));
                match g0.world.change_of(x) {
                    (Some(f2), Some(t2)) => {
                        assert(g1.world.stored_in(f2, x) == g0.world.stored_in(f2, x));
                    },
                    (Some(f2), None) => {
                        assert(g1.world.stored_in(f2, x) == g0.world.stored_in(f2, x));
                    },
                    (None, Some(t2)) => {},
                    (None, None) => {},
                }
            }
        }
        assert forall|x: Entity|
            x < g1.world.n() && #[trigger] g1.world.has_move(x) implies g1.map.contains_room(
            g1.world.move_of(x)) by {
            assert(g0.world.has_move(x));
        }
        assert(g1.world.changes[g0.player_id as int] == g0.world.changes[g0.player_id as int]);
    }

    fn cmd_get(&mut self, x: &str) -> (out: Vec<String>)
        requires
            old(self)@.inv(),
        ensures
            final(self)@.inv(),
            final(self)@.map == old(self)@.map,
            final(self)@.player_id == old(self)@.player_id,
            get_rel(old(self)@, x@, final(self)@, out.deep_view()),
    {
        let ghost g0 = self@;
        let player = self.player_id;
        let roomid = self.player_room_id();
        match self.world.resolve_item_in_room(roomid, x) {
            Some(e) => {
                proof {
                    assert(g0.world.room_item_match(roomid, x@, e));
                    assert(e != player);
                }
                self.world.set_change(e, None, Some(player));
                self.run_state = RunState::PlayerTurn;
                let out: Vec<String> = Vec::new();
                proof {
                    assert(self@.world.change_valid(e));
                    Game::lemma_change_attached(g0, self@, e);
                    assert(out.deep_view() =~= Seq::<Seq<char>>::empty());
                }
                out
            },
            None => {
                self.run_state = RunState::AwaitingInput;
                let mut out: Vec<String> = Vec::new();
                out.push(quoted_msg("Not able to pickup \"", x, "\""));
                proof {
                    assert(out.deep_view() =~= seq![not_able_pickup_text(x@)]);
                }
                out
            },
        }
    }

    fn cmd_get_from(&mut self, x: &str, cn: &str) -> (out: Vec<String>)
        requires
            old(self)@.inv(),
        ensures
            final(self)@.inv(),
            final(self)@.map == old(self)@.map,
            final(self)@.player_id == old(self)@.player_id,
            getfrom_rel(old(self)@, x@, cn@, final(self)@, out.deep_view()),
    {
        let ghost g0 = self@;
        let player = self.player_id;
        let roomid = self.player_room_id();
        match self.world.resolve_named_in_room(roomid, cn) {
            None => {
                self.run_state = RunState::AwaitingInput;
                let mut out: Vec<String> = Vec::new();
                out.push(quoted_msg("Could not find \"", cn, "\" in the current room"));
                proof {
                    assert(out.deep_view() =~= seq![could_not_find_room_text(cn@)]);
                }
                out
            },
            Some(c) => {
                proof {
                    assert(g0.world.room_named_match(roomid, cn@, c));
                }
                if !self.world.has_storage(c) {
                    let glance = match self.world.get_description(c) {
                        Some(d) => String::from_str(d.glance.as_str()),
                        None => {
                            proof {
                                assert(false);
                            }
                            String::new()
                        },
                    };
                    self.run_state = RunState::AwaitingInput;
                    let mut out: Vec<String> = Vec::new();
                    out.push(quoted_msg("", glance.as_str(), " cannot store items"));
                    proof {
                        reveal_strlit("");
                        assert(out.deep_view()[0] =~= cannot_store_text(g0.world.glance_of(c)));
                        assert(out.deep_view() =~= seq![cannot_store_text(g0.world.glance_of(c))]);
                    }
                    out
                } else {
                    match self.world.resolve_in_container(c, x) {
                        None => {
                            let glance = match self.world.get_description(c) {
                                Some(d) => String::from_str(d.glance.as_str()),
                                None => {
                                    proof {
                                        assert(false);
                                    }
                                    String::new()
                                },
                            };
                            self.run_state = RunState::AwaitingInput;
                            let mut out: Vec<String> = Vec::new();
                            let mut msg = String::from_str("Nothing in the ");
                            msg.append(glance.as_str());
                            msg.append(" like \"");
                            msg.append(x);
                            msg.append("\"");
                            out.push(msg);
                            proof {
                                assert(out.deep_view()[0] =~= nothing_in_text(
                                    g0.world.glance_of(c),
                                    x@,
                                ));
                                assert(out.deep_view() =~= seq![
                                    nothing_in_text(g0.world.glance_of(c), x@),
                                ]);
                            }
                            out
                        },
                        Some(i) => {
                            proof {
                                assert(g0.world.container_match(c, x@, i));
                                assert(g0.world.stored_in(c, i));
                                if i == player {
                                    assert(g0.world.in_some_storage(player));
                                    assert(false);
                                }
                            }
                            self.world.set_change(i, Some(c), Some(player));
                            self.run_state = RunState::PlayerTurn;
                            let out: Vec<String> = Vec::new();
                            proof {
                                assert(self@.world.stored_in(c, i) == g0.world.stored_in(c, i));
                                assert(self@.world.change_valid(i));
                                Game::lemma_change_attached(g0, self@, i);
                                assert(out.deep_view() =~= Seq::<Seq<char>>::empty());
                            }
                            out
                        },
                    }
                }
            },
        }
    }

    fn cmd_inventory(&mut self) -> (out: Vec<String>)
        requires
            old(self)@.inv(),
        ensures
            final(self)@.inv(),
            final(self)@.map == old(self)@.map,
            final(self)@.player_id == old(self)@.player_id,
            final(self)@.world == old(self)@.world,
            final(self)@.run_state == RunState::AwaitingInput,
            inventory_out_rel(old(self)@, out.deep_view()),
    {
        let ghost g0 = self@;
        let player = self.player_id;
        let mut out: Vec<String> = Vec::new();
        let emptyp = match self.world.storage_items(player) {
            Some(it) => it.len() == 0,
            None => true,
        };
        if !emptyp {
            out.push(String::from_str("Your inventory -----"));
            proof {
                assert forall|j: int|
                    0 <= j < g0.world.storage_of(player).len() implies g0.world.has_desc(
                    #[trigger] g0.world.storage_of(player)[j]) by {
                    assert(g0.world.storage_of(player).contains(g0.world.storage_of(player)[j]));
                    assert(g0.world.stored_in(player, g0.world.storage_of(player)[j]));
                }
            }
            let ghost out0 = out.deep_view();
            let mut lines = self.world.list_item_lines(player);
            out.append(&mut lines);
            proof {
                assert(out.deep_view() =~= out0 + item_lines(
                    g0.world,
                    g0.world.storage_of(player),
                    0,
                ));
                assert(out0 =~= seq![your_inventory_text()]);
            }
        } else {
            out.push(String::from_str("Your inventory is empty!"));
            proof {
                assert(out.deep_view() =~= seq![inventory_empty_text()]);
            }
        }
        self.run_state = RunState::AwaitingInput;
        out
    }

    fn cmd_put_in(&mut self, x: &str, cn: &str) -> (out: Vec<String>)
        requires
            old(self)@.inv(),
        ensures
            final(self)@.inv(),
            final(self)@.map == old(self)@.map,
            final(self)@.player_id == old(self)@.player_id,
            putin_rel(old(self)@, x@, cn@, final(self)@, out.deep_view()),
    {
        let ghost g0 = self@;
        let player = self.player_id;
        match self.world.resolve_in_container(player, x) {
            None => {
                self.run_state = RunState::AwaitingInput;
                let mut out: Vec<String> = Vec::new();
                out.push(quoted_msg("Nothing in your inventory like \"", x, "\""));
                proof {
                    assert(out.deep_view() =~= seq![nothing_inventory_text(x@)]);
                }
                out
            },
            Some(i) => {
                proof {
                    assert(g0.world.container_match(player, x@, i));
                }
                let roomid = self.player_room_id();
                match self.world.resolve_named_in_room(roomid, cn) {
                    None => {
                        self.run_state = RunState::AwaitingInput;
                        let mut out: Vec<String> = Vec::new();
                        out.push(quoted_msg("Could not find \"", cn, "\" in the current room"));
                        proof {
                            assert(out.deep_view() =~= seq![could_not_find_room_text(cn@)]);
                        }
                        out
                    },
                    Some(c) => {
                        proof {
                            assert(g0.world.room_named_match(roomid, cn@, c));
                        }
                        if !self.world.has_storage(c) {
                            let glance = match self.world.get_description(c) {
                                Some(d) => String::from_str(d.glance.as_str()),
                                None => {
                                    proof {
                                        assert(false);
                                    }
                                    String::new()
                                },
                            };
                            self.run_state = RunState::AwaitingInput;
                            let mut out: Vec<String> = Vec::new();
                            out.push(quoted_msg("", glance.as_str(), " cannot store items"));
                            proof {
                                reveal_strlit("");
                                assert(out.deep_view()[0] =~= cannot_store_text(
                                    g0.world.glance_of(c),
                                ));
                                assert(out.deep_view() =~= seq![
                                    cannot_store_text(g0.world.glance_of(c)),
                                ]);
                            }
                            out
                        } else {
                            proof {
                                assert(g0.world.stored_in(player, i));
                                if i == player {
                                    assert(g0.world.in_some_storage(player));
                                    assert(false);
                                }
                            }
                            self.world.set_change(i, Some(player), Some(c));
                            self.run_state = RunState::PlayerTurn;
                            let out: Vec<String> = Vec::new();
                            proof {
                                assert(self@.world.stored_in(player, i) == g0.world.stored_in(
                                    player,
                                    i,
                                ));
                                assert(self@.world.change_valid(i));
                                Game::lemma_change_attached(g0, self@, i);
                                assert(out.deep_view() =~= Seq::<Seq<char>>::empty());
                            }
                            out
                        }
                    },
                }
            },
        }
    }

    fn cmd_drop(&mut self, x: &str) -> (out: Vec<String>)
        requires
            old(self)@.inv(),
        ensures
            final(self)@.inv(),
            final(self)@.map == old(self)@.map,
            final(self)@.player_id == old(self)@.player_id,
            drop_rel(old(self)@, x@, final(self)@, out.deep_view()),
    {
        let ghost g0 = self@;
        let player = self.player_id;
        match self.world.resolve_in_container(player, x) {
            None => {
                self.run_state = RunState::AwaitingInput;
                let mut out: Vec<String> = Vec::new();
                out.push(quoted_msg("Nothing in your inventory like \"", x, "\""));
                proof {
                    assert(out.deep_view() =~= seq![nothing_inventory_text(x@)]);
                }
                out
            },
            Some(i) => {
                proof {
                    assert(g0.world.container_match(player, x@, i));
                    assert(g0.world.stored_in(player, i));
                    if i == player {
                        assert(g0.world.in_some_storage(player));
                        assert(false);
                    }
                }
                self.world.set_change(i, Some(player), None);
                self.run_state = RunState::PlayerTurn;
                let out: Vec<String> = Vec::new();
                proof {
                    assert(self@.world.stored_in(player, i) == g0.world.stored_in(player, i));
                    assert(self@.world.change_valid(i));
                    Game::lemma_change_attached(g0, self@, i);
                    assert(out.deep_view() =~= Seq::<Seq<char>>::empty());
                }
                out
            },
        }
    }

    /// Parses one input line, performs the command, and returns the lines
    /// to show.  Informational or failing commands leave the turn awaiting
    /// input; state-changing ones queue an intent and end the input phase.
    pub fn handle_player_input(&mut self, input: &str) -> (out: Vec<String>)
        requires
            old(self)@.inv(),
        ensures
            final(self)@.inv(),
            final(self)@.map == old(self)@.map,
            final(self)@.player_id == old(self)@.player_id,
            command_step_rel(
                old(self)@,
                parse_spec(tokenize_spec(input@)),
                final(self)@,
                out.deep_view(),
            ),
    {
        let cmd = parse_input(input);
        match cmd {
            Command::Next => self.cmd_move(ExitDirection::Next),
            Command::Previous => self.cmd_move(ExitDirection::Previous),
            Command::Look => self.cmd_look(),
            Command::LookAt(x) => self.cmd_look_at(x.as_str()),
            Command::LookIn(x) => self.cmd_look_in(x.as_str()),
            Command::Get(x) => self.cmd_get(x.as_str()),
            Command::GetFrom(x, cn) => self.cmd_get_from(x.as_str(), cn.as_str()),
            Command::Inventory => self.cmd_inventory(),
            Command::PutIn(x, cn) => self.cmd_put_in(x.as_str(), cn.as_str()),
            Command::Drop(x) => self.cmd_drop(x.as_str()),
            Command::Help => {
                self.run_state = RunState::AwaitingInput;
                let mut out: Vec<String> = Vec::new();
                out.push(
                    String::from_str(
                        "Available actions:\nnext          Go to the next room\nprev          Go to the previous room\nlook          Describe the current room\nlook at ____  Describe an object by name",
                    ),
                );
                proof {
                    assert(out.deep_view() =~= seq![help_text()]);
                }
                out
            },
            Command::Unknown => {
                self.run_state = RunState::AwaitingInput;
                let mut out: Vec<String> = Vec::new();
                out.push(String::from_str("No such command!"));
                proof {
                    assert(out.deep_view() =~= seq![no_such_command_text()]);
                }
                out
            },
        }
    }
}

// ---------------------------------------------------------------------------
// The turn controller
// ---------------------------------------------------------------------------

pub open spec fn prerun_banner() -> Seq<char> {
    "=============== prerun tick ==============="@
}

pub open spec fn input_banner() -> Seq<char> {
    "=============== input  tick ==============="@
}

pub open spec fn player_banner() -> Seq<char> {
    "=============== player tick ==============="@
}

pub open spec fn npc_banner() -> Seq<char> {
    "=============== NPC    tick ==============="@
}

/// What one resolution phase does: all pending moves applied and announced,
/// then all pending inventory changes resolved, all intents cleared.
pub open spec fn systems_step_rel(
    g0: GameView,
    g1world: WorldView,
    out: Seq<Seq<char>>,
    fatal: bool,
    banner: Seq<char>,
) -> bool {
    let w1 = g0.world.moves_resolved();
    let movemsgs: Seq<Seq<char>> = match g0.world.last_mover() {
        Some(m) => seq![
            render_spec(
                g0.map.spec_room(g0.world.move_of(m)).description,
                w1.room_glances(g0.world.move_of(m)),
            ),
        ],
        None => Seq::<Seq<char>>::empty(),
    };
    &&& g1world == inv_resolved(w1).w
    &&& out == seq![banner] + movemsgs + inv_resolved(w1).msgs
    &&& fatal == inv_resolved(w1).fatal
}

impl Game {
    /// Runs one full resolution phase: movement, then inventory.
    fn run_systems(&mut self, banner: &str) -> (r: (Vec<String>, bool))
        requires
            old(self)@.inv(),
        ensures
            final(self)@.inv(),
            final(self)@.map == old(self)@.map,
            final(self)@.player_id == old(self)@.player_id,
            final(self)@.run_state == old(self)@.run_state,
            systems_step_rel(old(self)@, final(self)@.world, r.0.deep_view(), r.1, banner@),
    {
        let ghost g0 = self@;
        let mut out: Vec<String> = Vec::new();
        out.push(String::from_str(banner));
        proof {
            assert(out.deep_view() =~= seq![banner@]);
        }
        let mdesc = MovementSystem::run(&mut self.world, &self.map);
        proof {
            let w1 = self@.world;
            assert(w1 == g0.world.moves_resolved());
            // moves are cleared, so every move intent is trivially valid
            assert forall|x: Entity|
                x < w1.n() && #[trigger] w1.has_move(x) implies g0.map.contains_room(
                w1.move_of(x)) by {
                assert(w1.moves[x as int] is None);
            }
            // placement stays within the map: movers went to valid targets
            assert forall|x: Entity|
                x < w1.n() && #[trigger] w1.has_in_room(x) implies g0.map.contains_room(
                w1.room_of(x)) by {
                if g0.world.has_move(x) && g0.world.has_in_room(x) {
                    assert(w1.in_rooms[x as int] == Some(g0.world.move_of(x)));
                    assert(g0.world.has_move(x));
                } else {
                    assert(w1.in_rooms[x as int] == g0.world.in_rooms[x as int]);
                    assert(g0.world.has_in_room(x));
                }
            }
            assert(w1.has_in_room(g0.player_id)) by {
                if g0.world.has_move(g0.player_id) && g0.world.has_in_room(g0.player_id) {
                    assert(w1.in_rooms[g0.player_id as int] == Some(
                        g0.world.move_of(g0.player_id),
                    ));
                } else {
                    assert(w1.in_rooms[g0.player_id as int] == g0.world.in_rooms[g0.player_id
                        as int]);
                }
            }
            assert(w1.has_storage(g0.player_id));
            assert(!w1.is_item(g0.player_id));
            assert(!w1.has_change(g0.player_id));
        }
        let ghost out1 = out.deep_view();
        match mdesc {
            Some(d) => {
                out.push(d);
            },
            None => {},
        }
        let ghost w1 = self@.world;
        let ghost out2 = out.deep_view();
        proof {
            match g0.world.last_mover() {
                Some(m) => {
                    assert(out2 =~= out1 + seq![
                        render_spec(
                            g0.map.spec_room(g0.world.move_of(m)).description,
                            w1.room_glances(g0.world.move_of(m)),
                        ),
                    ]);
                },
                None => {
                    assert(out2 =~= out1);
                },
            }
        }
        let (mut imsgs, fatal) = InventorySystem::run(&mut self.world);
        let ghost imsgsv = imsgs.deep_view();
        out.append(&mut imsgs);
        proof {
            assert(out.deep_view() =~= out2 + imsgsv);
            let w2 = self@.world;
            assert(w2 == inv_resolved(w1).w);
            // carry the game-level invariants through the fold and the clear
            crate::systems::lemma_inv_upto_props(w1, g0.map, w1.n() as int);
            let ru = crate::systems::inv_resolved_upto(w1, w1.n() as int);
            lemma_same_placement(ru.w, w2, g0.map);
            assert forall|x: Entity|
                x < w2.n() && #[trigger] w2.has_move(x) implies g0.map.contains_room(
                w2.move_of(x)) by {
                assert(w2.moves == ru.w.moves && ru.w.moves == w1.moves);
                assert(w1.moves[x as int] is None);
            }
            assert(!w1.has_change(g0.player_id));
            assert(ru.w.in_rooms[g0.player_id as int] == w1.in_rooms[g0.player_id as int]);
            assert(w2.has_in_room(g0.player_id));
            assert(ru.w.has_storage(g0.player_id) == w1.has_storage(g0.player_id));
            assert(w2.has_storage(g0.player_id));
            assert(w2.items == w1.items);
            assert(!w2.is_item(g0.player_id));
            assert(!w2.has_change(g0.player_id));
            assert(self@.inv());
            // the output is the banner, the move announcement, the errors
            match g0.world.last_mover() {
                Some(m) => {
                    assert(out.deep_view() =~= seq![banner@] + seq![
                        render_spec(
                            g0.map.spec_room(g0.world.move_of(m)).description,
                            w1.room_glances(g0.world.move_of(m)),
                        ),
                    ] + inv_resolved(w1).msgs);
                },
                None => {
                    assert(out.deep_view() =~= seq![banner@] + Seq::<Seq<char>>::empty()
                        + inv_resolved(w1).msgs);
                },
            }
        }
        (out, fatal)
    }

    /// One controller step.  In `AwaitingInput` the supplied command line is
    /// handled (none means: stay put); the other phases run one resolution
    /// pass and advance.  Returns the lines to show and whether a fatal
    /// invariant violation was hit.
    pub fn tick(&mut self, input: Option<&str>) -> (r: (Vec<String>, bool))
        requires
            old(self)@.inv(),
        ensures
            final(self)@.inv(),
            final(self)@.map == old(self)@.map,
            final(self)@.player_id == old(self)@.player_id,
            match old(self)@.run_state {
                RunState::PreRun => systems_step_rel(
                    old(self)@,
                    final(self)@.world,
                    r.0.deep_view(),
                    r.1,
                    prerun_banner(),
                ) && final(self)@.run_state == RunState::AwaitingInput,
                RunState::PlayerTurn => systems_step_rel(
                    old(self)@,
                    final(self)@.world,
                    r.0.deep_view(),
                    r.1,
                    player_banner(),
                ) && final(self)@.run_state == RunState::NpcTurn,
                RunState::NpcTurn => systems_step_rel(
                    old(self)@,
                    final(self)@.world,
                    r.0.deep_view(),
                    r.1,
                    npc_banner(),
                ) && final(self)@.run_state == RunState::AwaitingInput,
                RunState::AwaitingInput => r.1 == false && r.0.deep_view().len() >= 1
                    && r.0.deep_view()[0] == input_banner() && match input {
                    Some(line) => command_step_rel(
                        old(self)@,
                        parse_spec(tokenize_spec(line@)),
                        final(self)@,
                        r.0.deep_view().subrange(1, r.0.deep_view().len() as int),
                    ),
                    None => final(self)@ == old(self)@ && r.0.deep_view().len() == 1,
                },
            },
    {
        match self.run_state {
            RunState::PreRun => {
                let (out, fatal) = self.run_systems("=============== prerun tick ===============");
                self.run_state = RunState::AwaitingInput;
                (out, fatal)
            },
            RunState::PlayerTurn => {
                let (out, fatal) = self.run_systems("=============== player tick ===============");
                self.run_state = RunState::NpcTurn;
                (out, fatal)
            },
            RunState::NpcTurn => {
                let (out, fatal) = self.run_systems("=============== NPC    tick ===============");
                self.run_state = RunState::AwaitingInput;
                (out, fatal)
            },
            RunState::AwaitingInput => {
                let mut out: Vec<String> = Vec::new();
                out.push(String::from_str("=============== input  tick ==============="));
                proof {
                    assert(out.deep_view() =~= seq![input_banner()]);
                }
                match input {
                    Some(line) => {
                        let mut more = self.handle_player_input(line);
                        let ghost morev = more.deep_view();
                        out.append(&mut more);
                        proof {
                            assert(out.deep_view() =~= seq![input_banner()] + morev);
                            assert(out.deep_view().subrange(1, out.deep_view().len() as int)
                                =~= morev);
                        }
                        (out, false)
                    },
                    None => (out, false),
                }
            },
        }
    }
}

// ---------------------------------------------------------------------------
// Construction
// ---------------------------------------------------------------------------

impl Game {
    /// Builds the default two-room map: a first room with a Next gate into
    /// the second, and a Previous gate back; the first room is the spawn.
    pub fn build_map() -> (m: WorldMap)
        ensures
            m@.wf(),
            m@.closed(),
            m@.spawn == Some(0u64),
            m@.room_indexer == 2,
            m@.contains_room(0) && m@.contains_room(1),
            m@.spec_room(0) == (RoomView {
                id: 0,
                description: "This is the first room"@,
                next_gate: Some(
                    GateView {
                        description: "Hallway leading to the next train car."@,
                        is_locked: false,
                        keys: None,
                        to: 1,
                    },
                ),
                previous_gate: None,
            }),
            m@.spec_room(1) == (RoomView {
                id: 1,
                description: "This is the second room"@,
                next_gate: None,
                previous_gate: Some(
                    GateView {
                        description: "Hallway leading to the previous train car."@,
                        is_locked: false,
                        keys: None,
                        to: 0,
                    },
                ),
            }),
            forall|id: RoomId| #[trigger] m@.contains_room(id) ==> (id == 0 || id == 1),
    {
        let mut map = WorldMap::new();
        let mut first_room = map.create_room("This is the first room");
        let mut second_room = map.create_room("This is the second room");
        let back_gate = first_room.as_gate("Hallway leading to the previous train car.");
        second_room.add_exit(ExitDirection::Previous, back_gate);
        let fwd_gate = second_room.as_gate("Hallway leading to the next train car.");
        first_room.add_exit(ExitDirection::Next, fwd_gate);
        map.set_spawn(first_room.id());
        map.insert_room(first_room);
        map.insert_room(second_room);
        proof {
            assert forall|id: RoomId| #[trigger] map@.contains_room(id) implies (id == 0 || id
                == 1) by {}
            assert forall|id: RoomId| #[trigger] map@.contains_room(id) implies
                crate::map::room_gates_ok(map@, map@.spec_room(id)) by {
                assert(id == 0 || id == 1);
            }
        }
        map
    }
}

impl Game {
    /// A fresh game: the two-room map, a table, a cabinet (an empty
    /// container), an oboe (a pickable item) and the player, all standing
    /// in the spawn room, with the controller about to run its first pass.
    pub fn new() -> (g: Game)
        ensures
            g@.inv(),
            g@.run_state == RunState::PreRun,
            g@.player_id == 3,
            g@.world.n() == 4,
            g@.map.spawn == Some(0u64),
            g@.world.has_desc(0) && g@.world.glance_of(0) == "table"@,
            g@.world.desc_of(0).description == "It looks like a sturdy table!"@,
            g@.world.has_desc(1) && g@.world.glance_of(1) == "cabinet"@,
            g@.world.desc_of(1).description == "It looks like a metal cabinet."@,
            g@.world.has_desc(2) && g@.world.glance_of(2) == "oboe"@,
            g@.world.desc_of(2).description == "A double reed woodwind instrument."@,
            !g@.world.has_desc(3),
            forall|e: Entity| e < 4 ==> g@.world.has_in_room(e) && g@.world.room_of(e) == 0,
            g@.world.has_storage(1) && g@.world.storage_of(1) == Seq::<Entity>::empty(),
            g@.world.has_storage(3) && g@.world.storage_of(3) == Seq::<Entity>::empty(),
            !g@.world.has_storage(0) && !g@.world.has_storage(2),
            g@.world.is_item(2) && !g@.world.is_item(0) && !g@.world.is_item(1),
            g@.world.is_player(3),
            forall|e: Entity| e < 4 ==> !g@.world.has_move(e) && !g@.world.has_change(e),
            g@.map.contains_room(0) && g@.map.contains_room(1),
            g@.map.spec_room(0) == (RoomView {
                id: 0,
                description: "This is the first room"@,
                next_gate: Some(
                    GateView {
                        description: "Hallway leading to the next train car."@,
                        is_locked: false,
                        keys: None,
                        to: 1,
                    },
                ),
                previous_gate: None,
            }),
            g@.map.spec_room(1) == (RoomView {
                id: 1,
                description: "This is the second room"@,
                next_gate: None,
                previous_gate: Some(
                    GateView {
                        description: "Hallway leading to the previous train car."@,
                        is_locked: false,
                        keys: None,
                        to: 0,
                    },
                ),
            }),
    {
        let world_map = Game::build_map();
        let spawn = world_map.spawn();
        let mut world = World::new();

        let table = world.create_entity();
        world.set_description(
            table,
            Description {
                description: String::from_str("It looks like a sturdy table!"),
                glance: String::from_str("table"),
                name: None,
            },
        );
        world.set_in_room(table, spawn);

        let cabinet = world.create_entity();
        world.set_description(
            cabinet,
            Description {
                description: String::from_str("It looks like a metal cabinet."),
                glance: String::from_str("cabinet"),
                name: None,
            },
        );
        world.set_in_room(cabinet, spawn);
        world.set_storage(cabinet, Storage::new());

        let oboe = world.create_entity();
        world.set_description(
            oboe,
            Description {
                description: String::from_str("A double reed woodwind instrument."),
                glance: String::from_str("oboe"),
                name: None,
            },
        );
        world.set_in_room(oboe, spawn);
        world.set_item(oboe);

        let player = world.create_entity();
        world.set_player(player);
        world.set_in_room(player, spawn);
        world.set_storage(player, Storage::new());

        let g = Game { world, map: world_map, player_id: player, run_state: RunState::PreRun };
        proof {
            let w = g@.world;
            assert(w.n() == 4);
            assert forall|c: Entity, x: Entity| c < w.n() implies !(#[trigger] w.stored_in(
                c,
                x,
            )) by {
                if c == 1 || c == 3 {
                    assert(w.storage_of(c).len() == 0);
                }
            }
            assert forall|x: Entity|
                x < w.n() implies ((#[trigger] w.has_in_room(x)) <==> !w.in_some_storage(x)) by {
                assert(w.in_rooms[x as int] is Some);
                if w.in_some_storage(x) {
                    let c = choose|c: Entity| c < w.n() && #[trigger] w.stored_in(c, x);
                    assert(!w.stored_in(c, x));
                }
            }
            assert(w.location_exclusive());
            assert forall|x: Entity| x < w.n() implies #[trigger] w.change_valid(x) by {
                assert(w.changes[x as int] is None);
            }
            assert forall|x: Entity|
                x < w.n() && #[trigger] w.has_in_room(x) implies g@.map.contains_room(
                w.room_of(x)) by {
                assert(w.room_of(x) == 0);
            }
            assert forall|x: Entity| x < w.n() implies !(#[trigger] w.has_move(x)) by {
                assert(w.moves[x as int] is None);
            }
            assert(g@.inv());
        }
        g
    }

    /// Accepts a fully wired world and map from a construction collaborator.
    /// Succeeds exactly when the supplied state satisfies the engine's
    /// invariant: location exclusivity, valid pending intents, a closed map
    /// with a spawn room it contains, and a placed, container-bearing,
    /// non-item player with no pending inventory change.
    pub fn from_world(world: World, map: WorldMap, player_id: Entity) -> (r: Option<Game>)
        requires
            world@.wf(),
            map@.wf(),
        ensures
            ({
                let g = GameView {
                    world: world@,
                    map: map@,
                    player_id,
                    run_state: RunState::PreRun,
                };
                match r {
                    Some(game) => game@ == g && g.inv(),
                    None => !g.inv(),
                }
            }),
    {
        let n = world.num_entities();
        proof {
            assert(world@.n() <= usize::MAX);
        }
        let ok = player_id < n && world.get_in_room(player_id).is_some() && world.has_storage(
            player_id,
        ) && !world.is_item(player_id) && world.get_change(player_id).is_none() && map.has_spawn()
            && map.contains_room(map.spawn()) && map.check_closed()
            && world.check_location_exclusive() && world.check_stored_described()
            && world.check_changes_valid() && world.check_moves_valid(&map)
            && world.check_placed_in_map(&map);
        if ok {
            Some(Game { world, map, player_id, run_state: RunState::PreRun })
        } else {
            None
        }
    }

    /// Creates a fresh player entity standing at the spawn point and
    /// returns its id; the acting player of the game is unchanged.
    pub fn create_player(&mut self) -> (id: Entity)
        requires
            old(self)@.inv(),
            old(self)@.world.n() < usize::MAX,
        ensures
            final(self)@.inv(),
            id == old(self)@.world.n(),
            final(self)@.world == old(self)@.world.plus_entity().with_player(id).with_in_room(
                id,
                old(self)@.map.spawn->0,
            ),
            final(self)@.map == old(self)@.map,
            final(self)@.player_id == old(self)@.player_id,
            final(self)@.run_state == old(self)@.run_state,
    {
        let ghost g0 = self@;
        let spawn = self.map.spawn();
        let id = self.world.create_entity();
        self.world.set_player(id);
        self.world.set_in_room(id, spawn);
        proof {
            let w = self@.world;
            let ow = g0.world;
            assert forall|c: Entity, x: Entity| c < w.n() implies (#[trigger] w.stored_in(c, x))
                == (c < ow.n() && ow.stored_in(c, x)) by {
                if c < ow.n() {
                    assert(w.storages[c as int] == ow.storages[c as int]);
                } else {
                    assert(w.storages[c as int] is None);
                }
            }
            assert forall|x: Entity|
                x < w.n() implies ((#[trigger] w.has_in_room(x)) <==> !w.in_some_storage(x)) by {
                if x < ow.n() {
                    assert(w.in_rooms[x as int] == ow.in_rooms[x as int]);
                    assert(ow.has_in_room(x) <==> !ow.in_some_storage(x));
                    if ow.in_some_storage(x) {
                        let c = choose|c: Entity| c < ow.n() && #[trigger] ow.stored_in(c, x);
                        assert(w.stored_in(c, x));
                    }
                    if w.in_some_storage(x) {
                        let c = choose|c: Entity| c < w.n() && #[trigger] w.stored_in(c, x);
                        assert(ow.stored_in(c, x));
                    }
                } else {
                    assert(x == id);
                    assert(w.has_in_room(id));
                    if w.in_some_storage(x) {
                        let c = choose|c: Entity| c < w.n() && #[trigger] w.stored_in(c, x);
                        assert(ow.stored_in(c, x));
                        let j = choose|j: int|
                            0 <= j < ow.storage_of(c).len() && ow.storage_of(c)[j] == x;
                        assert(ow.storage_of(c)[j] < ow.n());
                        assert(false);
                    }
                }
            }
            assert forall|c1: Entity, c2: Entity, x: Entity|
                c1 < w.n() && c2 < w.n() && #[trigger] w.stored_in(c1, x) && #[trigger] w.stored_in(
                    c2,
                    x,
                ) implies c1 == c2 by {
                assert(ow.stored_in(c1, x) && ow.stored_in(c2, x));
            }
            assert forall|c: Entity|
                c < w.n() && w.has_storage(c) implies (#[trigger] w.storage_of(
                c,
            )).no_duplicates() by {
                assert(c < ow.n() && w.storage_of(c) == ow.storage_of(c));
                assert(ow.storage_of(c).no_duplicates());
            }
            assert(w.location_exclusive());
            assert forall|c: Entity, x: Entity|
                c < w.n() && #[trigger] w.stored_in(c, x) implies w.has_desc(x) by {
                assert(ow.stored_in(c, x));
                assert(ow.has_desc(x));
                assert(w.descriptions[x as int] == ow.descriptions[x as int]);
            }
            assert forall|x: Entity| x < w.n() implies #[trigger] w.change_valid(x) by {
                if x < ow.n() {
                    assert(w.changes[x as int] == ow.changes[x as int]);
                    assert(ow.change_valid(x));
                    match ow.change_of(x) {
                        (Some(f2), Some(t2)) => {
                            assert(w.stored_in(f2, x) == ow.stored_in(f2, x));
                        },
                        (Some(f2), None) => {
                            assert(w.stored_in(f2, x) == ow.stored_in(f2, x));
                        },
                        (None, Some(t2)) => {
                            assert(w.descriptions[x as int] == ow.descriptions[x as int]);
                        },
                        (None, None) => {},
                    }
                } else {
                    assert(w.changes[x as int] is None);
                }
            }
            assert forall|x: Entity|
                x < w.n() && #[trigger] w.has_move(x) implies g0.map.contains_room(
                w.move_of(x)) by {
                assert(x < ow.n());
                assert(w.moves[x as int] == ow.moves[x as int]);
                assert(ow.has_move(x));
            }
            assert forall|x: Entity|
                x < w.n() && #[trigger] w.has_in_room(x) implies g0.map.contains_room(
                w.room_of(x)) by {
                if x < ow.n() {
                    assert(w.in_rooms[x as int] == ow.in_rooms[x as int]);
                    assert(ow.has_in_room(x));
                } else {
                    assert(w.room_of(x) == g0.map.spawn->0);
                }
            }
            assert(self@.world.has_in_room(g0.player_id));
            assert(self@.world.has_storage(g0.player_id));
            assert(!self@.world.is_item(g0.player_id));
            assert(!self@.world.has_change(g0.player_id));
            assert(self@.inv());
        }
        id
    }
}

} // verus!
