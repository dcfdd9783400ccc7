//! The room graph: rooms joined by directional, possibly locked gates, plus
//! the verified room-description renderer.

use vstd::prelude::*;
use vstd::string::*;
use crate::components::{Entity, RoomId};
use crate::text::{aan, aan_spec, trim_spec, trim_str};
use crate::world::World;

verus! {

/// The direction of an exit out of a room.
#[derive(Clone, Copy, PartialEq, Eq, Structural)]
pub enum ExitDirection {
    Next,
    Previous,
}

// ---------------------------------------------------------------------------
// Gates
// ---------------------------------------------------------------------------

/// A directional edge to another room.  A locked gate blocks traversal until
/// a recognized key unlocks it; unlocking is permanent.
pub struct Gate {
    pub description: String,
    is_locked: bool,
    keys: Option<Vec<Entity>>,
    to: RoomId,
}

/// The mathematical content of a `Gate`.
pub ghost struct GateView {
    pub description: Seq<char>,
    pub is_locked: bool,
    pub keys: Option<Seq<Entity>>,
    pub to: RoomId,
}

impl View for Gate {
    type V = GateView;

    closed spec fn view(&self) -> GateView {
        GateView {
            description: self.description@,
            is_locked: self.is_locked,
            keys: match self.keys {
                Some(ref ks) => Some(ks@),
                None => None,
            },
            to: self.to,
        }
    }
}

impl Gate {
    /// An unlocked gate to `to`.
    pub fn new(to: RoomId, description: &str) -> (g: Gate)
        ensures
            g@ == (GateView { description: description@, is_locked: false, keys: None, to }),
    {
        Gate { description: String::from_str(description), to, is_locked: false, keys: None }
    }

    /// A locked gate to `to`, opened by any entity in `keys`.
    pub fn new_locked(to: RoomId, description: &str, keys: Vec<Entity>) -> (g: Gate)
        ensures
            g@ == (GateView {
                description: description@,
                is_locked: true,
                keys: Some(keys@),
                to,
            }),
    {
        Gate { description: String::from_str(description), to, keys: Some(keys), is_locked: true }
    }

    /// Registers one more recognized key.
    pub fn add_key(&mut self, key: Entity)
        requires
            old(self)@.keys is Some,
        ensures
            final(self)@ == (GateView {
                keys: Some(old(self)@.keys->0.push(key)),
                ..old(self)@
            }),
    {
        match &mut self.keys {
            Some(ks) => ks.push(key),
            None => {},
        }
    }

    /// Unlocks exactly when the offered entity is a recognized key; a
    /// wrong key changes nothing, and unlocking is permanent.
    pub fn try_unlock(&mut self, key: Entity)
        requires
            old(self)@.keys is Some,
        ensures
            final(self)@ == (GateView {
                is_locked: old(self)@.is_locked && !old(self)@.keys->0.contains(key),
                ..old(self)@
            }),
    {
        let mut found = false;
        match &self.keys {
            Some(ks) => {
                let mut i: usize = 0;
                while i < ks.len()
                    invariant
                        i <= ks@.len(),
                        found == exists|j: int| 0 <= j < i && ks@[j] == key,
                    decreases ks@.len() - i,
                {
                    if ks[i] == key {
                        found = true;
                    }
                    i += 1;
                }
            },
            None => {},
        }
        if found {
            self.is_locked = false;
        }
    }

    pub fn is_locked(&self) -> (r: bool)
        ensures
            r == self@.is_locked,
    {
        self.is_locked
    }

    /// The target room of this gate.
    pub fn to(&self) -> (r: RoomId)
        ensures
            r == self@.to,
    {
        self.to
    }
}

// ---------------------------------------------------------------------------
// Rooms
// ---------------------------------------------------------------------------

/// A room: static description text and at most one gate per direction.
pub struct Room {
    id: RoomId,
    description: String,
    next_gate: Option<Gate>,
    previous_gate: Option<Gate>,
}

/// The mathematical content of a `Room`.
pub ghost struct RoomView {
    pub id: RoomId,
    pub description: Seq<char>,
    pub next_gate: Option<GateView>,
    pub previous_gate: Option<GateView>,
}

impl RoomView {
    /// This room's gate in direction `dir`, if there is one.
    pub open spec fn exit_of(self, dir: ExitDirection) -> Option<GateView> {
        match dir {
            ExitDirection::Next => self.next_gate,
            ExitDirection::Previous => self.previous_gate,
        }
    }
}

impl View for Room {
    type V = RoomView;

    closed spec fn view(&self) -> RoomView {
        RoomView {
            id: self.id,
            description: self.description@,
            next_gate: match self.next_gate {
                Some(ref g) => Some(g@),
                None => None,
            },
            previous_gate: match self.previous_gate {
                Some(ref g) => Some(g@),
                None => None,
            },
        }
    }
}

impl Room {
    /// A room with no exits yet.
    pub fn new(id: RoomId, description: &str) -> (r: Room)
        ensures
            r@ == (RoomView {
                id,
                description: description@,
                next_gate: None,
                previous_gate: None,
            }),
    {
        Room {
            id,
            description: String::from_str(description),
            next_gate: None,
            previous_gate: None,
        }
    }

    pub fn id(&self) -> (r: RoomId)
        ensures
            r == self@.id,
    {
        self.id
    }

    /// Attaches `gate` in direction `dir`, replacing any gate already there.
    pub fn add_exit(&mut self, dir: ExitDirection, gate: Gate)
        ensures
            final(self)@ == match dir {
                ExitDirection::Next => RoomView { next_gate: Some(gate@), ..old(self)@ },
                ExitDirection::Previous => RoomView { previous_gate: Some(gate@), ..old(self)@ },
            },
    {
        match dir {
            ExitDirection::Next => self.next_gate = Some(gate),
            ExitDirection::Previous => self.previous_gate = Some(gate),
        }
    }

    pub fn exit(&self, dir: ExitDirection) -> (r: Option<&Gate>)
        ensures
            r is Some <==> self@.exit_of(dir) is Some,
            r is Some ==> r->0@ == self@.exit_of(dir)->0,
    {
        match dir {
            ExitDirection::Next => {
                match &self.next_gate {
                    Some(g) => Some(g),
                    None => None,
                }
            },
            ExitDirection::Previous => {
                match &self.previous_gate {
                    Some(g) => Some(g),
                    None => None,
                }
            },
        }
    }

    /// Registers `key` with the lockable gate in direction `dir`.
    pub fn add_key_to_exit(&mut self, dir: ExitDirection, key: Entity)
        requires
            old(self)@.exit_of(dir) is Some,
            old(self)@.exit_of(dir)->0.keys is Some,
        ensures
            final(self)@ == match dir {
                ExitDirection::Next => RoomView {
                    next_gate: Some(
                        GateView {
                            keys: Some(old(self)@.exit_of(dir)->0.keys->0.push(key)),
                            ..old(self)@.exit_of(dir)->0
                        },
                    ),
                    ..old(self)@
                },
                ExitDirection::Previous => RoomView {
                    previous_gate: Some(
                        GateView {
                            keys: Some(old(self)@.exit_of(dir)->0.keys->0.push(key)),
                            ..old(self)@.exit_of(dir)->0
                        },
                    ),
                    ..old(self)@
                },
            },
    {
        match dir {
            ExitDirection::Next => {
                match &mut self.next_gate {
                    Some(g) => g.add_key(key),
                    None => {},
                }
            },
            ExitDirection::Previous => {
                match &mut self.previous_gate {
                    Some(g) => g.add_key(key),
                    None => {},
                }
            },
        }
    }

    /// An unlocked gate leading to this room.
    pub fn as_gate(&self, description: &str) -> (g: Gate)
        ensures
            g@ == (GateView {
                description: description@,
                is_locked: false,
                keys: None,
                to: self@.id,
            }),
    {
        Gate::new(self.id, description)
    }

    /// A locked gate leading to this room.
    pub fn as_gate_locked(&self, description: &str, keys: Vec<Entity>) -> (g: Gate)
        ensures
            g@ == (GateView {
                description: description@,
                is_locked: true,
                keys: Some(keys@),
                to: self@.id,
            }),
    {
        Gate::new_locked(self.id, description, keys)
    }
}

// ---------------------------------------------------------------------------
// The map
// ---------------------------------------------------------------------------

/// The room graph: rooms by id, a fresh-id allocator, and the spawn point.
pub struct WorldMap {
    rooms: Vec<Room>,
    room_indexer: u64,
    spawn: Option<RoomId>,
}

/// The mathematical content of a `WorldMap`.
pub ghost struct WorldMapView {
    pub rooms: Seq<RoomView>,
    pub room_indexer: u64,
    pub spawn: Option<RoomId>,
}

impl DeepView for Room {
    type V = RoomView;

    open spec fn deep_view(&self) -> RoomView {
        self.view()
    }
}

impl View for WorldMap {
    type V = WorldMapView;

    closed spec fn view(&self) -> WorldMapView {
        WorldMapView {
            rooms: self.rooms.deep_view(),
            room_indexer: self.room_indexer,
            spawn: self.spawn,
        }
    }
}

/// Both gates of `r`, if present, lead to rooms `m` contains.
pub open spec fn room_gates_ok(m: WorldMapView, r: RoomView) -> bool {
    &&& match r.next_gate {
        Some(g) => m.contains_room(g.to),
        None => true,
    }
    &&& match r.previous_gate {
        Some(g) => m.contains_room(g.to),
        None => true,
    }
}

impl WorldMapView {
    /// Room ids are unique and below the allocator's next id.
    pub open spec fn wf(self) -> bool {
        &&& forall|i: int, j: int|
            0 <= i < j < self.rooms.len() ==> (#[trigger] self.rooms[i]).id != (
            #[trigger] self.rooms[j]).id
        &&& forall|i: int|
            0 <= i < self.rooms.len() ==> (#[trigger] self.rooms[i]).id < self.room_indexer
    }

    pub open spec fn contains_room(self, id: RoomId) -> bool {
        exists|i: int| 0 <= i < self.rooms.len() && (#[trigger] self.rooms[i]).id == id
    }

    pub open spec fn room_index(self, id: RoomId) -> int {
        choose|i: int| 0 <= i < self.rooms.len() && (#[trigger] self.rooms[i]).id == id
    }

    /// The room with id `id`, when `contains_room(id)` holds.
    pub open spec fn spec_room(self, id: RoomId) -> RoomView {
        self.rooms[self.room_index(id)]
    }

    /// Every gate of every room leads to a room the map contains.
    pub open spec fn closed(self) -> bool {
        forall|id: RoomId|
            #[trigger] self.contains_room(id) ==> room_gates_ok(self, self.spec_room(id))
    }

    /// With unique ids, every index holding `id` is the looked-up one.
    pub proof fn lemma_room_index(self, id: RoomId)
        requires
            self.wf(),
            self.contains_room(id),
        ensures
            0 <= self.room_index(id) < self.rooms.len(),
            self.rooms[self.room_index(id)].id == id,
            forall|i: int|
                0 <= i < self.rooms.len() && (#[trigger] self.rooms[i]).id == id ==> i
                    == self.room_index(id),
    {
        let k = self.room_index(id);
        assert(0 <= k < self.rooms.len() && self.rooms[k].id == id);
        assert forall|i: int|
            0 <= i < self.rooms.len() && (#[trigger] self.rooms[i]).id == id implies i == k by {
            if i < k {
                assert(self.rooms[i].id != self.rooms[k].id);
            } else if i > k {
                assert(self.rooms[k].id != self.rooms[i].id);
            }
        }
    }
}

impl WorldMap {
    /// An empty map: no rooms, no spawn point, ids start at zero.
    pub fn new() -> (m: WorldMap)
        ensures
            m@.rooms == Seq::<RoomView>::empty(),
            m@.room_indexer == 0,
            m@.spawn is None,
            m@.wf(),
    {
        let m = WorldMap { rooms: Vec::new(), room_indexer: 0, spawn: None };
        proof {
            assert(m@.rooms =~= Seq::<RoomView>::empty());
        }
        m
    }

    /// Allocates a fresh room id and returns a room carrying it; the room is
    /// not yet in the map — the caller wires exits first, then inserts it.
    pub fn create_room(&mut self, description: &str) -> (r: Room)
        requires
            old(self)@.wf(),
            old(self)@.room_indexer < u64::MAX,
        ensures
            r@ == (RoomView {
                id: old(self)@.room_indexer,
                description: description@,
                next_gate: None,
                previous_gate: None,
            }),
            final(self)@.rooms == old(self)@.rooms,
            final(self)@.spawn == old(self)@.spawn,
            final(self)@.room_indexer == old(self)@.room_indexer + 1,
            final(self)@.wf(),
    {
        let room_id = self.room_indexer;
        self.room_indexer = self.room_indexer + 1;
        Room::new(room_id, description)
    }

    /// Designates the room entities appear in at the start.
    pub fn set_spawn(&mut self, room_id: RoomId)
        ensures
            final(self)@ == (WorldMapView { spawn: Some(room_id), ..old(self)@ }),
    {
        self.spawn = Some(room_id);
    }

    /// The designated spawn room; construction must have set one.
    pub fn spawn(&self) -> (r: RoomId)
        requires
            self@.spawn is Some,
        ensures
            r == self@.spawn->0,
    {
        match self.spawn {
            Some(r) => r,
            None => {
                proof {
                    assert(false);
                }
                0
            },
        }
    }

    pub fn has_spawn(&self) -> (r: bool)
        ensures
            r == (self@.spawn is Some),
    {
        self.spawn.is_some()
    }

    /// Puts `room` into the map, replacing any room with the same id.
    pub fn insert_room(&mut self, room: Room)
        requires
            old(self)@.wf(),
            room@.id < old(self)@.room_indexer,
        ensures
            final(self)@.wf(),
            final(self)@.spawn == old(self)@.spawn,
            final(self)@.room_indexer == old(self)@.room_indexer,
            final(self)@.contains_room(room@.id),
            final(self)@.spec_room(room@.id) == room@,
            forall|id: RoomId|
                id != room@.id ==> (#[trigger] final(self)@.contains_room(id))
                    == old(self)@.contains_room(id),
            forall|id: RoomId|
                id != room@.id && old(self)@.contains_room(id)
                    ==> (#[trigger] final(self)@.spec_room(id)) == old(self)@.spec_room(id),
    {
        let ghost oldv = self@;
        let ghost rv = room@;
        let rid = room.id();
        let n = self.rooms.len();
        let mut i: usize = 0;
        let mut hit: Option<usize> = None;
        while i < n
            invariant
                i <= n,
                n == self@.rooms.len(),
                self@ == oldv,
                rid == rv.id,
                match hit {
                    Some(k) => k < n && oldv.rooms[k as int].id == rid,
                    None => forall|j: int| 0 <= j < i ==> (#[trigger] oldv.rooms[j]).id != rid,
                },
            decreases n - i,
        {
            if self.rooms[i].id() == rid {
                hit = Some(i);
            }
            i += 1;
        }
        match hit {
            Some(k) => {
                self.rooms[k] = room;
                proof {
                    assert(self@.rooms =~= oldv.rooms.update(k as int, rv));
                }
            },
            None => {
                self.rooms.push(room);
                proof {
                    assert(self@.rooms =~= oldv.rooms.push(rv));
                }
            },
        }
        proof {
            let newv = self@;
            assert forall|a: int, b: int| 0 <= a < b < newv.rooms.len() implies (
            #[trigger] newv.rooms[a]).id != (#[trigger] newv.rooms[b]).id by {
                match hit {
                    Some(k) => {
                        if a != k && b != k {
                            assert(newv.rooms[a] == oldv.rooms[a]);
                            assert(newv.rooms[b] == oldv.rooms[b]);
                        } else if a == k {
                            assert(newv.rooms[b] == oldv.rooms[b]);
                            assert(oldv.rooms[k as int].id == rv.id);
                        } else {
                            assert(newv.rooms[a] == oldv.rooms[a]);
                            assert(oldv.rooms[k as int].id == rv.id);
                        }
                    },
                    None => {
                        if b == newv.rooms.len() - 1 {
                            assert(newv.rooms[a] == oldv.rooms[a]);
                        } else {
                            assert(newv.rooms[a] == oldv.rooms[a]);
                            assert(newv.rooms[b] == oldv.rooms[b]);
                        }
                    },
                }
            }
            assert(newv.wf());
            assert(newv.contains_room(rv.id)) by {
                match hit {
                    Some(k) => assert(newv.rooms[k as int].id == rv.id),
                    None => assert(newv.rooms[newv.rooms.len() - 1].id == rv.id),
                }
            }
            newv.lemma_room_index(rv.id);
            match hit {
                Some(k) => assert(newv.spec_room(rv.id) == rv),
                None => assert(newv.spec_room(rv.id) == rv),
            }
            assert forall|id: RoomId| id != rv.id implies (#[trigger] newv.contains_room(id))
                == oldv.contains_room(id) by {
                if newv.contains_room(id) {
                    let w = choose|w: int|
                        0 <= w < newv.rooms.len() && (#[trigger] newv.rooms[w]).id == id;
                    assert(newv.rooms[w].id == id);
                    match hit {
                        Some(k) => {
                            assert(w != k);
                            assert(oldv.rooms[w].id == id);
                        },
                        None => {
                            assert(w != newv.rooms.len() - 1);
                            assert(oldv.rooms[w].id == id);
                        },
                    }
                }
                if oldv.contains_room(id) {
                    let w = choose|w: int|
                        0 <= w < oldv.rooms.len() && (#[trigger] oldv.rooms[w]).id == id;
                    match hit {
                        Some(k) => {
                            assert(w != k);
                            assert(newv.rooms[w].id == id);
                        },
                        None => {
                            assert(newv.rooms[w].id == id);
                        },
                    }
                }
            }
            assert forall|id: RoomId| id != rv.id && oldv.contains_room(id) implies (
            #[trigger] newv.spec_room(id)) == oldv.spec_room(id) by {
                oldv.lemma_room_index(id);
                newv.lemma_room_index(id);
                let wo = oldv.room_index(id);
                let wn = newv.room_index(id);
                match hit {
                    Some(k) => {
                        assert(wo != k);
                        assert(newv.rooms[wo].id == id);
                        assert(wn == wo);
                        assert(newv.rooms[wn] == oldv.rooms[wo]);
                    },
                    None => {
                        assert(newv.rooms[wo].id == id);
                        assert(wn == wo);
                        assert(newv.rooms[wn] == oldv.rooms[wo]);
                    },
                }
            }
        }
    }

    /// Whether a room with id `id` is in the map.
    pub fn contains_room(&self, id: RoomId) -> (r: bool)
        ensures
            r == self@.contains_room(id),
    {
        let n = self.rooms.len();
        let mut i: usize = 0;
        while i < n
            invariant
                i <= n,
                n == self@.rooms.len(),
                forall|j: int| 0 <= j < i ==> (#[trigger] self@.rooms[j]).id != id,
            decreases n - i,
        {
            if self.rooms[i].id() == id {
                proof {
                    assert(self@.rooms[i as int].id == id);
                }
                return true;
            }
            i += 1;
        }
        proof {
            if self@.contains_room(id) {
                let j = choose|j: int|
                    0 <= j < self@.rooms.len() && (#[trigger] self@.rooms[j]).id == id;
                assert(self@.rooms[j].id != id);
            }
        }
        false
    }

    /// Checks that every gate of every room leads into the map.
    pub fn check_closed(&self) -> (r: bool)
        requires
            self@.wf(),
        ensures
            r == self@.closed(),
    {
        let n = self.rooms.len();
        let mut i: usize = 0;
        while i < n
            invariant
                i <= n,
                n == self@.rooms.len(),
                self@.wf(),
                forall|j: int|
                    0 <= j < i ==> room_gates_ok(self@, #[trigger] self@.rooms[j]),
            decreases n - i,
        {
            let room = &self.rooms[i];
            let ok_next = match room.exit(ExitDirection::Next) {
                Some(g) => self.contains_room(g.to()),
                None => true,
            };
            let ok_prev = match room.exit(ExitDirection::Previous) {
                Some(g) => self.contains_room(g.to()),
                None => true,
            };
            if !(ok_next && ok_prev) {
                proof {
                    let id = self@.rooms[i as int].id;
                    assert(self@.contains_room(id));
                    self@.lemma_room_index(id);
                    assert(self@.spec_room(id) == self@.rooms[i as int]);
                    assert(!room_gates_ok(self@, self@.spec_room(id)));
                }
                return false;
            }
            proof {
                assert(room_gates_ok(self@, self@.rooms[i as int]));
            }
            i += 1;
        }
        proof {
            assert forall|id: RoomId| #[trigger] self@.contains_room(id) implies room_gates_ok(
                self@,
                self@.spec_room(id),
            ) by {
                self@.lemma_room_index(id);
                let k = self@.room_index(id);
                assert(room_gates_ok(self@, self@.rooms[k]));
            }
        }
        true
    }

    /// The room with id `room_id`; the map must contain it.
    pub fn room(&self, room_id: &RoomId) -> (r: &Room)
        requires
            self@.wf(),
            self@.contains_room(*room_id),
        ensures
            r@ == self@.spec_room(*room_id),
    {
        proof {
            self@.lemma_room_index(*room_id);
        }
        let n = self.rooms.len();
        let mut i: usize = 0;
        while i < n
            invariant
                i <= n,
                n == self@.rooms.len(),
                self@.wf(),
                self@.contains_room(*room_id),
                forall|j: int| 0 <= j < i ==> (#[trigger] self@.rooms[j]).id != *room_id,
            decreases n - i,
        {
            if self.rooms[i].id() == *room_id {
                let r = &self.rooms[i];
                proof {
                    assert(r@ == self@.rooms[i as int]);
                    assert(self@.rooms[i as int].id == *room_id);
                    self@.lemma_room_index(*room_id);
                    assert(i as int == self@.room_index(*room_id));
                }
                return r;
            }
            i += 1;
        }
        proof {
            assert(false);
        }
        &self.rooms[0]
    }
}

// ---------------------------------------------------------------------------
// Description rendering
// ---------------------------------------------------------------------------

/// A `===` separator starts at position `i` of `s`.
pub open spec fn sep_at(s: Seq<char>, i: int) -> bool {
    i + 3 <= s.len() && s[i] == '=' && s[i + 1] == '=' && s[i + 2] == '='
}

/// The position of the first separator at or after `i`, or the length if
/// there is none.
pub open spec fn find_sep_from(s: Seq<char>, i: int) -> int
    decreases s.len() - i,
{
    if i < 0 || i + 3 > s.len() {
        s.len() as int
    } else if sep_at(s, i) {
        i
    } else {
        find_sep_from(s, i + 1)
    }
}

/// The glances articled with "a "/"an ", empties dropped, from index `i` on.
pub open spec fn articled_from(gs: Seq<Seq<char>>, i: int) -> Seq<Seq<char>>
    decreases gs.len() - i,
{
    if i < 0 || i >= gs.len() {
        Seq::<Seq<char>>::empty()
    } else {
        let rest = articled_from(gs, i + 1);
        if gs[i].len() == 0 {
            rest
        } else {
            seq![aan_spec(gs[i])] + rest
        }
    }
}

/// The comma/"and" joined listing of `parts` from index `i` on, with the
/// final period.  For one part: "part."; for more: "p0, p1, and p2.".
pub open spec fn glance_list_from(parts: Seq<Seq<char>>, i: int) -> Seq<char>
    decreases parts.len() - i,
{
    if i < 0 || i >= parts.len() {
        Seq::<char>::empty()
    } else {
        let sepd = if i == parts.len() - 1 && i != 0 {
            ", and "@ + parts[i]
        } else if i > 0 {
            ", "@ + parts[i]
        } else {
            parts[i]
        };
        let dotted = if i == parts.len() - 1 {
            sepd + "."@
        } else {
            sepd
        };
        dotted + glance_list_from(parts, i + 1)
    }
}

/// What a room description renders to: the trimmed static text before the
/// first `===` separator, and, if any non-empty glance is present, the
/// separator line followed by "You see " and the articled glance listing.
pub open spec fn render_spec(desc: Seq<char>, glances: Seq<Seq<char>>) -> Seq<char> {
    let base = trim_spec(desc.subrange(0, find_sep_from(desc, 0)));
    let parts = articled_from(glances, 0);
    if parts.len() == 0 {
        base
    } else {
        base + "\n===\nYou see "@ + glance_list_from(parts, 0)
    }
}

impl Room {
    /// Renders this room's description around the given co-located glances.
    pub fn generate_room_description(&self, glances: &Vec<String>) -> (out: String)
        ensures
            out@ == render_spec(self@.description, glances.deep_view()),
    {
        let ghost dv = self@.description;
        let ghost gv = glances.deep_view();
        // locate the first separator
        let desc: &str = self.description.as_str();
        let len = desc.unicode_len();
        let mut p: usize = 0;
        while len >= 3 && p <= len - 3 && !(desc.get_char(p) == '=' && desc.get_char(p + 1) == '='
            && desc.get_char(p + 2) == '=')
            invariant
                p <= len,
                len == dv.len(),
                desc@ == dv,
                find_sep_from(dv, 0) == find_sep_from(dv, p as int),
            decreases len - p,
        {
            p += 1;
        }
        let cut: usize = if len < 3 || p > len - 3 {
            len
        } else {
            p
        };
        proof {
            assert(find_sep_from(dv, p as int) == cut as int);
        }
        let before = desc.substring_char(0, cut);
        let mut out = trim_str(before);
        let ghost base0 = out@;
        proof {
            assert(before@ =~= dv.subrange(0, find_sep_from(dv, 0)));
        }
        // article the non-empty glances
        let mut parts: Vec<String> = Vec::new();
        let mut i: usize = 0;
        while i < glances.len()
            invariant
                i <= gv.len(),
                gv == glances.deep_view(),
                gv.len() == glances@.len(),
                articled_from(gv, 0) == parts.deep_view() + articled_from(gv, i as int),
            decreases gv.len() - i,
        {
            let ghost partsv0 = parts.deep_view();
            let g = &glances[i];
            proof {
                assert(gv[i as int] == g@);
            }
            if g.as_str().unicode_len() > 0 {
                let a = aan(g.as_str());
                parts.push(a);
                proof {
                    assert(parts.deep_view() =~= partsv0.push(aan_spec(gv[i as int])));
                    assert(partsv0 + articled_from(gv, i as int) =~= parts.deep_view()
                        + articled_from(gv, i + 1));
                }
            }
            i += 1;
        }
        let ghost pv = parts.deep_view();
        proof {
            assert(pv + articled_from(gv, gv.len() as int) =~= pv);
            assert(pv == articled_from(gv, 0));
        }
        if parts.len() == 0 {
            return out;
        }
        out.append("\n===\nYou see ");
        let k = parts.len();
        let mut j: usize = 0;
        while j < k
            invariant
                j <= k,
                k == pv.len(),
                pv == parts.deep_view(),
                k == parts@.len(),
                out@ + glance_list_from(pv, j as int) == base0 + "\n===\nYou see "@
                    + glance_list_from(pv, 0),
            decreases k - j,
        {
            let ghost out0 = out@;
            if j == k - 1 && j != 0 {
                out.append(", and ");
            } else if j > 0 {
                out.append(", ");
            }
            out.append(parts[j].as_str());
            if j == k - 1 {
                out.append(".");
            }
            proof {
                let sepd = if j as int == pv.len() - 1 && j != 0 {
                    ", and "@ + pv[j as int]
                } else if j > 0 {
                    ", "@ + pv[j as int]
                } else {
                    pv[j as int]
                };
                let dotted = if j as int == pv.len() - 1 {
                    sepd + "."@
                } else {
                    sepd
                };
                assert(out@ =~= out0 + dotted);
                assert(glance_list_from(pv, j as int) == dotted + glance_list_from(pv, j + 1));
                assert(out@ + glance_list_from(pv, j + 1) =~= out0 + glance_list_from(
                    pv,
                    j as int,
                ));
            }
            j += 1;
        }
        proof {
            assert(out@ + glance_list_from(pv, k as int) =~= out@);
            assert(out@ =~= base0 + "\n===\nYou see "@ + glance_list_from(pv, 0));
        }
        out
    }

    /// Renders this room's description, listing the glances of everything
    /// currently standing in it.
    pub fn description(&self, world: &World) -> (out: String)
        requires
            world@.wf(),
        ensures
            out@ == render_spec(self@.description, world@.room_glances(self@.id)),
    {
        let glances = world.collect_room_glances(self.id);
        self.generate_room_description(&glances)
    }
}

} // verus!
