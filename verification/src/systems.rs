//! The two intent resolvers, run once per turn.
//!
//! The movement resolver overwrites `InRoom` with each pending move and
//! renders the last mover's destination.  The inventory resolver processes
//! pending inventory changes in entity order, moving entities between
//! containers and the world; a missing `Storage` or `InRoom` on a container
//! aborts the rest of the batch, as the turn controller documents.  Both
//! clear all their intents at the end of the batch, whatever the outcome.

use vstd::prelude::*;
use vstd::string::*;
use crate::components::{Entity, RoomId};
use crate::map::{render_spec, WorldMap};
use crate::text::{dec_str, usize_to_string};
use crate::world::{
    lemma_push_contains, lemma_push_no_dup, lemma_seq_remove_first, seq_remove_first, World,
    WorldView,
};

verus! {

// ---------------------------------------------------------------------------
// Validity of pending intents
// ---------------------------------------------------------------------------

impl WorldView {
    /// Entities inside containers always carry a description (they were
    /// found by glance to get there).
    pub open spec fn stored_described(self) -> bool {
        forall|c: Entity, e: Entity|
            c < self.n() && #[trigger] self.stored_in(c, e) ==> self.has_desc(e)
    }

    /// `e`'s pending inventory change, if any, talks about real places:
    /// a source container actually holding `e`, and an existing target.
    pub open spec fn change_valid(self, e: Entity) -> bool {
        self.has_change(e) ==> match self.change_of(e) {
            (Some(f), Some(t)) => t < self.n() && self.stored_in(f, e),
            (Some(f), None) => self.stored_in(f, e),
            (None, Some(t)) => t < self.n() && self.has_desc(e),
            (None, None) => true,
        }
    }

    pub open spec fn changes_valid(self) -> bool {
        forall|e: Entity| e < self.n() ==> #[trigger] self.change_valid(e)
    }

    /// Every pending move targets a room the map contains.
    pub open spec fn moves_valid(self, m: crate::map::WorldMapView) -> bool {
        forall|e: Entity|
            e < self.n() && #[trigger] self.has_move(e) ==> m.contains_room(self.move_of(e))
    }

    /// Every placed entity stands in a room the map contains.
    pub open spec fn placed_in_map(self, m: crate::map::WorldMapView) -> bool {
        forall|e: Entity|
            e < self.n() && #[trigger] self.has_in_room(e) ==> m.contains_room(self.room_of(e))
    }
}

// ---------------------------------------------------------------------------
// Movement resolution
// ---------------------------------------------------------------------------

impl WorldView {
    /// All pending moves applied (to entities that stand in a room) and the
    /// move intents cleared.
    pub open spec fn moves_resolved(self) -> WorldView {
        WorldView {
            in_rooms: Seq::new(
                self.in_rooms.len(),
                |x: int|
                    if self.has_move(x as Entity) && self.has_in_room(x as Entity) {
                        Some(self.move_of(x as Entity))
                    } else {
                        self.in_rooms[x]
                    },
            ),
            moves: Seq::new(self.moves.len(), |x: int| None),
            ..self
        }
    }

    /// The largest entity id below `i` carrying a move while standing in a
    /// room — the mover whose destination gets announced.
    pub open spec fn last_mover_below(self, i: int) -> Option<Entity>
        decreases i,
    {
        if i <= 0 {
            None
        } else {
            let e = (i - 1) as Entity;
            if self.has_move(e) && self.has_in_room(e) {
                Some(e)
            } else {
                self.last_mover_below(i - 1)
            }
        }
    }

    pub open spec fn last_mover(self) -> Option<Entity> {
        self.last_mover_below(self.n() as int)
    }
}

/// Consumes `ApplyMove` intents: movers' `InRoom` is overwritten with the
/// requested room, all moves are cleared, and the last mover's destination
/// room is rendered.
pub struct MovementSystem;

impl MovementSystem {
    /// Runs one movement resolution pass.
    pub fn run(world: &mut World, map: &WorldMap) -> (out: Option<String>)
        requires
            old(world)@.wf(),
            map@.wf(),
            old(world)@.moves_valid(map@),
        ensures
            final(world)@ == old(world)@.moves_resolved(),
            final(world)@.wf(),
            match old(world)@.last_mover() {
                Some(m) => out is Some && out->0@ == render_spec(
                    map@.spec_room(old(world)@.move_of(m)).description,
                    old(world)@.moves_resolved().room_glances(old(world)@.move_of(m)),
                ),
                None => out is None,
            },
            old(world)@.location_exclusive() ==> final(world)@.location_exclusive(),
            old(world)@.stored_described() ==> final(world)@.stored_described(),
            old(world)@.changes_valid() ==> final(world)@.changes_valid(),
    {
        let ghost oldv = world@;
        let n = world.num_entities();
        let mut last: Option<RoomId> = None;
        let mut e: usize = 0;
        while e < n
            invariant
                e <= n,
                n == world@.n(),
                world@.wf(),
                oldv.wf(),
                map@.wf(),
                oldv.moves_valid(map@),
                world@ == (WorldView { in_rooms: world@.in_rooms, ..oldv }),
                world@.in_rooms.len() == oldv.in_rooms.len(),
                forall|x: Entity|
                    x < n && !(x < e && oldv.has_move(x) && oldv.has_in_room(x))
                        ==> (#[trigger] world@.in_rooms[x as int]) == oldv.in_rooms[x as int],
                forall|x: Entity|
                    x < e && oldv.has_move(x) && oldv.has_in_room(x)
                        ==> (#[trigger] world@.in_rooms[x as int]) == Some(oldv.move_of(x)),
                last == match oldv.last_mover_below(e as int) {
                    Some(m) => Some(oldv.move_of(m)),
                    None => None::<RoomId>,
                },
                last is Some ==> map@.contains_room(last->0),
            decreases n - e,
        {
            let ghost prev = world@;
            proof {
                assert(world@.moves == oldv.moves);
                assert(world@.has_move(e) == oldv.has_move(e));
                assert(world@.in_rooms[e as int] == oldv.in_rooms[e as int]);
                assert(world@.has_in_room(e) == oldv.has_in_room(e));
            }
            match world.get_move(e) {
                Some(target) => {
                    let placed = world.get_in_room(e);
                    if placed.is_some() {
                        world.set_in_room(e, target);
                        last = Some(target);
                        proof {
                            assert(oldv.has_move(e) && oldv.has_in_room(e));
                            assert(target == oldv.move_of(e));
                            assert(oldv.last_mover_below(e + 1) == Some(e));
                            assert(map@.contains_room(oldv.move_of(e)));
                            assert(world@.in_rooms == prev.in_rooms.update(
                                e as int,
                                Some(target),
                            ));
                        }
                    } else {
                        proof {
                            assert(oldv.has_move(e) && !oldv.has_in_room(e));
                            assert(oldv.last_mover_below(e + 1) == oldv.last_mover_below(e as int));
                        }
                    }
                },
                None => {
                    proof {
                        assert(!oldv.has_move(e));
                        assert(oldv.last_mover_below(e + 1) == oldv.last_mover_below(e as int));
                    }
                },
            }
            proof {
                assert forall|x: Entity|
                    x < n && !(x < e + 1 && oldv.has_move(x) && oldv.has_in_room(x)) implies (
                #[trigger] world@.in_rooms[x as int]) == oldv.in_rooms[x as int] by {
                    if x != e {
                        assert(world@.in_rooms[x as int] == prev.in_rooms[x as int]);
                    }
                }
                assert forall|x: Entity|
                    x < e + 1 && oldv.has_move(x) && oldv.has_in_room(x) implies (
                #[trigger] world@.in_rooms[x as int]) == Some(oldv.move_of(x)) by {
                    if x != e {
                        assert(world@.in_rooms[x as int] == prev.in_rooms[x as int]);
                    }
                }
            }
            e += 1;
        }
        world.clear_moves();
        proof {
            assert(world@.in_rooms =~= oldv.moves_resolved().in_rooms);
            assert(world@.moves =~= oldv.moves_resolved().moves);
            assert(world@ == oldv.moves_resolved());
            let newv = world@;
            assert forall|x: Entity| x < newv.n() implies newv.has_in_room(x) == oldv.has_in_room(
                x,
            ) by {
                assert(newv.in_rooms[x as int] == (if x < n && oldv.has_move(x)
                    && oldv.has_in_room(x) {
                    Some(oldv.move_of(x))
                } else {
                    oldv.in_rooms[x as int]
                }));
            }
            assert forall|c: Entity, x: Entity| c < newv.n() implies (#[trigger] newv.stored_in(
                c,
                x,
            )) == oldv.stored_in(c, x) by {}
            if oldv.location_exclusive() {
                assert forall|x: Entity|
                    x < newv.n() implies ((#[trigger] newv.has_in_room(x))
                    <==> !newv.in_some_storage(x)) by {
                    assert(oldv.has_in_room(x) <==> !oldv.in_some_storage(x));
                    if oldv.in_some_storage(x) {
                        let c = choose|c: Entity| c < oldv.n() && #[trigger] oldv.stored_in(c, x);
                        assert(newv.stored_in(c, x));
                    }
                    if newv.in_some_storage(x) {
                        let c = choose|c: Entity| c < newv.n() && #[trigger] newv.stored_in(c, x);
                        assert(oldv.stored_in(c, x));
                    }
                }
                assert forall|c1: Entity, c2: Entity, x: Entity|
                    c1 < newv.n() && c2 < newv.n() && #[trigger] newv.stored_in(c1, x)
                        && #[trigger] newv.stored_in(c2, x) implies c1 == c2 by {
                    assert(oldv.stored_in(c1, x) && oldv.stored_in(c2, x));
                }
                assert forall|c: Entity|
                    c < newv.n() && newv.has_storage(c) implies (#[trigger] newv.storage_of(
                    c,
                )).no_duplicates() by {
                    assert(oldv.storage_of(c).no_duplicates());
                    assert(newv.storage_of(c) == oldv.storage_of(c));
                }
                assert(newv.location_exclusive());
            }
            if oldv.stored_described() {
                assert forall|c: Entity, x: Entity|
                    c < newv.n() && #[trigger] newv.stored_in(c, x) implies newv.has_desc(x) by {
                    assert(oldv.stored_in(c, x));
                    assert(oldv.has_desc(x));
                }
            }
            if oldv.changes_valid() {
                assert forall|x: Entity| x < newv.n() implies #[trigger] newv.change_valid(x) by {
                    assert(oldv.change_valid(x));
                    if newv.has_change(x) {
                        match newv.change_of(x) {
                            (Some(f), Some(t)) => {
                                assert(newv.stored_in(f, x) == oldv.stored_in(f, x));
                            },
                            (Some(f), None) => {
                                assert(newv.stored_in(f, x) == oldv.stored_in(f, x));
                            },
                            (None, Some(t)) => {},
                            (None, None) => {},
                        }
                    }
                }
            }
        }
        match last {
            Some(id) => {
                let room = map.room(&id);
                let ghost m = oldv.last_mover()->0;
                proof {
                    assert(oldv.last_mover() is Some);
                    assert(id == oldv.move_of(m));
                }
                Some(room.description(world))
            },
            None => {
                proof {
                    assert(oldv.last_mover() is None);
                }
                None
            },
        }
    }
}

// ---------------------------------------------------------------------------
// Inventory resolution: error texts
// ---------------------------------------------------------------------------

pub open spec fn transfer_failed_text(e: Entity) -> Seq<char> {
    "Error: Failed to move item "@ + dec_str(e as nat)
        + " between containers because one or both containers are missing the Storage component."@
}

pub open spec fn drop_failed_text(e: Entity, f: Entity) -> Seq<char> {
    "Error: Failed to drop item "@ + dec_str(e as nat) + " because its container "@ + dec_str(
        f as nat,
    ) + " is not attached to any room."@
}

pub open spec fn no_storage_text(c: Entity) -> Seq<char> {
    "Error: Expected entity "@ + dec_str(c as nat) + " to have a storage component."@
}

pub open spec fn pickup_no_room_text(e: Entity) -> Seq<char> {
    "Error: Failed to pick up item "@ + dec_str(e as nat) + " because it is not attached to a room."@
}

pub open spec fn none_none_text() -> Seq<char> {
    "Error: Inventory change names no source and no destination."@
}

fn transfer_failed_msg(e: Entity) -> (s: String)
    ensures
        s@ == transfer_failed_text(e),
{
    let mut s = String::from_str("Error: Failed to move item ");
    let num = usize_to_string(e);
    s.append(num.as_str());
    s.append(
        " between containers because one or both containers are missing the Storage component.",
    );
    proof {
        assert(s@ =~= transfer_failed_text(e));
    }
    s
}

fn drop_failed_msg(e: Entity, f: Entity) -> (s: String)
    ensures
        s@ == drop_failed_text(e, f),
{
    let mut s = String::from_str("Error: Failed to drop item ");
    let num = usize_to_string(e);
    s.append(num.as_str());
    s.append(" because its container ");
    let num2 = usize_to_string(f);
    s.append(num2.as_str());
    s.append(" is not attached to any room.");
    proof {
        assert(s@ =~= drop_failed_text(e, f));
    }
    s
}

fn no_storage_msg(c: Entity) -> (s: String)
    ensures
        s@ == no_storage_text(c),
{
    let mut s = String::from_str("Error: Expected entity ");
    let num = usize_to_string(c);
    s.append(num.as_str());
    s.append(" to have a storage component.");
    proof {
        assert(s@ =~= no_storage_text(c));
    }
    s
}

fn pickup_no_room_msg(e: Entity) -> (s: String)
    ensures
        s@ == pickup_no_room_text(e),
{
    let mut s = String::from_str("Error: Failed to pick up item ");
    let num = usize_to_string(e);
    s.append(num.as_str());
    s.append(" because it is not attached to a room.");
    proof {
        assert(s@ =~= pickup_no_room_text(e));
    }
    s
}

fn none_none_msg() -> (s: String)
    ensures
        s@ == none_none_text(),
{
    String::from_str("Error: Inventory change names no source and no destination.")
}

// ---------------------------------------------------------------------------
// Inventory resolution: the mathematical model
// ---------------------------------------------------------------------------

/// The state after part of an inventory batch: the world so far, the error
/// messages so far, whether the batch stopped early, and whether the stop
/// was a fatal invariant violation.
pub ghost struct InvStep {
    pub w: WorldView,
    pub msgs: Seq<Seq<char>>,
    pub stop: bool,
    pub fatal: bool,
}

/// What resolving entity `e`'s pending inventory change does to the world.
///
/// Container-to-container transfer requires `Storage` on both sides; a
/// missing one surfaces an error and stops the batch.  Dropping into the
/// world requires the source container to stand in a room.  Picking up
/// requires the moving entity to stand in a room; a violation there is
/// fatal.  A change with neither source nor destination is logged and
/// skipped.
pub open spec fn inv_apply(w: WorldView, e: Entity) -> InvStep {
    if !w.has_change(e) {
        InvStep { w, msgs: seq![], stop: false, fatal: false }
    } else {
        match w.change_of(e) {
            (Some(f), Some(t)) => {
                if !w.has_storage(f) || !w.has_storage(t) {
                    InvStep { w, msgs: seq![transfer_failed_text(e)], stop: true, fatal: false }
                } else {
                    let w1 = w.with_items(f, seq_remove_first(w.storage_of(f), e));
                    let w2 = w1.with_items(t, w1.storage_of(t).push(e));
                    InvStep { w: w2, msgs: seq![], stop: false, fatal: false }
                }
            },
            (Some(f), None) => {
                if !w.has_in_room(f) {
                    InvStep { w, msgs: seq![drop_failed_text(e, f)], stop: true, fatal: false }
                } else if !w.has_storage(f) {
                    InvStep { w, msgs: seq![no_storage_text(f)], stop: true, fatal: true }
                } else {
                    let w1 = w.with_items(f, seq_remove_first(w.storage_of(f), e));
                    let w2 = w1.with_in_room(e, w.room_of(f));
                    InvStep { w: w2, msgs: seq![], stop: false, fatal: false }
                }
            },
            (None, Some(t)) => {
                if !w.has_in_room(e) {
                    InvStep { w, msgs: seq![pickup_no_room_text(e)], stop: true, fatal: true }
                } else if !w.has_storage(t) {
                    InvStep { w, msgs: seq![no_storage_text(t)], stop: true, fatal: true }
                } else {
                    let w1 = w.without_in_room(e);
                    let w2 = w1.with_items(t, w1.storage_of(t).push(e));
                    InvStep { w: w2, msgs: seq![], stop: false, fatal: false }
                }
            },
            (None, None) => {
                InvStep { w, msgs: seq![none_none_text()], stop: false, fatal: false }
            },
        }
    }
}

/// The batch folded over entities `0 .. i`, stopping early if a step stops.
pub open spec fn inv_resolved_upto(w: WorldView, i: int) -> InvStep
    decreases i,
{
    if i <= 0 {
        InvStep { w, msgs: seq![], stop: false, fatal: false }
    } else {
        let prev = inv_resolved_upto(w, i - 1);
        if prev.stop {
            prev
        } else {
            let step = inv_apply(prev.w, (i - 1) as Entity);
            InvStep { w: step.w, msgs: prev.msgs + step.msgs, stop: step.stop, fatal: step.fatal }
        }
    }
}

/// The whole batch: all entities processed (or the batch stopped), then all
/// pending inventory changes cleared, whatever the outcome.
pub open spec fn inv_resolved(w: WorldView) -> InvStep {
    let r = inv_resolved_upto(w, w.n() as int);
    InvStep { w: r.w.cleared_changes(), ..r }
}

/// One resolution step keeps the store well-formed, keeps location
/// exclusivity, keeps stored entities described, touches no column besides
/// placement and containment, and does not invalidate the other entities'
/// pending changes.
pub proof fn lemma_inv_apply(w: WorldView, e: Entity)
    requires
        w.wf(),
        w.location_exclusive(),
        w.stored_described(),
        e < w.n(),
        w.change_valid(e),
    ensures
        ({
            let s = inv_apply(w, e);
            &&& s.w.wf()
            &&& s.w.location_exclusive()
            &&& s.w.stored_described()
            &&& s.w.n() == w.n()
            &&& s.w.changes == w.changes
            &&& s.w.moves == w.moves
            &&& s.w.descriptions == w.descriptions
            &&& s.w.players == w.players
            &&& s.w.npcs == w.npcs
            &&& s.w.items == w.items
            &&& s.w.in_rooms.len() == w.in_rooms.len()
            &&& forall|c: Entity| c < w.n() ==> (#[trigger] s.w.has_storage(c)) == w.has_storage(c)
            &&& forall|x: Entity|
                x < w.n() && x != e ==> (#[trigger] s.w.in_rooms[x as int]) == w.in_rooms[x as int]
            &&& forall|e2: Entity|
                e2 < w.n() && e2 != e && w.change_valid(e2) ==> s.w.change_valid(e2)
        }),
{
    let s = inv_apply(w, e);
    if !w.has_change(e) {
    } else {
        match w.change_of(e) {
            (Some(f), Some(t)) => {
                if !w.has_storage(f) || !w.has_storage(t) {
                } else {
                    assert(w.stored_in(f, e));
                    let itemsf = w.storage_of(f);
                    assert(itemsf.no_duplicates());
                    lemma_seq_remove_first(itemsf, e);
                    let removed = seq_remove_first(itemsf, e);
                    let w1 = w.with_items(f, removed);
                    let base = w1.storage_of(t);
                    let w2 = w1.with_items(t, base.push(e));
                    assert(s.w == w2);
                    assert(base == if t == f {
                        removed
                    } else {
                        w.storage_of(t)
                    });
                    // `e` is in no container but `f`, so `base` lacks it
                    assert(!base.contains(e)) by {
                        if t != f && w.storage_of(t).contains(e) {
                            assert(w.stored_in(t, e) && w.stored_in(f, e));
                        }
                    }
                    // membership after the step
                    assert forall|c: Entity, x: Entity| c < w.n() implies (#[trigger] w2.stored_in(
                        c,
                        x,
                    )) == ((w.stored_in(c, x) && !(c == f && x == e)) || (c == t && x == e)) by {
                        lemma_push_contains(base, e, x);
                        if c == t {
                            assert(w2.storage_of(t) == base.push(e));
                            if t == f {
                            } else {
                                assert(base == w.storage_of(t));
                            }
                        } else if c == f {
                            assert(w2.storage_of(f) == removed);
                        } else {
                            assert(w2.storages[c as int] == w.storages[c as int]);
                        }
                    }
                    assert forall|c: Entity| c < w.n() implies ((#[trigger] w2.has_storage(c))
                        == w.has_storage(c)) by {
                        if c != f && c != t {
                            assert(w2.storages[c as int] == w.storages[c as int]);
                        }
                    }
                    assert forall|c: Entity|
                        c < w.n() && w2.has_storage(c) implies (#[trigger] w2.storage_of(
                        c,
                    )).no_duplicates() by {
                        if c == t {
                            assert(w2.storage_of(t) == base.push(e));
                            if t == f {
                            } else {
                                assert(base == w.storage_of(t));
                                assert(base.no_duplicates());
                            }
                            lemma_push_no_dup(base, e);
                        } else if c == f {
                            assert(w2.storage_of(f) == removed);
                        } else {
                            assert(w2.storage_of(c) == w.storage_of(c));
                            assert(w.storage_of(c).no_duplicates());
                        }
                    }
                    assert forall|c: Entity, j: int|
                        c < w.n() && w2.has_storage(c) && 0 <= j < w2.storage_of(c).len() implies (
                    #[trigger] w2.storage_of(c)[j]) < w.n() by {
                        let el = w2.storage_of(c)[j];
                        assert(w2.storage_of(c).contains(el));
                        assert(w2.stored_in(c, el));
                        if w.stored_in(c, el) {
                            let k = choose|k: int|
                                0 <= k < w.storage_of(c).len() && w.storage_of(c)[k] == el;
                            assert(w.storage_of(c)[k] < w.n());
                        } else {
                            assert(el == e);
                        }
                    }
                    assert(w2.has_storage(t));
                    show_transfer_invariants(w, w2, f, t, e);
                }
            },
            (Some(f), None) => {
                assert(w.stored_in(f, e));
                if !w.has_in_room(f) {
                } else if !w.has_storage(f) {
                    assert(false);
                } else {
                    let itemsf = w.storage_of(f);
                    assert(itemsf.no_duplicates());
                    lemma_seq_remove_first(itemsf, e);
                    let removed = seq_remove_first(itemsf, e);
                    let w1 = w.with_items(f, removed);
                    let w2 = w1.with_in_room(e, w.room_of(f));
                    assert(s.w == w2);
                    assert forall|c: Entity, x: Entity| c < w.n() implies (#[trigger] w2.stored_in(
                        c,
                        x,
                    )) == (w.stored_in(c, x) && !(c == f && x == e)) by {
                        if c == f {
                            assert(w2.storage_of(f) == removed);
                        } else {
                            assert(w2.storages[c as int] == w.storages[c as int]);
                        }
                    }
                    assert forall|c: Entity| c < w.n() implies ((#[trigger] w2.has_storage(c))
                        == w.has_storage(c)) by {
                        if c != f {
                            assert(w2.storages[c as int] == w.storages[c as int]);
                        }
                    }
                    assert forall|c: Entity|
                        c < w.n() && w2.has_storage(c) implies (#[trigger] w2.storage_of(
                        c,
                    )).no_duplicates() by {
                        if c == f {
                            assert(w2.storage_of(f) == removed);
                        } else {
                            assert(w2.storage_of(c) == w.storage_of(c));
                            assert(w.storage_of(c).no_duplicates());
                        }
                    }
                    assert forall|c: Entity, j: int|
                        c < w.n() && w2.has_storage(c) && 0 <= j < w2.storage_of(c).len() implies (
                    #[trigger] w2.storage_of(c)[j]) < w.n() by {
                        let el = w2.storage_of(c)[j];
                        assert(w2.storage_of(c).contains(el));
                        assert(w2.stored_in(c, el));
                        if w.stored_in(c, el) {
                            let k = choose|k: int|
                                0 <= k < w.storage_of(c).len() && w.storage_of(c)[k] == el;
                            assert(w.storage_of(c)[k] < w.n());
                        } else {
                            assert(el == e);
                        }
                    }
                    assert(w2.in_rooms =~= w.in_rooms.update(e as int, Some(w.room_of(f))));
                    show_drop_invariants(w, w2, f, e);
                }
            },
            (None, Some(t)) => {
                if !w.has_in_room(e) {
                } else if !w.has_storage(t) {
                } else {
                    let base = w.storage_of(t);
                    let w1 = w.without_in_room(e);
                    let w2 = w1.with_items(t, base.push(e));
                    assert(s.w == w2);
                    assert(!base.contains(e)) by {
                        if base.contains(e) {
                            assert(w.stored_in(t, e));
                            assert(w.in_some_storage(e));
                        }
                    }
                    assert forall|c: Entity, x: Entity| c < w.n() implies (#[trigger] w2.stored_in(
                        c,
                        x,
                    )) == (w.stored_in(c, x) || (c == t && x == e)) by {
                        lemma_push_contains(base, e, x);
                        if c == t {
                            assert(w2.storage_of(t) == base.push(e));
                        } else {
                            assert(w2.storages[c as int] == w.storages[c as int]);
                        }
                    }
                    assert forall|c: Entity| c < w.n() implies ((#[trigger] w2.has_storage(c))
                        == w.has_storage(c)) by {
                        if c != t {
                            assert(w2.storages[c as int] == w.storages[c as int]);
                        }
                    }
                    assert forall|c: Entity|
                        c < w.n() && w2.has_storage(c) implies (#[trigger] w2.storage_of(
                        c,
                    )).no_duplicates() by {
                        if c == t {
                            assert(w2.storage_of(t) == base.push(e));
                            assert(base.no_duplicates());
                            lemma_push_no_dup(base, e);
                        } else {
                            assert(w2.storage_of(c) == w.storage_of(c));
                            assert(w.storage_of(c).no_duplicates());
                        }
                    }
                    assert forall|c: Entity, j: int|
                        c < w.n() && w2.has_storage(c) && 0 <= j < w2.storage_of(c).len() implies (
                    #[trigger] w2.storage_of(c)[j]) < w.n() by {
                        let el = w2.storage_of(c)[j];
                        assert(w2.storage_of(c).contains(el));
                        assert(w2.stored_in(c, el));
                        if w.stored_in(c, el) {
                            let k = choose|k: int|
                                0 <= k < w.storage_of(c).len() && w.storage_of(c)[k] == el;
                            assert(w.storage_of(c)[k] < w.n());
                        } else {
                            assert(el == e);
                        }
                    }
                    assert(w.has_desc(e));
                    assert(w2.in_rooms =~= w.in_rooms.update(e as int, None::<RoomId>));
                    show_pickup_invariants(w, w2, t, e);
                }
            },
            (None, None) => {
            },
        }
    }
}

/// The invariants after a container-to-container transfer of `e` from `f`
/// to `t`.
proof fn show_transfer_invariants(w: WorldView, w2: WorldView, f: Entity, t: Entity, e: Entity)
    requires
        w.wf(),
        w.location_exclusive(),
        w.stored_described(),
        e < w.n(),
        w.stored_in(f, e),
        t < w.n(),
        w2.has_storage(t),
        w2.n() == w.n(),
        w2.in_rooms == w.in_rooms,
        w2.descriptions == w.descriptions,
        w2.changes == w.changes,
        w2.moves == w.moves,
        w2.players == w.players,
        w2.npcs == w.npcs,
        w2.items == w.items,
        w2.storages.len() == w.storages.len(),
        forall|c: Entity|
            c < w.n() ==> ((#[trigger] w2.has_storage(c)) == w.has_storage(c)),
        forall|c: Entity, x: Entity|
            c < w.n() ==> (#[trigger] w2.stored_in(c, x)) == ((w.stored_in(c, x) && !(c == f && x
                == e)) || (c == t && x == e)),
        forall|c: Entity|
            c < w.n() && w2.has_storage(c) ==> (#[trigger] w2.storage_of(c)).no_duplicates(),
        forall|c: Entity, j: int|
            c < w.n() && w2.has_storage(c) && 0 <= j < w2.storage_of(c).len() ==> (
            #[trigger] w2.storage_of(c)[j]) < w.n(),
    ensures
        w2.wf(),
        w2.location_exclusive(),
        w2.stored_described(),
        forall|e2: Entity| e2 < w.n() && e2 != e && w.change_valid(e2) ==> w2.change_valid(e2),
{
    assert(w2.wf());
    // placement is unchanged; containment changed only for `e`
    assert forall|x: Entity|
        x < w2.n() implies ((#[trigger] w2.has_in_room(x)) <==> !w2.in_some_storage(x)) by {
        assert(w2.has_in_room(x) == w.has_in_room(x));
        if x == e {
            assert(w2.stored_in(t, e));
            assert(w2.in_some_storage(e));
            assert(w.in_some_storage(e));
            assert(!w.has_in_room(e));
        } else {
            if w.in_some_storage(x) {
                let c = choose|c: Entity| c < w.n() && #[trigger] w.stored_in(c, x);
                assert(w2.stored_in(c, x));
            }
            if w2.in_some_storage(x) {
                let c = choose|c: Entity| c < w2.n() && #[trigger] w2.stored_in(c, x);
                assert(w.stored_in(c, x));
            }
            assert(w.has_in_room(x) <==> !w.in_some_storage(x));
        }
    }
    assert forall|c1: Entity, c2: Entity, x: Entity|
        c1 < w2.n() && c2 < w2.n() && #[trigger] w2.stored_in(c1, x) && #[trigger] w2.stored_in(
            c2,
            x,
        ) implies c1 == c2 by {
        if x == e {
            if w.stored_in(c1, e) && c1 != t {
                assert(c1 == f);
                assert(false);
            }
            if w.stored_in(c2, e) && c2 != t {
                assert(c2 == f);
                assert(false);
            }
        } else {
            assert(w.stored_in(c1, x) && w.stored_in(c2, x));
        }
    }
    assert forall|c: Entity, x: Entity|
        c < w2.n() && #[trigger] w2.stored_in(c, x) implies w2.has_desc(x) by {
        if x == e {
            assert(w.stored_in(f, e));
            assert(w.has_desc(e));
        } else {
            assert(w.stored_in(c, x));
            assert(w.has_desc(x));
        }
        assert(w2.has_desc(x) == w.has_desc(x));
    }
    assert(w2.location_exclusive());
    assert forall|e2: Entity|
        e2 < w.n() && e2 != e && w.change_valid(e2) implies w2.change_valid(e2) by {
        if w2.has_change(e2) {
            assert(w.has_change(e2) && w2.change_of(e2) == w.change_of(e2));
            match w2.change_of(e2) {
                (Some(f2), Some(t2)) => {
                    assert(w.stored_in(f2, e2));
                    assert(w2.stored_in(f2, e2));
                },
                (Some(f2), None) => {
                    assert(w.stored_in(f2, e2));
                    assert(w2.stored_in(f2, e2));
                },
                (None, Some(t2)) => {
                    assert(w2.has_desc(e2) == w.has_desc(e2));
                },
                (None, None) => {},
            }
        }
    }
}

/// The invariants after dropping `e` out of container `f` into `f`'s room.
proof fn show_drop_invariants(w: WorldView, w2: WorldView, f: Entity, e: Entity)
    requires
        w.wf(),
        w.location_exclusive(),
        w.stored_described(),
        e < w.n(),
        w.stored_in(f, e),
        w.has_in_room(f),
        w2.n() == w.n(),
        w2.in_rooms == w.in_rooms.update(e as int, Some(w.room_of(f))),
        w2.descriptions == w.descriptions,
        w2.changes == w.changes,
        w2.moves == w.moves,
        w2.players == w.players,
        w2.npcs == w.npcs,
        w2.items == w.items,
        w2.storages.len() == w.storages.len(),
        forall|c: Entity|
            c < w.n() ==> ((#[trigger] w2.has_storage(c)) == w.has_storage(c)),
        forall|c: Entity, x: Entity|
            c < w.n() ==> (#[trigger] w2.stored_in(c, x)) == (w.stored_in(c, x) && !(c == f && x
                == e)),
        forall|c: Entity|
            c < w.n() && w2.has_storage(c) ==> (#[trigger] w2.storage_of(c)).no_duplicates(),
        forall|c: Entity, j: int|
            c < w.n() && w2.has_storage(c) && 0 <= j < w2.storage_of(c).len() ==> (
            #[trigger] w2.storage_of(c)[j]) < w.n(),
    ensures
        w2.wf(),
        w2.location_exclusive(),
        w2.stored_described(),
        forall|e2: Entity| e2 < w.n() && e2 != e && w.change_valid(e2) ==> w2.change_valid(e2),
{
    assert(w2.wf());
    assert forall|x: Entity|
        x < w2.n() implies ((#[trigger] w2.has_in_room(x)) <==> !w2.in_some_storage(x)) by {
        if x == e {
            assert(w2.has_in_room(e));
            if w2.in_some_storage(e) {
                let c = choose|c: Entity| c < w2.n() && #[trigger] w2.stored_in(c, e);
                assert(w.stored_in(c, e) && c != f);
                assert(w.stored_in(f, e));
                assert(false);
            }
        } else {
            assert(w2.has_in_room(x) == w.has_in_room(x));
            if w.in_some_storage(x) {
                let c = choose|c: Entity| c < w.n() && #[trigger] w.stored_in(c, x);
                assert(w2.stored_in(c, x));
            }
            if w2.in_some_storage(x) {
                let c = choose|c: Entity| c < w2.n() && #[trigger] w2.stored_in(c, x);
                assert(w.stored_in(c, x));
            }
            assert(w.has_in_room(x) <==> !w.in_some_storage(x));
        }
    }
    assert forall|c1: Entity, c2: Entity, x: Entity|
        c1 < w2.n() && c2 < w2.n() && #[trigger] w2.stored_in(c1, x) && #[trigger] w2.stored_in(
            c2,
            x,
        ) implies c1 == c2 by {
        assert(w.stored_in(c1, x) && w.stored_in(c2, x));
    }
    assert forall|c: Entity, x: Entity|
        c < w2.n() && #[trigger] w2.stored_in(c, x) implies w2.has_desc(x) by {
        assert(w.stored_in(c, x));
        assert(w.has_desc(x));
        assert(w2.has_desc(x) == w.has_desc(x));
    }
    assert(w2.location_exclusive());
    assert forall|e2: Entity|
        e2 < w.n() && e2 != e && w.change_valid(e2) implies w2.change_valid(e2) by {
        if w2.has_change(e2) {
            assert(w.has_change(e2) && w2.change_of(e2) == w.change_of(e2));
            match w2.change_of(e2) {
                (Some(f2), Some(t2)) => {
                    assert(w.stored_in(f2, e2));
                    assert(w2.stored_in(f2, e2));
                },
                (Some(f2), None) => {
                    assert(w.stored_in(f2, e2));
                    assert(w2.stored_in(f2, e2));
                },
                (None, Some(t2)) => {
                    assert(w2.has_desc(e2) == w.has_desc(e2));
                },
                (None, None) => {},
            }
        }
    }
}

/// The invariants after picking `e` up from its room into container `t`.
proof fn show_pickup_invariants(w: WorldView, w2: WorldView, t: Entity, e: Entity)
    requires
        w.wf(),
        w.location_exclusive(),
        w.stored_described(),
        e < w.n(),
        w.has_in_room(e),
        w.has_desc(e),
        t < w.n(),
        w2.n() == w.n(),
        w2.in_rooms == w.in_rooms.update(e as int, None::<RoomId>),
        w2.descriptions == w.descriptions,
        w2.changes == w.changes,
        w2.moves == w.moves,
        w2.players == w.players,
        w2.npcs == w.npcs,
        w2.items == w.items,
        w2.storages.len() == w.storages.len(),
        forall|c: Entity|
            c < w.n() ==> ((#[trigger] w2.has_storage(c)) == w.has_storage(c)),
        forall|c: Entity, x: Entity|
            c < w.n() ==> (#[trigger] w2.stored_in(c, x)) == (w.stored_in(c, x) || (c == t && x
                == e)),
        forall|c: Entity|
            c < w.n() && w2.has_storage(c) ==> (#[trigger] w2.storage_of(c)).no_duplicates(),
        forall|c: Entity, j: int|
            c < w.n() && w2.has_storage(c) && 0 <= j < w2.storage_of(c).len() ==> (
            #[trigger] w2.storage_of(c)[j]) < w.n(),
    ensures
        w2.wf(),
        w2.location_exclusive(),
        w2.stored_described(),
        forall|e2: Entity| e2 < w.n() && e2 != e && w.change_valid(e2) ==> w2.change_valid(e2),
{
    assert(w2.wf());
    assert forall|x: Entity|
        x < w2.n() implies ((#[trigger] w2.has_in_room(x)) <==> !w2.in_some_storage(x)) by {
        if x == e {
            assert(!w2.has_in_room(e));
            assert(w2.stored_in(t, e));
            assert(w2.in_some_storage(e));
        } else {
            assert(w2.has_in_room(x) == w.has_in_room(x));
            if w.in_some_storage(x) {
                let c = choose|c: Entity| c < w.n() && #[trigger] w.stored_in(c, x);
                assert(w2.stored_in(c, x));
            }
            if w2.in_some_storage(x) {
                let c = choose|c: Entity| c < w2.n() && #[trigger] w2.stored_in(c, x);
                assert(w.stored_in(c, x));
            }
            assert(w.has_in_room(x) <==> !w.in_some_storage(x));
        }
    }
    assert forall|c1: Entity, c2: Entity, x: Entity|
        c1 < w2.n() && c2 < w2.n() && #[trigger] w2.stored_in(c1, x) && #[trigger] w2.stored_in(
            c2,
            x,
        ) implies c1 == c2 by {
        if x == e {
            if w.stored_in(c1, e) {
                assert(w.in_some_storage(e));
                assert(false);
            }
            if w.stored_in(c2, e) {
                assert(w.in_some_storage(e));
                assert(false);
            }
        } else {
            assert(w.stored_in(c1, x) && w.stored_in(c2, x));
        }
    }
    assert forall|c: Entity, x: Entity|
        c < w2.n() && #[trigger] w2.stored_in(c, x) implies w2.has_desc(x) by {
        if x == e {
        } else {
            assert(w.stored_in(c, x));
            assert(w.has_desc(x));
        }
        assert(w2.has_desc(x) == w.has_desc(x));
    }
    assert(w2.location_exclusive());
    assert forall|e2: Entity|
        e2 < w.n() && e2 != e && w.change_valid(e2) implies w2.change_valid(e2) by {
        if w2.has_change(e2) {
            assert(w.has_change(e2) && w2.change_of(e2) == w.change_of(e2));
            match w2.change_of(e2) {
                (Some(f2), Some(t2)) => {
                    assert(w.stored_in(f2, e2));
                    assert(w2.stored_in(f2, e2));
                },
                (Some(f2), None) => {
                    assert(w.stored_in(f2, e2));
                    assert(w2.stored_in(f2, e2));
                },
                (None, Some(t2)) => {
                    assert(w2.has_desc(e2) == w.has_desc(e2));
                },
                (None, None) => {},
            }
        }
    }
}

/// Once the batch stops, later prefixes change nothing.
pub proof fn lemma_inv_upto_stable(w: WorldView, i: int, j: int)
    requires
        0 <= i <= j,
        inv_resolved_upto(w, i).stop,
    ensures
        inv_resolved_upto(w, j) == inv_resolved_upto(w, i),
    decreases j - i,
{
    if j > i {
        lemma_inv_upto_stable(w, i, j - 1);
    }
}

// ---------------------------------------------------------------------------
// Inventory resolution: the resolver
// ---------------------------------------------------------------------------

/// Resolves entity `e`'s pending change, appending any error message.
/// Returns whether the batch stops here and whether that stop is fatal.
fn apply_change(world: &mut World, e: Entity, msgs: &mut Vec<String>) -> (r: (bool, bool))
    requires
        old(world)@.wf(),
        e < old(world)@.n(),
        old(world)@.change_valid(e),
    ensures
        ({
            let s = inv_apply(old(world)@, e);
            &&& final(world)@ == s.w
            &&& final(msgs).deep_view() == old(msgs).deep_view() + s.msgs
            &&& r.0 == s.stop
            &&& r.1 == s.fatal
        }),
{
    let ghost w0 = world@;
    let ghost m0 = msgs.deep_view();
    match world.get_change(e) {
        None => {
            proof {
                assert(m0 + inv_apply(w0, e).msgs =~= m0);
            }
            (false, false)
        },
        Some((from, to)) => {
            match (from, to) {
                (Some(f), Some(t)) => {
                    proof {
                        assert(w0.stored_in(f, e));
                    }
                    if !world.has_storage(f) || !world.has_storage(t) {
                        let m = transfer_failed_msg(e);
                        msgs.push(m);
                        proof {
                            assert(msgs.deep_view() =~= m0 + seq![transfer_failed_text(e)]);
                        }
                        (true, false)
                    } else {
                        world.storage_remove_first(f, e);
                        world.storage_push(t, e);
                        proof {
                            assert(world@ == inv_apply(w0, e).w);
                            assert(msgs.deep_view() =~= m0 + inv_apply(w0, e).msgs);
                        }
                        (false, false)
                    }
                },
                (Some(f), None) => {
                    proof {
                        assert(w0.stored_in(f, e));
                    }
                    match world.get_in_room(f) {
                        None => {
                            let m = drop_failed_msg(e, f);
                            msgs.push(m);
                            proof {
                                assert(msgs.deep_view() =~= m0 + seq![drop_failed_text(e, f)]);
                            }
                            (true, false)
                        },
                        Some(room) => {
                            if !world.has_storage(f) {
                                let m = no_storage_msg(f);
                                msgs.push(m);
                                proof {
                                    assert(msgs.deep_view() =~= m0 + seq![no_storage_text(f)]);
                                }
                                (true, true)
                            } else {
                                world.storage_remove_first(f, e);
                                world.set_in_room(e, room);
                                proof {
                                    assert(world@ == inv_apply(w0, e).w);
                                    assert(msgs.deep_view() =~= m0 + inv_apply(w0, e).msgs);
                                }
                                (false, false)
                            }
                        },
                    }
                },
                (None, Some(t)) => {
                    match world.get_in_room(e) {
                        None => {
                            let m = pickup_no_room_msg(e);
                            msgs.push(m);
                            proof {
                                assert(msgs.deep_view() =~= m0 + seq![pickup_no_room_text(e)]);
                            }
                            (true, true)
                        },
                        Some(_) => {
                            if !world.has_storage(t) {
                                let m = no_storage_msg(t);
                                msgs.push(m);
                                proof {
                                    assert(msgs.deep_view() =~= m0 + seq![no_storage_text(t)]);
                                }
                                (true, true)
                            } else {
                                world.remove_in_room(e);
                                world.storage_push(t, e);
                                proof {
                                    assert(world@ == inv_apply(w0, e).w);
                                    assert(msgs.deep_view() =~= m0 + inv_apply(w0, e).msgs);
                                }
                                (false, false)
                            }
                        },
                    }
                },
                (None, None) => {
                    let m = none_none_msg();
                    msgs.push(m);
                    proof {
                        assert(msgs.deep_view() =~= m0 + seq![none_none_text()]);
                    }
                    (false, false)
                },
            }
        },
    }
}

/// Consumes `ApplyInventoryChange` intents in ascending entity order.
/// A failed transfer or drop surfaces an error and leaves the rest of the
/// batch unprocessed; all intents are cleared regardless.
pub struct InventorySystem;

impl InventorySystem {
    /// Runs one inventory resolution pass.  Returns the error messages and
    /// whether a fatal invariant violation was hit.
    pub fn run(world: &mut World) -> (r: (Vec<String>, bool))
        requires
            old(world)@.wf(),
            old(world)@.location_exclusive(),
            old(world)@.stored_described(),
            old(world)@.changes_valid(),
        ensures
            final(world)@ == inv_resolved(old(world)@).w,
            r.0.deep_view() == inv_resolved(old(world)@).msgs,
            r.1 == inv_resolved(old(world)@).fatal,
            final(world)@.wf(),
            final(world)@.location_exclusive(),
            final(world)@.stored_described(),
            final(world)@.changes_valid(),
    {
        let ghost oldv = world@;
        let n = world.num_entities();
        let mut msgs: Vec<String> = Vec::new();
        let mut fatal = false;
        let mut stopped = false;
        let mut e: usize = 0;
        proof {
            assert(msgs.deep_view() =~= Seq::<Seq<char>>::empty());
        }
        while e < n && !stopped
            invariant
                e <= n,
                n == oldv.n(),
                oldv.wf(),
                oldv.location_exclusive(),
                oldv.stored_described(),
                oldv.changes_valid(),
                world@.n() == n,
                ({
                    let r = inv_resolved_upto(oldv, e as int);
                    &&& r.w == world@
                    &&& r.msgs == msgs.deep_view()
                    &&& r.stop == stopped
                    &&& r.fatal == fatal
                }),
                world@.wf(),
                world@.location_exclusive(),
                world@.stored_described(),
                forall|e2: Entity| e <= e2 < n ==> world@.change_valid(e2),
            decreases n - e,
        {
            let ghost prev = world@;
            proof {
                assert(world@.change_valid(e));
                lemma_inv_apply(prev, e);
            }
            let (stop_now, fatal_now) = apply_change(world, e, &mut msgs);
            if stop_now {
                stopped = true;
                fatal = fatal_now;
            }
            proof {
                let step = inv_apply(prev, e);
                assert(inv_resolved_upto(oldv, e + 1) == InvStep {
                    w: step.w,
                    msgs: inv_resolved_upto(oldv, e as int).msgs + step.msgs,
                    stop: step.stop,
                    fatal: step.fatal,
                });
                assert forall|e2: Entity| e + 1 <= e2 < n implies world@.change_valid(e2) by {
                    assert(prev.change_valid(e2));
                }
            }
            e += 1;
        }
        proof {
            if stopped {
                lemma_inv_upto_stable(oldv, e as int, n as int);
            }
            assert(inv_resolved_upto(oldv, n as int) == inv_resolved_upto(oldv, e as int));
        }
        let ghost beforeclear = world@;
        world.clear_changes();
        proof {
            assert(world@ == inv_resolved(oldv).w);
            let newv = world@;
            assert forall|c: Entity, x: Entity| c < newv.n() implies (#[trigger] newv.stored_in(
                c,
                x,
            )) == beforeclear.stored_in(c, x) by {}
            assert forall|x: Entity|
                x < newv.n() implies ((#[trigger] newv.has_in_room(x)) <==> !newv.in_some_storage(
                x,
            )) by {
                assert(beforeclear.has_in_room(x) <==> !beforeclear.in_some_storage(x));
                if beforeclear.in_some_storage(x) {
                    let c = choose|c: Entity|
                        c < beforeclear.n() && #[trigger] beforeclear.stored_in(c, x);
                    assert(newv.stored_in(c, x));
                }
                if newv.in_some_storage(x) {
                    let c = choose|c: Entity| c < newv.n() && #[trigger] newv.stored_in(c, x);
                    assert(beforeclear.stored_in(c, x));
                }
            }
            assert forall|c1: Entity, c2: Entity, x: Entity|
                c1 < newv.n() && c2 < newv.n() && #[trigger] newv.stored_in(c1, x)
                    && #[trigger] newv.stored_in(c2, x) implies c1 == c2 by {
                assert(beforeclear.stored_in(c1, x) && beforeclear.stored_in(c2, x));
            }
            assert forall|c: Entity|
                c < newv.n() && newv.has_storage(c) implies (#[trigger] newv.storage_of(
                c,
            )).no_duplicates() by {
                assert(beforeclear.storage_of(c).no_duplicates());
                assert(newv.storage_of(c) == beforeclear.storage_of(c));
            }
            assert(newv.location_exclusive());
            assert forall|c: Entity, x: Entity|
                c < newv.n() && #[trigger] newv.stored_in(c, x) implies newv.has_desc(x) by {
                assert(beforeclear.stored_in(c, x));
                assert(beforeclear.has_desc(x));
            }
            assert forall|x: Entity| x < newv.n() implies #[trigger] newv.change_valid(x) by {
                assert(!newv.has_change(x));
            }
        }
        (msgs, fatal)
    }
}

impl World {
    /// Checks that every pending move targets a room the map contains.
    pub fn check_moves_valid(&self, map: &WorldMap) -> (r: bool)
        requires
            self@.wf(),
        ensures
            r == self@.moves_valid(map@),
    {
        let n = self.num_entities();
        let mut e: usize = 0;
        while e < n
            invariant
                e <= n,
                n == self@.n(),
                self@.wf(),
                forall|e2: Entity|
                    e2 < e && #[trigger] self@.has_move(e2) ==> map@.contains_room(
                        self@.move_of(e2),
                    ),
            decreases n - e,
        {
            match self.get_move(e) {
                Some(t) => {
                    if !map.contains_room(t) {
                        proof {
                            assert(self@.has_move(e));
                            assert(!self@.moves_valid(map@));
                        }
                        return false;
                    }
                },
                None => {},
            }
            e += 1;
        }
        true
    }

    /// Checks that every placed entity stands in a room the map contains.
    pub fn check_placed_in_map(&self, map: &WorldMap) -> (r: bool)
        requires
            self@.wf(),
        ensures
            r == self@.placed_in_map(map@),
    {
        let n = self.num_entities();
        let mut e: usize = 0;
        while e < n
            invariant
                e <= n,
                n == self@.n(),
                self@.wf(),
                forall|e2: Entity|
                    e2 < e && #[trigger] self@.has_in_room(e2) ==> map@.contains_room(
                        self@.room_of(e2),
                    ),
            decreases n - e,
        {
            match self.get_in_room(e) {
                Some(room) => {
                    if !map.contains_room(room) {
                        proof {
                            assert(self@.has_in_room(e));
                            assert(!self@.placed_in_map(map@));
                        }
                        return false;
                    }
                },
                None => {},
            }
            e += 1;
        }
        true
    }
}

/// Properties that depend only on placement, containment and descriptions
/// carry over to any world agreeing on those columns; validity of pending
/// intents carries over when their columns agree too.
pub proof fn lemma_same_placement(a: WorldView, b: WorldView, m: crate::map::WorldMapView)
    requires
        b.in_rooms == a.in_rooms,
        b.storages == a.storages,
        b.descriptions == a.descriptions,
        b.n() == a.n(),
    ensures
        a.location_exclusive() ==> b.location_exclusive(),
        a.stored_described() ==> b.stored_described(),
        a.placed_in_map(m) ==> b.placed_in_map(m),
        (a.changes_valid() && b.changes == a.changes) ==> b.changes_valid(),
        (a.moves_valid(m) && b.moves == a.moves) ==> b.moves_valid(m),
{
    assert forall|c: Entity, x: Entity| c < b.n() implies (#[trigger] b.stored_in(c, x))
        == a.stored_in(c, x) by {}
    if a.location_exclusive() {
        assert forall|x: Entity|
            x < b.n() implies ((#[trigger] b.has_in_room(x)) <==> !b.in_some_storage(x)) by {
            assert(a.has_in_room(x) <==> !a.in_some_storage(x));
            if a.in_some_storage(x) {
                let c = choose|c: Entity| c < a.n() && #[trigger] a.stored_in(c, x);
                assert(b.stored_in(c, x));
            }
            if b.in_some_storage(x) {
                let c = choose|c: Entity| c < b.n() && #[trigger] b.stored_in(c, x);
                assert(a.stored_in(c, x));
            }
        }
        assert forall|c1: Entity, c2: Entity, x: Entity|
            c1 < b.n() && c2 < b.n() && #[trigger] b.stored_in(c1, x) && #[trigger] b.stored_in(
                c2,
                x,
            ) implies c1 == c2 by {
            assert(a.stored_in(c1, x) && a.stored_in(c2, x));
        }
        assert forall|c: Entity|
            c < b.n() && b.has_storage(c) implies (#[trigger] b.storage_of(c)).no_duplicates() by {
            assert(a.storage_of(c).no_duplicates());
            assert(b.storage_of(c) == a.storage_of(c));
        }
    }
    if a.stored_described() {
        assert forall|c: Entity, x: Entity|
            c < b.n() && #[trigger] b.stored_in(c, x) implies b.has_desc(x) by {
            assert(a.stored_in(c, x));
            assert(a.has_desc(x));
        }
    }
    if a.placed_in_map(m) {
        assert forall|x: Entity|
            x < b.n() && #[trigger] b.has_in_room(x) implies m.contains_room(b.room_of(x)) by {
            assert(a.has_in_room(x));
        }
    }
    if a.changes_valid() && b.changes == a.changes {
        assert forall|x: Entity| x < b.n() implies #[trigger] b.change_valid(x) by {
            assert(a.change_valid(x));
            if b.has_change(x) {
                match b.change_of(x) {
                    (Some(f), Some(t)) => {
                        assert(b.stored_in(f, x) == a.stored_in(f, x));
                    },
                    (Some(f), None) => {
                        assert(b.stored_in(f, x) == a.stored_in(f, x));
                    },
                    (None, Some(t)) => {},
                    (None, None) => {},
                }
            }
        }
    }
    if a.moves_valid(m) && b.moves == a.moves {
        assert forall|x: Entity|
            x < b.n() && #[trigger] b.has_move(x) implies m.contains_room(b.move_of(x)) by {
            assert(a.has_move(x));
        }
    }
}

/// One resolution step keeps every placed entity inside the map: a drop
/// places the moving entity in its container's room, which the map holds.
pub proof fn lemma_inv_apply_placed(w: WorldView, e: Entity, m: crate::map::WorldMapView)
    requires
        w.wf(),
        e < w.n(),
        w.change_valid(e),
        w.placed_in_map(m),
    ensures
        inv_apply(w, e).w.placed_in_map(m),
{
    let s = inv_apply(w, e);
    assert forall|x: Entity|
        x < s.w.n() && #[trigger] s.w.has_in_room(x) implies m.contains_room(s.w.room_of(x)) by {
        if s.w.in_rooms[x as int] == w.in_rooms[x as int] {
            assert(w.has_in_room(x));
        } else {
            // only a drop writes placement, with the source container's room
            assert(x == e);
            if w.has_change(e) {
                match w.change_of(e) {
                    (Some(f), None) => {
                        if w.has_in_room(f) && w.has_storage(f) {
                            assert(s.w.room_of(e) == w.room_of(f));
                            assert(w.has_in_room(f));
                        }
                    },
                    (Some(f), Some(t)) => {},
                    (None, Some(t)) => {},
                    (None, None) => {},
                }
            }
        }
    }
}

/// The batch prefix keeps the store's invariants, leaves every column but
/// placement and containment alone, and does not move entities that carry
/// no intent.
pub proof fn lemma_inv_upto_props(w: WorldView, m: crate::map::WorldMapView, i: int)
    requires
        0 <= i <= w.n(),
        w.n() <= usize::MAX,
        w.wf(),
        w.location_exclusive(),
        w.stored_described(),
        w.changes_valid(),
        w.placed_in_map(m),
    ensures
        ({
            let r = inv_resolved_upto(w, i);
            &&& r.w.wf()
            &&& r.w.location_exclusive()
            &&& r.w.stored_described()
            &&& r.w.placed_in_map(m)
            &&& r.w.n() == w.n()
            &&& r.w.moves == w.moves
            &&& r.w.changes == w.changes
            &&& r.w.descriptions == w.descriptions
            &&& r.w.players == w.players
            &&& r.w.npcs == w.npcs
            &&& r.w.items == w.items
            &&& r.w.in_rooms.len() == w.in_rooms.len()
            &&& forall|c: Entity|
                c < w.n() ==> (#[trigger] r.w.has_storage(c)) == w.has_storage(c)
            &&& forall|x: Entity|
                x < w.n() && !w.has_change(x) ==> (#[trigger] r.w.in_rooms[x as int])
                    == w.in_rooms[x as int]
            &&& forall|e2: Entity| i <= e2 < w.n() ==> r.w.change_valid(e2)
        }),
    decreases i,
{
    if i <= 0 {
        assert forall|e2: Entity| i <= e2 < w.n() implies w.change_valid(e2) by {}
    } else {
        lemma_inv_upto_props(w, m, i - 1);
        let prev = inv_resolved_upto(w, i - 1);
        if !prev.stop {
            let e = (i - 1) as Entity;
            assert(e == i - 1);
            assert(prev.w.change_valid(e));
            lemma_inv_apply(prev.w, e);
            lemma_inv_apply_placed(prev.w, e, m);
            let r = inv_resolved_upto(w, i);
            assert(r.w == inv_apply(prev.w, e).w);
            assert forall|c: Entity|
                c < w.n() implies (#[trigger] r.w.has_storage(c)) == w.has_storage(c) by {
                assert(r.w.has_storage(c) == prev.w.has_storage(c));
                assert(prev.w.has_storage(c) == w.has_storage(c));
            }
            assert forall|e2: Entity| i <= e2 < w.n() implies r.w.change_valid(e2) by {
                assert(prev.w.change_valid(e2));
                assert(e2 != e);
            }
            assert forall|x: Entity|
                x < w.n() && !w.has_change(x) implies (#[trigger] r.w.in_rooms[x as int])
                    == w.in_rooms[x as int] by {
                assert(prev.w.changes == w.changes);
                assert(!prev.w.has_change(x) ==> x != e || !prev.w.has_change(e));
                if x != e {
                    assert(r.w.in_rooms[x as int] == prev.w.in_rooms[x as int]);
                } else {
                    assert(!prev.w.has_change(e));
                    assert(r.w == prev.w);
                }
            }
        }
    }
}

} // verus!
