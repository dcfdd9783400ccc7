//! The engine's laws, stated and proved over the same spec functions the
//! public contracts use.  Location exclusivity itself needs no lemma here:
//! every public `Game` method ensures `inv()`, whose conjunct
//! `location_exclusive` says that each entity has `InRoom` or sits in
//! exactly one storage, never both and never neither.

use vstd::prelude::*;
use crate::components::Entity;
use crate::game::{locked_text, move_command_rel, GameView};
use crate::map::ExitDirection;
use crate::systems::inv_apply;
use crate::world::{lemma_push_contains, lemma_seq_remove_first, seq_remove_first, WorldView};

verus! {

/// Law: a movement command through an unlocked gate queues a move that,
/// once resolved, puts the player in that gate's target room; through a
/// locked gate it changes nothing and reports "That path is locked!"; with
/// no gate it changes nothing.
pub proof fn lemma_gate_movement(
    g0: GameView,
    dir: ExitDirection,
    g1: GameView,
    out: Seq<Seq<char>>,
)
    requires
        g0.inv(),
        move_command_rel(g0, dir, g1, out),
    ensures
        match g0.map.spec_room(g0.player_room()).exit_of(dir) {
            Some(gt) => if gt.is_locked {
                g1.world == g0.world && out == seq![locked_text()]
            } else {
                g1.world.moves_resolved().has_in_room(g0.player_id)
                    && g1.world.moves_resolved().room_of(g0.player_id) == gt.to
            },
            None => g1.world == g0.world,
        },
{
    match g0.map.spec_room(g0.player_room()).exit_of(dir) {
        Some(gt) => {
            if !gt.is_locked {
                let w1 = g1.world;
                assert(w1 == g0.world.with_move(g0.player_id, gt.to));
                assert(w1.has_move(g0.player_id) && w1.move_of(g0.player_id) == gt.to);
                assert(w1.has_in_room(g0.player_id));
                assert(w1.moves_resolved().in_rooms[g0.player_id as int] == Some(gt.to));
            }
        },
        None => {},
    }
}

/// Law: resolving a pickup intent `(None, Some(t))` on an entity standing in
/// a room removes its `InRoom` and appends it to `t`'s storage.
pub proof fn lemma_pickup(w: WorldView, e: Entity, t: Entity)
    requires
        w.wf(),
        e < w.n(),
        t < w.n(),
        w.has_change(e),
        w.change_of(e) == (None::<Entity>, Some(t)),
        w.has_in_room(e),
        w.has_storage(t),
    ensures
        !inv_apply(w, e).w.has_in_room(e),
        inv_apply(w, e).w.stored_in(t, e),
        inv_apply(w, e).w.storage_of(t) == w.storage_of(t).push(e),
        !inv_apply(w, e).stop,
{
    let w2 = inv_apply(w, e).w;
    lemma_push_contains(w.storage_of(t), e, e);
    assert(w2.storage_of(t) == w.storage_of(t).push(e));
}

/// Law: resolving a drop intent `(Some(f), None)` on an entity held by a
/// placed container `f` removes it from `f`'s storage and places it in
/// `f`'s current room.
pub proof fn lemma_drop(w: WorldView, e: Entity, f: Entity)
    requires
        w.wf(),
        w.location_exclusive(),
        e < w.n(),
        w.has_change(e),
        w.change_of(e) == (Some(f), None::<Entity>),
        w.stored_in(f, e),
        w.has_in_room(f),
    ensures
        inv_apply(w, e).w.has_in_room(e),
        inv_apply(w, e).w.room_of(e) == w.room_of(f),
        !inv_apply(w, e).w.stored_in(f, e),
        !inv_apply(w, e).stop,
{
    let w2 = inv_apply(w, e).w;
    assert(w.storage_of(f).no_duplicates());
    lemma_seq_remove_first(w.storage_of(f), e);
    assert(w2.storage_of(f) == seq_remove_first(w.storage_of(f), e));
    assert(w2.in_rooms[e as int] == Some(w.room_of(f)));
}

/// Law: get then drop is a round trip.  An entity picked up out of the room
/// it shares with the holder, and dropped again on the next turn, ends up
/// back in its original room, and the holder's storage no longer lists it.
pub proof fn lemma_get_drop_round_trip(w: WorldView, e: Entity, p: Entity)
    requires
        w.wf(),
        w.location_exclusive(),
        e < w.n(),
        p < w.n(),
        e != p,
        w.has_change(e),
        w.change_of(e) == (None::<Entity>, Some(p)),
        w.has_in_room(e),
        w.has_in_room(p),
        w.room_of(e) == w.room_of(p),
        w.has_storage(p),
    ensures
        ({
            // after the pickup resolves, the drop intent of a later turn
            let w1 = inv_apply(w, e).w;
            let w2 = w1.with_change(e, Some(p), None::<Entity>);
            let w3 = inv_apply(w2, e).w;
            &&& w3.has_in_room(e)
            &&& w3.room_of(e) == w.room_of(e)
            &&& !w3.stored_in(p, e)
        }),
{
    let w1 = inv_apply(w, e).w;
    lemma_pickup(w, e, p);
    let w2 = w1.with_change(e, Some(p), None::<Entity>);
    assert(w2.stored_in(p, e)) by {
        lemma_push_contains(w.storage_of(p), e, e);
        assert(w1.storage_of(p) == w.storage_of(p).push(e));
        assert(w2.storage_of(p) == w1.storage_of(p));
    }
    assert(w2.has_in_room(p)) by {
        assert(w1.in_rooms[p as int] == w.in_rooms[p as int]);
        assert(w2.in_rooms == w1.in_rooms);
    }
    assert(w2.has_storage(p));
    let w3 = inv_apply(w2, e).w;
    assert(!w.storage_of(p).contains(e)) by {
        if w.storage_of(p).contains(e) {
            assert(w.stored_in(p, e));
            assert(w.in_some_storage(e));
            assert(!w.has_in_room(e));
        }
    }
    assert(w2.storage_of(p).no_duplicates()) by {
        assert(w.storage_of(p).no_duplicates());
        crate::world::lemma_push_no_dup(w.storage_of(p), e);
        assert(w2.storage_of(p) == w.storage_of(p).push(e));
    }
    lemma_seq_remove_first(w2.storage_of(p), e);
    assert(w3.in_rooms[e as int] == Some(w2.room_of(p)));
    assert(w2.room_of(p) == w.room_of(p));
    assert(w3.storage_of(p) == seq_remove_first(w2.storage_of(p), e));
    assert(!w3.storage_of(p).contains(e));
}

} // verus!
