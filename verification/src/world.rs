//! The component store: per-entity tagged storage, keyed by entity id.
//!
//! Each component kind lives in its own column, one optional slot per
//! entity.  The store's central invariant is location exclusivity: every
//! entity either stands directly in a room (`InRoom`) or sits inside exactly
//! one container's `Storage`, never both and never neither.

use vstd::prelude::*;
use crate::components::{
    ApplyInventoryChange, ApplyMove, Description, DescriptionView, Entity, InRoom, RoomId, Storage,
};
use crate::text::{starts_with, str_starts_with};
use vstd::string::*;

verus! {

// ---------------------------------------------------------------------------
// Sequence helpers for container contents
// ---------------------------------------------------------------------------

/// The smallest index `j >= i` with `s[j] == e`, or `s.len()` if there is none.
pub open spec fn first_index(s: Seq<Entity>, e: Entity, i: int) -> int
    decreases s.len() - i,
{
    if i < 0 || i >= s.len() {
        s.len() as int
    } else if s[i] == e {
        i
    } else {
        first_index(s, e, i + 1)
    }
}

/// `s` with the first occurrence of `e` removed, if any.
pub open spec fn seq_remove_first(s: Seq<Entity>, e: Entity) -> Seq<Entity> {
    let j = first_index(s, e, 0);
    if j < s.len() {
        s.remove(j)
    } else {
        s
    }
}

pub proof fn lemma_first_index(s: Seq<Entity>, e: Entity, i: int)
    requires
        0 <= i <= s.len(),
    ensures
        i <= first_index(s, e, i) <= s.len(),
        first_index(s, e, i) < s.len() ==> s[first_index(s, e, i)] == e,
        forall|k: int| i <= k < first_index(s, e, i) ==> s[k] != e,
        first_index(s, e, i) == s.len() ==> forall|k: int| i <= k < s.len() ==> s[k] != e,
    decreases s.len() - i,
{
    if i < s.len() && s[i] != e {
        lemma_first_index(s, e, i + 1);
    }
}

/// What removing the first occurrence does to length, membership and
/// duplicate-freedom.
pub proof fn lemma_seq_remove_first(s: Seq<Entity>, e: Entity)
    requires
        s.no_duplicates(),
    ensures
        !seq_remove_first(s, e).contains(e),
        forall|x: Entity| x != e ==> seq_remove_first(s, e).contains(x) == s.contains(x),
        seq_remove_first(s, e).no_duplicates(),
        s.contains(e) ==> seq_remove_first(s, e).len() == s.len() - 1,
        !s.contains(e) ==> seq_remove_first(s, e) == s,
        forall|x: Entity| seq_remove_first(s, e).contains(x) ==> s.contains(x),
{
    lemma_first_index(s, e, 0);
    let j = first_index(s, e, 0);
    let r = seq_remove_first(s, e);
    if j < s.len() {
        assert(s.contains(e));
        assert forall|x: Entity| r.contains(x) implies s.contains(x) && (x == e ==> false) by {
            let k = choose|k: int| 0 <= k < r.len() && r[k] == x;
            if k < j {
                assert(s[k] == x);
            } else {
                assert(s[k + 1] == x);
                if x == e {
                    assert(s[j] == e && s[k + 1] == e && j != k + 1);
                    assert(false);
                }
            }
        }
        assert forall|x: Entity| x != e && s.contains(x) implies r.contains(x) by {
            let k = choose|k: int| 0 <= k < s.len() && s[k] == x;
            if k < j {
                assert(r[k] == x);
            } else {
                assert(k != j);
                assert(r[k - 1] == x);
            }
        }
        assert forall|p: int, q: int| 0 <= p < q < r.len() implies r[p] != r[q] by {
            let sp: int = if p < j { p } else { p + 1 };
            let sq: int = if q < j { q } else { q + 1 };
            assert(r[p] == s[sp] && r[q] == s[sq] && sp < sq);
        }
    } else {
        assert(!s.contains(e));
        assert(r == s);
    }
}

pub proof fn lemma_push_contains(s: Seq<Entity>, e: Entity, x: Entity)
    ensures
        s.push(e).contains(x) == (s.contains(x) || x == e),
{
    if s.contains(x) {
        let k = choose|k: int| 0 <= k < s.len() && s[k] == x;
        assert(s.push(e)[k] == x);
    }
    if x == e {
        assert(s.push(e)[s.len() as int] == x);
    }
    if s.push(e).contains(x) {
        let k = choose|k: int| 0 <= k < s.push(e).len() && s.push(e)[k] == x;
        if k < s.len() {
            assert(s[k] == x);
        }
    }
}

pub proof fn lemma_push_no_dup(s: Seq<Entity>, e: Entity)
    requires
        s.no_duplicates(),
        !s.contains(e),
    ensures
        s.push(e).no_duplicates(),
{
    let r = s.push(e);
    assert forall|p: int, q: int| 0 <= p < q < r.len() implies r[p] != r[q] by {
        if q < s.len() {
            assert(r[p] == s[p] && r[q] == s[q]);
        } else {
            assert(r[q] == e && r[p] == s[p]);
            if s[p] == e {
                assert(s.contains(e));
            }
        }
    }
}

// ---------------------------------------------------------------------------
// The mathematical world
// ---------------------------------------------------------------------------

/// The mathematical content of a `World`: one column per component kind,
/// indexed by entity id.
pub ghost struct WorldView {
    pub descriptions: Seq<Option<DescriptionView>>,
    pub in_rooms: Seq<Option<RoomId>>,
    pub storages: Seq<Option<Seq<Entity>>>,
    pub players: Seq<bool>,
    pub npcs: Seq<bool>,
    pub items: Seq<bool>,
    pub moves: Seq<Option<RoomId>>,
    pub changes: Seq<Option<(Option<Entity>, Option<Entity>)>>,
}

impl WorldView {
    /// Number of entities ever created.
    pub open spec fn n(self) -> nat {
        self.in_rooms.len()
    }

    /// All columns have one slot per entity, and container contents only
    /// name entities that exist.
    pub open spec fn wf(self) -> bool {
        &&& self.descriptions.len() == self.n()
        &&& self.storages.len() == self.n()
        &&& self.players.len() == self.n()
        &&& self.npcs.len() == self.n()
        &&& self.items.len() == self.n()
        &&& self.moves.len() == self.n()
        &&& self.changes.len() == self.n()
        &&& forall|c: Entity, j: int|
            c < self.n() && self.has_storage(c) && 0 <= j < self.storage_of(c).len()
                ==> (#[trigger] self.storage_of(c)[j]) < self.n()
    }

    pub open spec fn has_desc(self, e: Entity) -> bool {
        e < self.n() && self.descriptions[e as int] is Some
    }

    pub open spec fn desc_of(self, e: Entity) -> DescriptionView {
        self.descriptions[e as int]->0
    }

    pub open spec fn glance_of(self, e: Entity) -> Seq<char> {
        self.desc_of(e).glance
    }

    pub open spec fn has_in_room(self, e: Entity) -> bool {
        e < self.n() && self.in_rooms[e as int] is Some
    }

    pub open spec fn room_of(self, e: Entity) -> RoomId {
        self.in_rooms[e as int]->0
    }

    pub open spec fn has_storage(self, e: Entity) -> bool {
        e < self.n() && self.storages[e as int] is Some
    }

    pub open spec fn storage_of(self, e: Entity) -> Seq<Entity> {
        self.storages[e as int]->0
    }

    /// `e` sits inside container `c`.
    pub open spec fn stored_in(self, c: Entity, e: Entity) -> bool {
        self.has_storage(c) && self.storage_of(c).contains(e)
    }

    pub open spec fn in_some_storage(self, e: Entity) -> bool {
        exists|c: Entity| c < self.n() && #[trigger] self.stored_in(c, e)
    }

    pub open spec fn is_player(self, e: Entity) -> bool {
        e < self.n() && self.players[e as int]
    }

    pub open spec fn is_npc(self, e: Entity) -> bool {
        e < self.n() && self.npcs[e as int]
    }

    pub open spec fn is_item(self, e: Entity) -> bool {
        e < self.n() && self.items[e as int]
    }

    pub open spec fn has_move(self, e: Entity) -> bool {
        e < self.n() && self.moves[e as int] is Some
    }

    pub open spec fn move_of(self, e: Entity) -> RoomId {
        self.moves[e as int]->0
    }

    pub open spec fn has_change(self, e: Entity) -> bool {
        e < self.n() && self.changes[e as int] is Some
    }

    pub open spec fn change_of(self, e: Entity) -> (Option<Entity>, Option<Entity>) {
        self.changes[e as int]->0
    }

    // -- the location-exclusivity invariant ---------------------------------

    /// Every entity is either directly in a room or inside some container.
    pub open spec fn placed_once(self) -> bool {
        forall|e: Entity|
            e < self.n() ==> ((#[trigger] self.has_in_room(e)) <==> !self.in_some_storage(e))
    }

    /// No entity sits in two containers.
    pub open spec fn containers_unique(self) -> bool {
        forall|c1: Entity, c2: Entity, e: Entity|
            c1 < self.n() && c2 < self.n() && #[trigger] self.stored_in(c1, e)
                && #[trigger] self.stored_in(c2, e) ==> c1 == c2
    }

    /// No container lists an entity twice.
    pub open spec fn storages_no_dup(self) -> bool {
        forall|c: Entity|
            c < self.n() && self.has_storage(c) ==> (#[trigger] self.storage_of(
                c,
            )).no_duplicates()
    }

    /// Location exclusivity: `InRoom` xor membership in exactly one storage.
    pub open spec fn location_exclusive(self) -> bool {
        self.placed_once() && self.containers_unique() && self.storages_no_dup()
    }

    // -- functional updates --------------------------------------------------

    pub open spec fn with_desc(self, e: Entity, d: DescriptionView) -> WorldView {
        WorldView { descriptions: self.descriptions.update(e as int, Some(d)), ..self }
    }

    pub open spec fn with_in_room(self, e: Entity, r: RoomId) -> WorldView {
        WorldView { in_rooms: self.in_rooms.update(e as int, Some(r)), ..self }
    }

    pub open spec fn without_in_room(self, e: Entity) -> WorldView {
        WorldView { in_rooms: self.in_rooms.update(e as int, None), ..self }
    }

    pub open spec fn with_items(self, c: Entity, items: Seq<Entity>) -> WorldView {
        WorldView { storages: self.storages.update(c as int, Some(items)), ..self }
    }

    pub open spec fn with_player(self, e: Entity) -> WorldView {
        WorldView { players: self.players.update(e as int, true), ..self }
    }

    pub open spec fn with_npc(self, e: Entity) -> WorldView {
        WorldView { npcs: self.npcs.update(e as int, true), ..self }
    }

    pub open spec fn with_item(self, e: Entity) -> WorldView {
        WorldView { items: self.items.update(e as int, true), ..self }
    }

    pub open spec fn with_move(self, e: Entity, r: RoomId) -> WorldView {
        WorldView { moves: self.moves.update(e as int, Some(r)), ..self }
    }

    pub open spec fn with_change(
        self,
        e: Entity,
        from: Option<Entity>,
        to: Option<Entity>,
    ) -> WorldView {
        WorldView { changes: self.changes.update(e as int, Some((from, to))), ..self }
    }

    pub open spec fn cleared_moves(self) -> WorldView {
        WorldView { moves: Seq::new(self.moves.len(), |i: int| None), ..self }
    }

    pub open spec fn cleared_changes(self) -> WorldView {
        WorldView { changes: Seq::new(self.changes.len(), |i: int| None), ..self }
    }

    /// Well-formedness carries over to any world with the same storages
    /// column and unchanged column lengths.
    pub proof fn lemma_wf_same_storages(self, other: WorldView)
        requires
            self.wf(),
            other.storages == self.storages,
            other.descriptions.len() == self.descriptions.len(),
            other.in_rooms.len() == self.in_rooms.len(),
            other.players.len() == self.players.len(),
            other.npcs.len() == self.npcs.len(),
            other.items.len() == self.items.len(),
            other.moves.len() == self.moves.len(),
            other.changes.len() == self.changes.len(),
        ensures
            other.wf(),
    {
        assert forall|c: Entity, j: int|
            c < other.n() && other.has_storage(c) && 0 <= j < other.storage_of(c).len()
                implies (#[trigger] other.storage_of(c)[j]) < other.n() by {
            assert(self.has_storage(c));
            assert(self.storage_of(c)[j] < self.n());
        }
    }

    /// One more entity, with no components attached yet.
    pub open spec fn plus_entity(self) -> WorldView {
        WorldView {
            descriptions: self.descriptions.push(None),
            in_rooms: self.in_rooms.push(None),
            storages: self.storages.push(None),
            players: self.players.push(false),
            npcs: self.npcs.push(false),
            items: self.items.push(false),
            moves: self.moves.push(None),
            changes: self.changes.push(None),
        }
    }
}

// ---------------------------------------------------------------------------
// The executable world
// ---------------------------------------------------------------------------

/// Tagged per-component storage, keyed by entity id.  All columns always
/// have the same length: one slot per created entity.
pub struct World {
    descriptions: Vec<Option<Description>>,
    in_rooms: Vec<Option<InRoom>>,
    storages: Vec<Option<Storage>>,
    players: Vec<bool>,
    npcs: Vec<bool>,
    items: Vec<bool>,
    moves: Vec<Option<ApplyMove>>,
    changes: Vec<Option<ApplyInventoryChange>>,
}

impl View for World {
    type V = WorldView;

    closed spec fn view(&self) -> WorldView {
        WorldView {
            descriptions: self.descriptions.deep_view(),
            in_rooms: self.in_rooms.deep_view(),
            storages: self.storages.deep_view(),
            players: self.players@,
            npcs: self.npcs@,
            items: self.items@,
            moves: self.moves.deep_view(),
            changes: self.changes.deep_view(),
        }
    }
}

impl World {
    /// An empty world with no entities.
    pub fn new() -> (w: World)
        ensures
            w@.n() == 0,
            w@.wf(),
            w@.location_exclusive(),
            w@ == (WorldView {
                descriptions: Seq::<Option<DescriptionView>>::empty(),
                in_rooms: Seq::<Option<RoomId>>::empty(),
                storages: Seq::<Option<Seq<Entity>>>::empty(),
                players: Seq::<bool>::empty(),
                npcs: Seq::<bool>::empty(),
                items: Seq::<bool>::empty(),
                moves: Seq::<Option<RoomId>>::empty(),
                changes: Seq::<Option<(Option<Entity>, Option<Entity>)>>::empty(),
            }),
    {
        let w = World {
            descriptions: Vec::new(),
            in_rooms: Vec::new(),
            storages: Vec::new(),
            players: Vec::new(),
            npcs: Vec::new(),
            items: Vec::new(),
            moves: Vec::new(),
            changes: Vec::new(),
        };
        proof {
            assert(w@.descriptions =~= Seq::<Option<DescriptionView>>::empty());
            assert(w@.in_rooms =~= Seq::<Option<RoomId>>::empty());
            assert(w@.storages =~= Seq::<Option<Seq<Entity>>>::empty());
            assert(w@.moves =~= Seq::<Option<RoomId>>::empty());
            assert(w@.changes =~= Seq::<Option<(Option<Entity>, Option<Entity>)>>::empty());
        }
        w
    }

    pub fn num_entities(&self) -> (n: usize)
        ensures
            n == self@.n(),
    {
        self.in_rooms.len()
    }

    /// Allocates a fresh entity with no components.
    pub fn create_entity(&mut self) -> (e: Entity)
        requires
            old(self)@.wf(),
        ensures
            final(self)@ == old(self)@.plus_entity(),
            e == old(self)@.n(),
            final(self)@.wf(),
    {
        let e = self.in_rooms.len();
        self.descriptions.push(None);
        self.in_rooms.push(None);
        self.storages.push(None);
        self.players.push(false);
        self.npcs.push(false);
        self.items.push(false);
        self.moves.push(None);
        self.changes.push(None);
        proof {
            assert(self@.descriptions =~= old(self)@.descriptions.push(None));
            assert(self@.in_rooms =~= old(self)@.in_rooms.push(None));
            assert(self@.storages =~= old(self)@.storages.push(None));
            assert(self@.moves =~= old(self)@.moves.push(None));
            assert(self@.changes =~= old(self)@.changes.push(None));
            assert forall|c: Entity, j: int|
                c < self@.n() && self@.has_storage(c) && 0 <= j < self@.storage_of(c).len()
                    implies (#[trigger] self@.storage_of(c)[j]) < self@.n() by {
                assert(old(self)@.has_storage(c) && old(self)@.storage_of(c) == self@.storage_of(c));
            }
        }
        e
    }

    pub fn set_description(&mut self, e: Entity, d: Description)
        requires
            old(self)@.wf(),
            e < old(self)@.n(),
        ensures
            final(self)@ == old(self)@.with_desc(e, d@),
            final(self)@.wf(),
    {
        self.descriptions[e] = Some(d);
        proof {
            assert(self@.descriptions =~= old(self)@.descriptions.update(e as int, Some(d@)));
            assert(self@ == old(self)@.with_desc(e, d@));
            old(self)@.lemma_wf_same_storages(self@);
        }
    }

    pub fn set_in_room(&mut self, e: Entity, room: RoomId)
        requires
            old(self)@.wf(),
            e < old(self)@.n(),
        ensures
            final(self)@ == old(self)@.with_in_room(e, room),
            final(self)@.wf(),
    {
        self.in_rooms[e] = Some(InRoom { room });
        proof {
            assert(self@.in_rooms =~= old(self)@.in_rooms.update(e as int, Some(room)));
            assert(self@ == old(self)@.with_in_room(e, room));
            old(self)@.lemma_wf_same_storages(self@);
        }
    }

    pub fn remove_in_room(&mut self, e: Entity)
        requires
            old(self)@.wf(),
            e < old(self)@.n(),
        ensures
            final(self)@ == old(self)@.without_in_room(e),
            final(self)@.wf(),
    {
        self.in_rooms[e] = None;
        proof {
            assert(self@.in_rooms =~= old(self)@.in_rooms.update(e as int, None));
            assert(self@ == old(self)@.without_in_room(e));
            old(self)@.lemma_wf_same_storages(self@);
        }
    }

    pub fn set_storage(&mut self, e: Entity, st: Storage)
        requires
            old(self)@.wf(),
            e < old(self)@.n(),
            forall|j: int| 0 <= j < st.deep_view().len() ==> st.deep_view()[j] < old(self)@.n(),
        ensures
            final(self)@ == old(self)@.with_items(e, st.deep_view()),
            final(self)@.wf(),
    {
        let ghost stv = st.deep_view();
        self.storages[e] = Some(st);
        proof {
            assert(self@.storages =~= old(self)@.storages.update(e as int, Some(stv)));
            assert(self@ == old(self)@.with_items(e, stv));
            assert forall|c: Entity, j: int|
                c < self@.n() && self@.has_storage(c) && 0 <= j < self@.storage_of(c).len()
                    implies (#[trigger] self@.storage_of(c)[j]) < self@.n() by {
                if c != e {
                    assert(old(self)@.has_storage(c) && old(self)@.storage_of(c)
                        == self@.storage_of(c));
                }
            }
        }
    }

    pub fn set_player(&mut self, e: Entity)
        requires
            old(self)@.wf(),
            e < old(self)@.n(),
        ensures
            final(self)@ == old(self)@.with_player(e),
            final(self)@.wf(),
    {
        self.players[e] = true;
        proof {
            assert(self@.players =~= old(self)@.players.update(e as int, true));
            assert(self@ == old(self)@.with_player(e));
            old(self)@.lemma_wf_same_storages(self@);
        }
    }

    pub fn set_npc(&mut self, e: Entity)
        requires
            old(self)@.wf(),
            e < old(self)@.n(),
        ensures
            final(self)@ == old(self)@.with_npc(e),
            final(self)@.wf(),
    {
        self.npcs[e] = true;
        proof {
            assert(self@.npcs =~= old(self)@.npcs.update(e as int, true));
            assert(self@ == old(self)@.with_npc(e));
            old(self)@.lemma_wf_same_storages(self@);
        }
    }

    pub fn set_item(&mut self, e: Entity)
        requires
            old(self)@.wf(),
            e < old(self)@.n(),
        ensures
            final(self)@ == old(self)@.with_item(e),
            final(self)@.wf(),
    {
        self.items[e] = true;
        proof {
            assert(self@.items =~= old(self)@.items.update(e as int, true));
            assert(self@ == old(self)@.with_item(e));
            old(self)@.lemma_wf_same_storages(self@);
        }
    }

    pub fn set_move(&mut self, e: Entity, room: RoomId)
        requires
            old(self)@.wf(),
            e < old(self)@.n(),
        ensures
            final(self)@ == old(self)@.with_move(e, room),
            final(self)@.wf(),
    {
        self.moves[e] = Some(ApplyMove { room });
        proof {
            assert(self@.moves =~= old(self)@.moves.update(e as int, Some(room)));
            assert(self@ == old(self)@.with_move(e, room));
            old(self)@.lemma_wf_same_storages(self@);
        }
    }

    pub fn set_change(&mut self, e: Entity, from: Option<Entity>, to: Option<Entity>)
        requires
            old(self)@.wf(),
            e < old(self)@.n(),
        ensures
            final(self)@ == old(self)@.with_change(e, from, to),
            final(self)@.wf(),
    {
        self.changes[e] = Some(ApplyInventoryChange { from_container: from, to_container: to });
        proof {
            assert(self@.changes =~= old(self)@.changes.update(e as int, Some((from, to))));
            assert(self@ == old(self)@.with_change(e, from, to));
            old(self)@.lemma_wf_same_storages(self@);
        }
    }

    /// Appends `e` to container `c`'s contents.
    pub fn storage_push(&mut self, c: Entity, e: Entity)
        requires
            old(self)@.wf(),
            old(self)@.has_storage(c),
            e < old(self)@.n(),
        ensures
            final(self)@ == old(self)@.with_items(c, old(self)@.storage_of(c).push(e)),
            final(self)@.wf(),
    {
        let ghost oldv = self@;
        match &mut self.storages[c] {
            Some(st) => st.items.push(e),
            None => {
                proof {
                    assert(false);
                }
            },
        }
        proof {
            assert(self@.storages =~= oldv.storages.update(
                c as int,
                Some(oldv.storage_of(c).push(e)),
            ));
            assert(self@ == oldv.with_items(c, oldv.storage_of(c).push(e)));
            let newv = self@;
            assert forall|c2: Entity, j: int|
                c2 < newv.n() && newv.has_storage(c2) && 0 <= j < newv.storage_of(c2).len()
                    implies (#[trigger] newv.storage_of(c2)[j]) < newv.n() by {
                if c2 == c {
                    if j < oldv.storage_of(c).len() {
                        assert(oldv.storage_of(c)[j] < oldv.n());
                    } else {
                        assert(newv.storage_of(c2)[j] == e);
                    }
                } else {
                    assert(oldv.has_storage(c2) && oldv.storage_of(c2) == newv.storage_of(c2));
                }
            }
        }
    }

    /// Removes the first occurrence of `e` from container `c`'s contents;
    /// removes nothing if `e` is not there.
    pub fn storage_remove_first(&mut self, c: Entity, e: Entity)
        requires
            old(self)@.wf(),
            old(self)@.has_storage(c),
        ensures
            final(self)@ == old(self)@.with_items(
                c,
                seq_remove_first(old(self)@.storage_of(c), e),
            ),
            final(self)@.wf(),
    {
        let ghost oldv = self@;
        let ghost olditems = self@.storage_of(c);
        match &mut self.storages[c] {
            Some(st) => {
                let len = st.items.len();
                let mut i: usize = 0;
                let mut hit: Option<usize> = None;
                while i < len && hit.is_none()
                    invariant
                        i <= len,
                        len == st.items@.len(),
                        st.items@ == olditems,
                        match hit {
                            Some(k) => k == i && k < len && olditems[k as int] == e
                                && first_index(olditems, e, 0) == k,
                            None => first_index(olditems, e, 0) == first_index(
                                olditems,
                                e,
                                i as int,
                            ),
                        },
                    decreases len - i, (if hit is Some { 0int } else { 1int }),
                {
                    if st.items[i] == e {
                        hit = Some(i);
                    } else {
                        i += 1;
                    }
                }
                proof {
                    lemma_first_index(olditems, e, 0);
                }
                match hit {
                    Some(k) => {
                        st.items.remove(k);
                        proof {
                            assert(st.items@ =~= seq_remove_first(olditems, e));
                        }
                    },
                    None => {
                        proof {
                            assert(first_index(olditems, e, 0) == olditems.len());
                            assert(st.items@ =~= seq_remove_first(olditems, e));
                        }
                    },
                }
            },
            None => {
                proof {
                    assert(false);
                }
            },
        }
        proof {
            let newitems = seq_remove_first(olditems, e);
            assert(self@.storages =~= oldv.storages.update(c as int, Some(newitems)));
            assert(self@ == oldv.with_items(c, newitems));
            let newv = self@;
            lemma_first_index(olditems, e, 0);
            assert forall|c2: Entity, j: int|
                c2 < newv.n() && newv.has_storage(c2) && 0 <= j < newv.storage_of(c2).len()
                    implies (#[trigger] newv.storage_of(c2)[j]) < newv.n() by {
                if c2 == c {
                    let fi = first_index(olditems, e, 0);
                    if fi < olditems.len() {
                        if j < fi {
                            assert(newv.storage_of(c2)[j] == olditems[j]);
                            assert(oldv.storage_of(c)[j] < oldv.n());
                        } else {
                            assert(newv.storage_of(c2)[j] == olditems[j + 1]);
                            assert(oldv.storage_of(c)[j + 1] < oldv.n());
                        }
                    } else {
                        assert(oldv.storage_of(c)[j] < oldv.n());
                    }
                } else {
                    assert(oldv.has_storage(c2) && oldv.storage_of(c2) == newv.storage_of(c2));
                }
            }
        }
    }

    /// Clears every pending move intent.
    pub fn clear_moves(&mut self)
        requires
            old(self)@.wf(),
        ensures
            final(self)@ == old(self)@.cleared_moves(),
            final(self)@.wf(),
    {
        let ghost oldv = self@;
        let n = self.moves.len();
        let mut e: usize = 0;
        while e < n
            invariant
                e <= n,
                n == self@.moves.len(),
                self@.moves.len() == oldv.moves.len(),
                forall|x: int| 0 <= x < e ==> self@.moves[x] is None,
                forall|x: int| e <= x < n ==> self@.moves[x] == oldv.moves[x],
                self@ == (WorldView { moves: self@.moves, ..oldv }),
            decreases n - e,
        {
            let ghost prev = self@;
            self.moves[e] = None;
            proof {
                assert(self@.moves =~= prev.moves.update(e as int, None::<RoomId>));
            }
            e += 1;
        }
        proof {
            assert(self@.moves =~= Seq::new(oldv.moves.len(), |i: int| None::<RoomId>));
            assert(self@ == oldv.cleared_moves());
            oldv.lemma_wf_same_storages(self@);
        }
    }

    /// Clears every pending inventory-change intent.
    pub fn clear_changes(&mut self)
        requires
            old(self)@.wf(),
        ensures
            final(self)@ == old(self)@.cleared_changes(),
            final(self)@.wf(),
    {
        let ghost oldv = self@;
        let n = self.changes.len();
        let mut e: usize = 0;
        while e < n
            invariant
                e <= n,
                n == self@.changes.len(),
                self@.changes.len() == oldv.changes.len(),
                forall|x: int| 0 <= x < e ==> self@.changes[x] is None,
                forall|x: int| e <= x < n ==> self@.changes[x] == oldv.changes[x],
                self@ == (WorldView { changes: self@.changes, ..oldv }),
            decreases n - e,
        {
            let ghost prev = self@;
            self.changes[e] = None;
            proof {
                assert(self@.changes =~= prev.changes.update(
                    e as int,
                    None::<(Option<Entity>, Option<Entity>)>,
                ));
            }
            e += 1;
        }
        proof {
            assert(self@.changes =~= Seq::new(
                oldv.changes.len(),
                |i: int| None::<(Option<Entity>, Option<Entity>)>,
            ));
            assert(self@ == oldv.cleared_changes());
            oldv.lemma_wf_same_storages(self@);
        }
    }

    // -- read access ---------------------------------------------------------

    pub fn get_description(&self, e: Entity) -> (r: Option<&Description>)
        requires
            self@.wf(),
            e < self@.n(),
        ensures
            r is Some <==> self@.has_desc(e),
            r is Some ==> r->0@ == self@.desc_of(e),
    {
        match &self.descriptions[e] {
            Some(d) => Some(d),
            None => None,
        }
    }

    pub fn get_in_room(&self, e: Entity) -> (r: Option<RoomId>)
        requires
            self@.wf(),
            e < self@.n(),
        ensures
            r is Some <==> self@.has_in_room(e),
            r is Some ==> r->0 == self@.room_of(e),
    {
        match &self.in_rooms[e] {
            Some(ir) => Some(ir.room),
            None => None,
        }
    }

    pub fn has_storage(&self, e: Entity) -> (r: bool)
        requires
            self@.wf(),
            e < self@.n(),
        ensures
            r == self@.has_storage(e),
    {
        self.storages[e].is_some()
    }

    pub fn storage_items(&self, e: Entity) -> (r: Option<&Vec<Entity>>)
        requires
            self@.wf(),
            e < self@.n(),
        ensures
            r is Some <==> self@.has_storage(e),
            r is Some ==> r->0@ == self@.storage_of(e),
    {
        match &self.storages[e] {
            Some(st) => Some(&st.items),
            None => None,
        }
    }

    pub fn is_item(&self, e: Entity) -> (r: bool)
        requires
            self@.wf(),
            e < self@.n(),
        ensures
            r == self@.is_item(e),
    {
        self.items[e]
    }

    pub fn is_player(&self, e: Entity) -> (r: bool)
        requires
            self@.wf(),
            e < self@.n(),
        ensures
            r == self@.is_player(e),
    {
        self.players[e]
    }

    pub fn get_move(&self, e: Entity) -> (r: Option<RoomId>)
        requires
            self@.wf(),
            e < self@.n(),
        ensures
            r is Some <==> self@.has_move(e),
            r is Some ==> r->0 == self@.move_of(e),
    {
        match &self.moves[e] {
            Some(m) => Some(m.room),
            None => None,
        }
    }

    pub fn get_change(&self, e: Entity) -> (r: Option<(Option<Entity>, Option<Entity>)>)
        requires
            self@.wf(),
            e < self@.n(),
        ensures
            r is Some <==> self@.has_change(e),
            r is Some ==> r->0 == self@.change_of(e),
    {
        match &self.changes[e] {
            Some(ch) => Some((ch.from_container, ch.to_container)),
            None => None,
        }
    }
}

// ---------------------------------------------------------------------------
// Scope resolution
// ---------------------------------------------------------------------------

impl WorldView {
    /// `e` is visible to `actor`: it shares `actor`'s room or sits in
    /// `actor`'s own storage.
    pub open spec fn in_scope(self, actor: Entity, e: Entity) -> bool {
        (self.has_in_room(actor) && self.has_in_room(e) && self.room_of(e) == self.room_of(actor))
            || self.stored_in(actor, e)
    }

    /// `e` is in `actor`'s scope and its glance starts with `prefix`.
    pub open spec fn scope_match(self, actor: Entity, prefix: Seq<char>, e: Entity) -> bool {
        e < self.n() && self.in_scope(actor, e) && self.has_desc(e) && starts_with(
            self.glance_of(e),
            prefix,
        )
    }

    /// `e` sits in container `c` and its glance starts with `prefix`.
    pub open spec fn container_match(self, c: Entity, prefix: Seq<char>, e: Entity) -> bool {
        e < self.n() && self.stored_in(c, e) && self.has_desc(e) && starts_with(
            self.glance_of(e),
            prefix,
        )
    }

    /// `e` is a pickable item standing in `room` whose glance starts with
    /// `prefix`.
    pub open spec fn room_item_match(self, room: RoomId, prefix: Seq<char>, e: Entity) -> bool {
        e < self.n() && self.is_item(e) && self.has_in_room(e) && self.room_of(e) == room
            && self.has_desc(e) && starts_with(self.glance_of(e), prefix)
    }

    /// `e` stands in `room` and its glance starts with `prefix`.
    pub open spec fn room_named_match(self, room: RoomId, prefix: Seq<char>, e: Entity) -> bool {
        e < self.n() && self.has_in_room(e) && self.room_of(e) == room && self.has_desc(e)
            && starts_with(self.glance_of(e), prefix)
    }

    /// The glances of all entities standing in `room` with ids below `i`,
    /// in entity-creation order.
    pub open spec fn room_glances_upto(self, room: RoomId, i: int) -> Seq<Seq<char>>
        decreases i,
    {
        if i <= 0 {
            Seq::<Seq<char>>::empty()
        } else {
            let e = (i - 1) as Entity;
            let p = self.room_glances_upto(room, i - 1);
            if self.has_in_room(e) && self.room_of(e) == room && self.has_desc(e) {
                p.push(self.glance_of(e))
            } else {
                p
            }
        }
    }

    /// The glances of all entities standing in `room`, in creation order.
    pub open spec fn room_glances(self, room: RoomId) -> Seq<Seq<char>> {
        self.room_glances_upto(room, self.n() as int)
    }
}

/// One "- glance" line for each entity of `items` from index `i` on.
pub open spec fn item_lines(w: WorldView, items: Seq<Entity>, i: int) -> Seq<Seq<char>>
    decreases items.len() - i,
{
    if i < 0 || i >= items.len() {
        Seq::<Seq<char>>::empty()
    } else {
        seq!["- "@ + w.glance_of(items[i])] + item_lines(w, items, i + 1)
    }
}

impl World {
    /// Whether container `c` holds entity `e`.
    pub fn storage_contains(&self, c: Entity, e: Entity) -> (r: bool)
        requires
            self@.wf(),
            c < self@.n(),
        ensures
            r == self@.stored_in(c, e),
    {
        match self.storage_items(c) {
            None => false,
            Some(items) => {
                let mut i: usize = 0;
                let mut found = false;
                while i < items.len()
                    invariant
                        i <= items@.len(),
                        items@ == self@.storage_of(c),
                        found == exists|j: int| 0 <= j < i && items@[j] == e,
                    decreases items@.len() - i,
                {
                    if items[i] == e {
                        found = true;
                    }
                    i += 1;
                }
                found
            },
        }
    }

    /// Resolves `prefix` against the glances of everything `actor` can see:
    /// entities sharing its room and entities in its own storage.  The
    /// entity with the smallest id wins; ties cannot arise.
    pub fn resolve_in_scope(&self, actor: Entity, prefix: &str) -> (r: Option<Entity>)
        requires
            self@.wf(),
            actor < self@.n(),
        ensures
            match r {
                Some(e) => self@.scope_match(actor, prefix@, e) && forall|e2: Entity|
                    e2 < e ==> !self@.scope_match(actor, prefix@, e2),
                None => forall|e2: Entity| !self@.scope_match(actor, prefix@, e2),
            },
    {
        let n = self.num_entities();
        let mut e: usize = 0;
        while e < n
            invariant
                e <= n,
                n == self@.n(),
                self@.wf(),
                actor < self@.n(),
                forall|e2: Entity| e2 < e ==> !self@.scope_match(actor, prefix@, e2),
            decreases n - e,
        {
            let shares_room = match (self.get_in_room(actor), self.get_in_room(e)) {
                (Some(ra), Some(re)) => ra == re,
                _ => false,
            };
            if shares_room || self.storage_contains(actor, e) {
                match self.get_description(e) {
                    Some(d) => {
                        if str_starts_with(d.glance.as_str(), prefix) {
                            return Some(e);
                        }
                    },
                    None => {},
                }
            }
            proof {
                assert(!self@.scope_match(actor, prefix@, e));
            }
            e += 1;
        }
        proof {
            assert forall|e2: Entity| !self@.scope_match(actor, prefix@, e2) by {
                if e2 < n {
                    assert(!self@.scope_match(actor, prefix@, e2));
                }
            }
        }
        None
    }

    /// Resolves `prefix` against the glances of one container's contents;
    /// `None` if the container has no storage or nothing matches.
    pub fn resolve_in_container(&self, container: Entity, prefix: &str) -> (r: Option<Entity>)
        requires
            self@.wf(),
            container < self@.n(),
        ensures
            match r {
                Some(e) => self@.container_match(container, prefix@, e) && forall|e2: Entity|
                    e2 < e ==> !self@.container_match(container, prefix@, e2),
                None => forall|e2: Entity| !self@.container_match(container, prefix@, e2),
            },
    {
        let n = self.num_entities();
        let mut e: usize = 0;
        while e < n
            invariant
                e <= n,
                n == self@.n(),
                self@.wf(),
                container < self@.n(),
                forall|e2: Entity| e2 < e ==> !self@.container_match(container, prefix@, e2),
            decreases n - e,
        {
            if self.storage_contains(container, e) {
                match self.get_description(e) {
                    Some(d) => {
                        if str_starts_with(d.glance.as_str(), prefix) {
                            return Some(e);
                        }
                    },
                    None => {},
                }
            }
            proof {
                assert(!self@.container_match(container, prefix@, e));
            }
            e += 1;
        }
        proof {
            assert forall|e2: Entity| !self@.container_match(container, prefix@, e2) by {
                if e2 < n {
                    assert(!self@.container_match(container, prefix@, e2));
                }
            }
        }
        None
    }

    /// Resolves `prefix` against the pickable items standing in `room`.
    pub fn resolve_item_in_room(&self, room: RoomId, prefix: &str) -> (r: Option<Entity>)
        requires
            self@.wf(),
        ensures
            match r {
                Some(e) => self@.room_item_match(room, prefix@, e) && forall|e2: Entity|
                    e2 < e ==> !self@.room_item_match(room, prefix@, e2),
                None => forall|e2: Entity| !self@.room_item_match(room, prefix@, e2),
            },
    {
        let n = self.num_entities();
        let mut e: usize = 0;
        while e < n
            invariant
                e <= n,
                n == self@.n(),
                self@.wf(),
                forall|e2: Entity| e2 < e ==> !self@.room_item_match(room, prefix@, e2),
            decreases n - e,
        {
            let placed = match self.get_in_room(e) {
                Some(re) => re == room,
                None => false,
            };
            if placed && self.is_item(e) {
                match self.get_description(e) {
                    Some(d) => {
                        if str_starts_with(d.glance.as_str(), prefix) {
                            return Some(e);
                        }
                    },
                    None => {},
                }
            }
            proof {
                assert(!self@.room_item_match(room, prefix@, e));
            }
            e += 1;
        }
        proof {
            assert forall|e2: Entity| !self@.room_item_match(room, prefix@, e2) by {
                if e2 < n {
                    assert(!self@.room_item_match(room, prefix@, e2));
                }
            }
        }
        None
    }

    /// Resolves `prefix` against the glances of everything standing in
    /// `room`, containers and scenery alike.
    pub fn resolve_named_in_room(&self, room: RoomId, prefix: &str) -> (r: Option<Entity>)
        requires
            self@.wf(),
        ensures
            match r {
                Some(e) => self@.room_named_match(room, prefix@, e) && forall|e2: Entity|
                    e2 < e ==> !self@.room_named_match(room, prefix@, e2),
                None => forall|e2: Entity| !self@.room_named_match(room, prefix@, e2),
            },
    {
        let n = self.num_entities();
        let mut e: usize = 0;
        while e < n
            invariant
                e <= n,
                n == self@.n(),
                self@.wf(),
                forall|e2: Entity| e2 < e ==> !self@.room_named_match(room, prefix@, e2),
            decreases n - e,
        {
            let placed = match self.get_in_room(e) {
                Some(re) => re == room,
                None => false,
            };
            if placed {
                match self.get_description(e) {
                    Some(d) => {
                        if str_starts_with(d.glance.as_str(), prefix) {
                            return Some(e);
                        }
                    },
                    None => {},
                }
            }
            proof {
                assert(!self@.room_named_match(room, prefix@, e));
            }
            e += 1;
        }
        proof {
            assert forall|e2: Entity| !self@.room_named_match(room, prefix@, e2) by {
                if e2 < n {
                    assert(!self@.room_named_match(room, prefix@, e2));
                }
            }
        }
        None
    }

    /// One "- glance" line for each entity of `items`, in order.
    pub fn list_item_lines(&self, c: Entity) -> (out: Vec<String>)
        requires
            self@.wf(),
            self@.has_storage(c),
            forall|j: int|
                0 <= j < self@.storage_of(c).len() ==> self@.has_desc(
                    #[trigger] self@.storage_of(c)[j],
                ),
        ensures
            out.deep_view() == item_lines(self@, self@.storage_of(c), 0),
    {
        let ghost itemsv = self@.storage_of(c);
        let items = match self.storage_items(c) {
            Some(it) => it,
            None => {
                proof {
                    assert(false);
                }
                return Vec::new();
            },
        };
        let mut out: Vec<String> = Vec::new();
        let mut i: usize = 0;
        proof {
            assert(out.deep_view() + item_lines(self@, itemsv, 0) =~= item_lines(self@, itemsv, 0));
        }
        while i < items.len()
            invariant
                i <= items@.len(),
                items@ == itemsv,
                itemsv == self@.storage_of(c),
                self@.wf(),
                self@.has_storage(c),
                forall|j: int|
                    0 <= j < itemsv.len() ==> self@.has_desc(#[trigger] itemsv[j]),
                out.deep_view() + item_lines(self@, itemsv, i as int) == item_lines(
                    self@,
                    itemsv,
                    0,
                ),
            decreases items@.len() - i,
        {
            let ghost out0 = out.deep_view();
            let it = items[i];
            proof {
                assert(self@.has_desc(itemsv[i as int]));
                assert(it < self@.n());
            }
            let mut line = String::from_str("- ");
            match self.get_description(it) {
                Some(d) => {
                    line.append(d.glance.as_str());
                },
                None => {
                    proof {
                        assert(false);
                    }
                },
            }
            out.push(line);
            proof {
                assert(out.deep_view() =~= out0.push("- "@ + self@.glance_of(itemsv[i as int])));
                assert(item_lines(self@, itemsv, i as int) == seq![
                    "- "@ + self@.glance_of(itemsv[i as int]),
                ] + item_lines(self@, itemsv, i + 1));
                assert(out.deep_view() + item_lines(self@, itemsv, i + 1) =~= out0 + item_lines(
                    self@,
                    itemsv,
                    i as int,
                ));
            }
            i += 1;
        }
        proof {
            assert(item_lines(self@, itemsv, itemsv.len() as int) =~= Seq::<Seq<char>>::empty());
            assert(out.deep_view() =~= out.deep_view() + item_lines(
                self@,
                itemsv,
                itemsv.len() as int,
            ));
        }
        out
    }

    /// The glances of everything standing in `room`, in creation order.
    pub fn collect_room_glances(&self, room: RoomId) -> (out: Vec<String>)
        requires
            self@.wf(),
        ensures
            out.deep_view() == self@.room_glances(room),
    {
        let n = self.num_entities();
        let mut out: Vec<String> = Vec::new();
        let mut e: usize = 0;
        while e < n
            invariant
                e <= n,
                n == self@.n(),
                self@.wf(),
                out.deep_view() == self@.room_glances_upto(room, e as int),
            decreases n - e,
        {
            let ghost out0 = out.deep_view();
            let placed = match self.get_in_room(e) {
                Some(re) => re == room,
                None => false,
            };
            if placed {
                match self.get_description(e) {
                    Some(d) => {
                        out.push(String::from_str(d.glance.as_str()));
                        proof {
                            assert(out.deep_view() =~= out0.push(self@.glance_of(e)));
                        }
                    },
                    None => {},
                }
            }
            e += 1;
        }
        out
    }
}

// ---------------------------------------------------------------------------
// Runtime validation, for worlds supplied from outside
// ---------------------------------------------------------------------------

fn vec_no_dup(items: &Vec<Entity>) -> (r: bool)
    ensures
        r == items@.no_duplicates(),
{
    let n = items.len();
    let mut i: usize = 0;
    while i < n
        invariant
            i <= n,
            n == items@.len(),
            forall|p: int, q: int| 0 <= p < q < n && p < i ==> items@[p] != items@[q],
        decreases n - i,
    {
        let mut j: usize = i + 1;
        while j < n
            invariant
                i < j <= n,
                n == items@.len(),
                forall|q: int| i < q < j ==> items@[i as int] != items@[q],
            decreases n - j,
        {
            if items[i] == items[j] {
                proof {
                    assert(items@[i as int] == items@[j as int]);
                    assert(!items@.no_duplicates());
                }
                return false;
            }
            j += 1;
        }
        i += 1;
    }
    true
}

impl World {
    /// Whether `e` sits inside any container at all.
    pub fn in_any_storage(&self, e: Entity) -> (r: bool)
        requires
            self@.wf(),
        ensures
            r == self@.in_some_storage(e),
    {
        let n = self.num_entities();
        let mut c: usize = 0;
        while c < n
            invariant
                c <= n,
                n == self@.n(),
                self@.wf(),
                forall|c2: Entity| c2 < c ==> !self@.stored_in(c2, e),
            decreases n - c,
        {
            if self.storage_contains(c, e) {
                proof {
                    assert(self@.stored_in(c, e));
                }
                return true;
            }
            c += 1;
        }
        proof {
            if self@.in_some_storage(e) {
                let c2 = choose|c2: Entity| c2 < self@.n() && #[trigger] self@.stored_in(c2, e);
                assert(!self@.stored_in(c2, e));
            }
        }
        false
    }

    /// Checks location exclusivity over the whole store.
    pub fn check_location_exclusive(&self) -> (r: bool)
        requires
            self@.wf(),
        ensures
            r == self@.location_exclusive(),
    {
        let n = self.num_entities();
        // every entity is placed exactly one way
        let mut e: usize = 0;
        while e < n
            invariant
                e <= n,
                n == self@.n(),
                self@.wf(),
                forall|e2: Entity|
                    e2 < e ==> ((#[trigger] self@.has_in_room(e2)) <==> !self@.in_some_storage(
                        e2,
                    )),
            decreases n - e,
        {
            let placed = self.get_in_room(e).is_some();
            let held = self.in_any_storage(e);
            if placed == held {
                proof {
                    assert(!self@.placed_once());
                }
                return false;
            }
            e += 1;
        }
        proof {
            assert(self@.placed_once());
        }
        // no entity sits in two containers
        let mut x: usize = 0;
        while x < n
            invariant
                x <= n,
                n == self@.n(),
                self@.wf(),
                forall|c1: Entity, c2: Entity, x2: Entity|
                    x2 < x && c1 < n && c2 < n && #[trigger] self@.stored_in(c1, x2)
                        && #[trigger] self@.stored_in(c2, x2) ==> c1 == c2,
            decreases n - x,
        {
            let mut holder: Option<Entity> = None;
            let mut c: usize = 0;
            while c < n
                invariant
                    c <= n,
                    n == self@.n(),
                    self@.wf(),
                    match holder {
                        Some(h) => h < c && self@.stored_in(h, x) && forall|c2: Entity|
                            c2 < c && c2 != h ==> !self@.stored_in(c2, x),
                        None => forall|c2: Entity| c2 < c ==> !self@.stored_in(c2, x),
                    },
                decreases n - c,
            {
                if self.storage_contains(c, x) {
                    match holder {
                        Some(h) => {
                            proof {
                                assert(self@.stored_in(h, x) && self@.stored_in(c, x) && h != c);
                                assert(!self@.containers_unique());
                            }
                            return false;
                        },
                        None => {
                            holder = Some(c);
                        },
                    }
                }
                c += 1;
            }
            proof {
                assert forall|c1: Entity, c2: Entity|
                    c1 < n && c2 < n && #[trigger] self@.stored_in(c1, x) && #[trigger] self@.stored_in(
                        c2,
                        x,
                    ) implies c1 == c2 by {
                    match holder {
                        Some(h) => {
                            assert(c1 == h && c2 == h);
                        },
                        None => {
                            assert(!self@.stored_in(c1, x));
                        },
                    }
                }
            }
            x += 1;
        }
        proof {
            assert forall|c1: Entity, c2: Entity, x2: Entity|
                c1 < self@.n() && c2 < self@.n() && #[trigger] self@.stored_in(c1, x2)
                    && #[trigger] self@.stored_in(c2, x2) implies c1 == c2 by {
                let j = choose|j: int|
                    0 <= j < self@.storage_of(c1).len() && self@.storage_of(c1)[j] == x2;
                assert(self@.storage_of(c1)[j] < self@.n());
            }
            assert(self@.containers_unique());
        }
        // no container lists an entity twice
        let mut c: usize = 0;
        while c < n
            invariant
                c <= n,
                n == self@.n(),
                self@.wf(),
                forall|c2: Entity|
                    c2 < c && self@.has_storage(c2) ==> (#[trigger] self@.storage_of(
                        c2,
                    )).no_duplicates(),
            decreases n - c,
        {
            match self.storage_items(c) {
                Some(items) => {
                    if !vec_no_dup(items) {
                        proof {
                            assert(!self@.storages_no_dup());
                        }
                        return false;
                    }
                },
                None => {},
            }
            c += 1;
        }
        proof {
            assert(self@.storages_no_dup());
        }
        true
    }

    /// Checks that everything held in a container has a description.
    pub fn check_stored_described(&self) -> (r: bool)
        requires
            self@.wf(),
        ensures
            r == self@.stored_described(),
    {
        let n = self.num_entities();
        let mut c: usize = 0;
        while c < n
            invariant
                c <= n,
                n == self@.n(),
                self@.wf(),
                forall|c2: Entity, x: Entity|
                    c2 < c && #[trigger] self@.stored_in(c2, x) ==> self@.has_desc(x),
            decreases n - c,
        {
            let items_len = match self.storage_items(c) {
                Some(items) => items.len(),
                None => 0,
            };
            let mut j: usize = 0;
            while j < items_len
                invariant
                    j <= items_len,
                    n == self@.n(),
                    self@.wf(),
                    c < n,
                    self@.has_storage(c) ==> items_len == self@.storage_of(c).len(),
                    !self@.has_storage(c) ==> items_len == 0,
                    forall|j2: int|
                        0 <= j2 < j && self@.has_storage(c) ==> self@.has_desc(
                            #[trigger] self@.storage_of(c)[j2],
                        ),
                decreases items_len - j,
            {
                let it = match self.storage_items(c) {
                    Some(items) => items[j],
                    None => 0,
                };
                proof {
                    assert(self@.storage_of(c)[j as int] < self@.n());
                }
                if self.get_description(it).is_none() {
                    proof {
                        assert(self@.storage_of(c).contains(it));
                        assert(self@.stored_in(c, it));
                        assert(!self@.stored_described());
                    }
                    return false;
                }
                j += 1;
            }
            proof {
                assert forall|x: Entity| #[trigger] self@.stored_in(c, x) implies self@.has_desc(
                    x,
                ) by {
                    let j2 = choose|j2: int|
                        0 <= j2 < self@.storage_of(c).len() && self@.storage_of(c)[j2] == x;
                    assert(self@.has_desc(self@.storage_of(c)[j2]));
                }
            }
            c += 1;
        }
        proof {
            assert(self@.stored_described());
        }
        true
    }

    /// Checks that every pending inventory change names real places.
    pub fn check_changes_valid(&self) -> (r: bool)
        requires
            self@.wf(),
        ensures
            r == self@.changes_valid(),
    {
        let n = self.num_entities();
        let mut e: usize = 0;
        while e < n
            invariant
                e <= n,
                n == self@.n(),
                self@.wf(),
                forall|e2: Entity| e2 < e ==> #[trigger] self@.change_valid(e2),
            decreases n - e,
        {
            let ok = match self.get_change(e) {
                None => true,
                Some((from, to)) => {
                    match (from, to) {
                        (Some(f), Some(t)) => t < n && f < n && self.storage_contains(f, e),
                        (Some(f), None) => f < n && self.storage_contains(f, e),
                        (None, Some(t)) => t < n && self.get_description(e).is_some(),
                        (None, None) => true,
                    }
                },
            };
            if !ok {
                proof {
                    assert(!self@.change_valid(e));
                    assert(!self@.changes_valid());
                }
                return false;
            }
            proof {
                assert(self@.change_valid(e));
            }
            e += 1;
        }
        true
    }
}

// ---------------------------------------------------------------------------
// Placement helpers
// ---------------------------------------------------------------------------

/// The room `entity` stands in, if it stands in one.
pub fn get_entity_room_id(entity: Entity, world: &World) -> (r: Option<RoomId>)
    requires
        world@.wf(),
        entity < world@.n(),
    ensures
        r is Some <==> world@.has_in_room(entity),
        r is Some ==> r->0 == world@.room_of(entity),
{
    world.get_in_room(entity)
}

impl WorldView {
    /// The entities standing in `room` with ids below `i`, ascending.
    pub open spec fn room_entities_upto(self, room: RoomId, i: int) -> Seq<Entity>
        decreases i,
    {
        if i <= 0 {
            Seq::<Entity>::empty()
        } else {
            let e = (i - 1) as Entity;
            let p = self.room_entities_upto(room, i - 1);
            if self.has_in_room(e) && self.room_of(e) == room {
                p.push(e)
            } else {
                p
            }
        }
    }

    /// The entities standing in `room`, in ascending id order.
    pub open spec fn room_entities(self, room: RoomId) -> Seq<Entity> {
        self.room_entities_upto(room, self.n() as int)
    }
}

/// All entities standing in `room_id`, in ascending id order.
pub fn get_room_entities(room_id: RoomId, world: &World) -> (out: Vec<Entity>)
    requires
        world@.wf(),
    ensures
        out@ == world@.room_entities(room_id),
{
    let n = world.num_entities();
    let mut out: Vec<Entity> = Vec::new();
    let mut e: usize = 0;
    while e < n
        invariant
            e <= n,
            n == world@.n(),
            world@.wf(),
            out@ == world@.room_entities_upto(room_id, e as int),
        decreases n - e,
    {
        let placed = match world.get_in_room(e) {
            Some(re) => re == room_id,
            None => false,
        };
        if placed {
            out.push(e);
        }
        e += 1;
    }
    out
}

/// A copy of the contents of `entity`'s storage, or `None` if it has none.
pub fn get_entities_in_storage(entity: Entity, world: &World) -> (r: Option<Vec<Entity>>)
    requires
        world@.wf(),
        entity < world@.n(),
    ensures
        r is Some <==> world@.has_storage(entity),
        r is Some ==> r->0@ == world@.storage_of(entity),
{
    match world.storage_items(entity) {
        None => None,
        Some(items) => {
            let mut out: Vec<Entity> = Vec::new();
            let mut i: usize = 0;
            while i < items.len()
                invariant
                    i <= items@.len(),
                    items@ == world@.storage_of(entity),
                    out@ == items@.subrange(0, i as int),
                decreases items@.len() - i,
            {
                out.push(items[i]);
                proof {
                    assert(out@ =~= items@.subrange(0, i + 1));
                }
                i += 1;
            }
            proof {
                assert(out@ =~= items@);
            }
            Some(out)
        },
    }
}

} // verus!
