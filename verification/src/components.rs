//! The typed per-entity data records: descriptions, placement, containment,
//! the role markers, and the two one-shot intent components.

use vstd::prelude::*;

verus! {

/// An opaque entity identity; all component state is indexed by it.
pub type Entity = usize;

/// An opaque room identity, unique per map instance.
pub type RoomId = u64;

/// Long and short display text of an entity.  `glance` is the token matched
/// against command name prefixes; `description` is shown on inspection.
pub struct Description {
    pub description: String,
    pub glance: String,
    pub name: Option<String>,
}

/// The mathematical content of a `Description`.
pub ghost struct DescriptionView {
    pub description: Seq<char>,
    pub glance: Seq<char>,
    pub name: Option<Seq<char>>,
}

impl View for Description {
    type V = DescriptionView;

    open spec fn view(&self) -> DescriptionView {
        DescriptionView {
            description: self.description@,
            glance: self.glance@,
            name: match self.name {
                Some(ref n) => Some(n@),
                None => None,
            },
        }
    }
}

impl DeepView for Description {
    type V = DescriptionView;

    open spec fn deep_view(&self) -> DescriptionView {
        self.view()
    }
}

impl Description {
    /// An empty description: no text, no glance, no name.
    pub fn new() -> (d: Description)
        ensures
            d@.description.len() == 0,
            d@.glance.len() == 0,
            d@.name is None,
    {
        Description { description: String::new(), glance: String::new(), name: None }
    }
}

/// Present on an entity exactly when it stands directly in a room.
pub struct InRoom {
    pub room: RoomId,
}

impl DeepView for InRoom {
    type V = RoomId;

    open spec fn deep_view(&self) -> RoomId {
        self.room
    }
}

/// Present on entities that act as containers; `items` keeps insertion order.
pub struct Storage {
    pub items: Vec<Entity>,
}

impl DeepView for Storage {
    type V = Seq<Entity>;

    open spec fn deep_view(&self) -> Seq<Entity> {
        self.items@
    }
}

impl Storage {
    /// An empty container.
    pub fn new() -> (s: Storage)
        ensures
            s.deep_view() == Seq::<Entity>::empty(),
    {
        Storage { items: Vec::new() }
    }
}

/// Marks the acting player entity.
pub struct Player;

/// Marks a non-player character.
pub struct Npc;

/// Marks an entity that can be picked up.
pub struct Item;

/// One-shot intent: relocate the owner to `room` at the next resolution.
pub struct ApplyMove {
    pub room: RoomId,
}

impl DeepView for ApplyMove {
    type V = RoomId;

    open spec fn deep_view(&self) -> RoomId {
        self.room
    }
}

/// One-shot intent: move the owner out of `from_container` and into
/// `to_container`; `None` on either side means the world room the owner
/// occupies.
pub struct ApplyInventoryChange {
    pub from_container: Option<Entity>,
    pub to_container: Option<Entity>,
}

impl DeepView for ApplyInventoryChange {
    type V = (Option<Entity>, Option<Entity>);

    open spec fn deep_view(&self) -> (Option<Entity>, Option<Entity>) {
        (self.from_container, self.to_container)
    }
}

} // verus!
