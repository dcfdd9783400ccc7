//! A turn-based, text-driven world simulator.
//!
//! Entities (the player, NPCs, items, containers) live in rooms connected by
//! gated exits.  Textual commands are parsed into intents, attached to the
//! acting entity as one-shot components, and resolved once per turn by the
//! movement and inventory resolvers.  Every state transition is verified:
//! in particular, the location-exclusivity invariant (an entity is either
//! directly in a room or inside exactly one container, never both, never
//! neither) is proved to hold at every quiescent point between turns.

pub mod components;
pub mod game;
pub mod laws;
pub mod manual_map;
pub mod map;
pub mod parser;
pub mod systems;
pub mod text;
pub mod world;
