//! Generational-index entity storage for a frame-stepped 2D simulation: a key
//! allocator, sparse per-attribute tables keyed by those keys, an ordered join
//! over two tables, the per-entity tables of one world, and the rule that
//! decides which contacts push an entity back out of terrain.
pub mod contact;
pub mod store;
pub mod unique_store;
