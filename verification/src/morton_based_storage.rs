//! Storage backends keyed by Morton octant identifiers.

pub mod hashed_octant_storage;
pub mod morton_octant_id;
