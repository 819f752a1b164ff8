//! Staging of single paths into a revision tree from facts that the caller
//! already knows, without ever looking at a file system.

pub mod answer_laws;
pub mod course;
pub mod direct_write;
pub mod effects;
pub mod errors;
pub mod frame;
pub mod laws;
pub mod lookup;
pub mod move_effects;
pub mod node;
pub mod path;
pub mod relocate;
pub mod relocate_laws;
pub mod staging;
pub mod staging_laws;
pub mod state;
pub mod tree;
pub mod walk;
pub mod walk_laws;
