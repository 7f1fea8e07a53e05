//! Structural index over a nested document: nodes addressed by id, their key
//! paths from the document root, parent links, and ancestor queries.
pub mod laws;
pub mod lemmas;
pub mod node;
pub mod paths;
pub mod plugin;
pub mod queries;
pub mod value;

pub use plugin::CheckPathPlugin;
