//! What the operations are for: laws that hold of their results, stated on coordinates, samples
//! and cells.
pub mod answers;
pub mod bytes;
pub mod cells;
pub mod chunks;
pub mod classes;
pub mod filling;
pub mod levels;
pub mod placing;
pub mod smoothing;
pub mod snapping;
pub mod trees;
