//! Helper module with all common imports.

pub use crate::engine::generic::{count_neighbors, iter_grid, Automaton};
pub use crate::engine::ExecutionState;
pub use crate::frontend::RenderCell;
