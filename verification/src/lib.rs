//! A tile-based scalar field: a rectangular grid whose cells carry an aether
//! value and a crystal value, machines that act on the cells within their
//! reach, and the three passes that advance the grid by one tick.
//!
//! The grid is generic in the scalar that a cell holds. The per-cell arithmetic
//! is handed in as a function; the library decides which cells are touched, in
//! which order, and from which values each new value is computed.

pub mod cursor;
pub mod grid;
pub mod lemmas;
pub mod machine;
pub mod placement;
pub mod stepper;

pub use cursor::{cursor_input, tool_input, CursorCell};
pub use grid::{cell_world, FieldGrid, Neighbors};
pub use machine::{Machine, Tool};
pub use placement::{is_occupied, place_machine, Registry, Rejected};
pub use stepper::{apply_machines_to_field, diffuse_and_decay_field, stabilizers_make_crystal, tick};
