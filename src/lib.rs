//! Rendering of directed graphs as box-drawing text.
//!
//! - `graph`: the store of nodes, edges and their derived indexes, with its
//!   mathematical model.
//! - `cycles`: cycle detection and cycle extraction over the store.
//! - `layout`: level assignment, crossing reduction, column assignment and
//!   the split into connected pieces.
//! - `order`: stable ordering by key and the median keys.
//! - `connect`: the connector lines drawn between two levels.
//! - `render`: rows, chains, the cycle report and the choice of layout.
//! - `properties`: facts about building and rendering that hold for every input.
//! - `generic` and `metrics`: utilities over caller-supplied ids.

pub mod connect;
pub mod cycles;
pub mod generic;
pub mod graph;
pub mod layout;
pub mod metrics;
pub mod order;
pub mod properties;
pub mod render;

pub use graph::{RenderMode, DAG};
