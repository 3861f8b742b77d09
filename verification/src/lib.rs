//! Core engine of a cell-move / global-routing solver: identifier codec,
//! union-find, per-net route trees, the chip description and its text forms.

pub mod args;
pub mod chip;
pub mod components;
pub mod consts;
pub mod error;
pub mod loader;
pub mod readback;
pub mod reader;
pub mod replay;
pub mod text;
pub mod tree;
pub mod utilities;
pub mod walk;

pub use args::Args;
pub use chip::Chip;
pub use utilities::UnionFind;
