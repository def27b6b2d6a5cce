//! Enumeration of every elementary cycle of a finite, undirected, simple
//! graph by repeated vertex elimination, together with a canonical form that
//! identifies a discovered cycle across rotations and traversal directions.

pub mod all_cycles;
pub mod cycle;
pub mod error;
pub mod graph;
pub mod path;

pub use all_cycles::all_cycles;
pub use cycle::Cycle;
pub use error::Error;
pub use graph::Graph;
pub use path::Path;
