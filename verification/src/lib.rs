//! meshcheck: a combinatorial topology auditor for oriented triangle meshes.
//!
//! The audit runs three checks in a fixed order and reports the smallest
//! witness of the first one that fails:
//! 1. every undirected edge is used by exactly two faces, in opposite directions;
//! 2. the faces around every vertex form a single sector (no pinched vertices);
//! 3. all faces are connected through shared edges.
//!
//! Only combinatorial watertightness is established: geometric
//! self-intersection is not examined.

pub mod audit;
pub mod cycles;
pub mod decimal;
pub mod euler;
pub mod invariance;
pub mod layout;
pub mod parse;
pub mod renumber;
pub mod stages;
pub mod topology;
pub mod surface;
pub mod syntax;
pub mod turns;

pub use audit::{audit, Audit, EdgeAnomaly, EdgeKind, Finding};
pub use parse::{index_map, parse, Mesh, ParseError};
pub use syntax::Declaration;
