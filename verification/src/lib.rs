//! Two-colouring of a colony of bugs.
//!
//! A colony is a set of bugs joined by pairwise relations. The library decides
//! whether every bug can be given one of two opposed marks such that no two
//! related bugs carry the same mark, that is, whether the relation graph is
//! bipartite.

pub mod bug;
pub mod coloring;
pub mod colony;
pub mod error;
pub mod input;
pub mod mark;
mod path;
pub mod scenario;
