//! Leapfrog triejoin over two-level sorted relations: trie cursors and a
//! three-way join that finds directed triangles.
use vstd::prelude::*;

pub mod index;
pub mod join;
pub mod relation;

pub use index::{Index, Position};
pub use join::{count_triangles, join, triangles};
pub use relation::is_well_formed;

verus! {

} // verus!
