//! A cardinal neighbor quadtree: a region quadtree that keeps, at every leaf,
//! direct pointers to the neighboring leaves in the four compass directions.
//! Splitting and merging rewire those pointers locally, so neighbor queries
//! never walk up and back down the tree.

pub mod location;
pub mod node;
pub mod slottree;
pub mod tree;
