//! A simplex tree: a finite simplicial complex over a set of points, stored as
//! a trie of strictly increasing vertex labels, together with a secondary
//! index from (vertex label, depth) to the nodes that carry that label at that
//! depth.
//!
//! Coordinates are held as signed integers: the order-preserving integer keys
//! of the real coordinates they stand for.

pub mod level_index;
pub mod point;
pub mod simplex_tree;
