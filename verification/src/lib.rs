//! A disjoint-set forest (union-find) over a fixed universe of `n` elements,
//! with a connectivity query and three merge strategies: size-weighted union,
//! depth-weighted union, and a naive unbalanced union.

pub mod forest;
pub mod laws;
pub mod paths;
