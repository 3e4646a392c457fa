//! A small connectivity-tracking library: disjoint-set (union-find)
//! structures with interchangeable strategies, a grid-percolation model
//! built on top of them, and an independent prefix-autocomplete utility.

pub mod autocomplete;
pub mod partition;
pub mod percolation;
pub mod quick_find;
pub mod term;
pub mod uf;
pub mod weighted_halving;
