//! Randomised restart search for small vertex colourings of undirected graphs.

pub mod bits;
pub mod coloring;
pub mod graph;
pub mod nested;
pub mod ordering;
pub mod parse;
pub mod report;
pub mod search;
pub mod validate;
