//! Formal Concept Analysis over cross tables whose rows are bit sets.
pub mod bitset;
pub mod names;
pub mod context;
pub mod concepts;
pub mod lectic;
pub mod closure;
pub mod basis;
pub mod errors;
pub mod labelset;
pub mod concept;
pub mod implication;
pub mod neighbor;
pub mod api;
pub mod titanic;
pub mod exploration;
pub mod drawing;
pub mod poset;
pub mod cxt;
