//! A doubly-linked list whose nodes live in an arena and name their
//! neighbours by slot number.

mod arena;
pub mod chain;
pub mod laws;
pub mod list;
pub mod model;
pub mod node;
