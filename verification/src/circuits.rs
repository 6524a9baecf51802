//! The statements that are proved about a tree in zero knowledge.

pub mod insert;
