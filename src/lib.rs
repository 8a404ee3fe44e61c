//! Kinematic trees for rigid-body robot models.
//!
//! - `description`: the flat link/joint description and its indexing into
//!   dense link ids, with every malformed description rejected.
//! - `graph`: the link graph in petgraph's `DiGraphMap`, and its
//!   breadth-first walk.
//! - `topology`: root, leaves, children and a traversal order in which every
//!   link follows its parent.
//! - `joints`: the joint motion model and joint values set by name.
//! - `propagation`: global poses and screws propagated down the traversal
//!   order, over any rigid-transform algebra passed in as functions.
//! - `url`: classification of the location a description is read from.
use vstd::prelude::*;

pub mod description;
pub mod graph;
pub mod joints;
pub mod propagation;
pub mod topology;
pub mod url;

verus! {

} // verus!
