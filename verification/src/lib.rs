//! A library for laying out manuscript-transmission graphs ("stemmas") as
//! two-dimensional trees.
//!
//! The crate offers three pieces, each specified and verified:
//! * [`graph`] — a generic, arena-indexed directed multigraph whose vertices
//!   and edges are addressed by stable integer handles;
//! * the ownership resolution inside [`layout`] — for every vertex reachable
//!   from the root, the incoming edge on the maximum cumulative-weight path
//!   becomes that vertex's "owning" edge;
//! * the layout algorithm of [`layout`] — a recursive subtree-width and
//!   centering pass that assigns every vertex an integer position and reports
//!   the canvas extents.

pub mod graph;
pub mod layout;

