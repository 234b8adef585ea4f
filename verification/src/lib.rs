//! A miniature version-control repository: a graph of immutable revisions
//! linked by single-parent ancestry, and a table of named branch pointers
//! into that graph.
//!
//! Revisions live in an arena and are shared: each node carries an explicit
//! owner count (branches pointing at it plus live children holding it as
//! parent), and releasing the last reference destroys the node, emits an
//! observable destruction event, and releases its parent in turn, so that a
//! cascade always runs in child-before-parent order at the precise point of
//! release.

pub mod node;
pub mod events;
pub mod table;
pub mod parser;
pub mod repo;
