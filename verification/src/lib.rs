//! Core engine of a live terminal flame-graph viewer: an aggregated call
//! tree built from weighted stacks, a proportional integer layout, a
//! dictionary-encoded profile resolver, and the interactive navigation
//! state machine over the tree.
use vstd::prelude::*;

pub mod flamegraph;
pub mod laws;
pub mod layout;
pub mod resolver;
pub mod state;
pub mod text;
