use vstd::prelude::*;

pub mod interner;
pub mod transclusion_graph;
pub mod import_graph;
pub mod graph;
pub mod process;
pub mod diagnostics;
pub mod config;
pub mod args;
pub mod extract;
pub mod render;
pub mod html;
pub mod watch;
pub mod nodes;
pub mod body;
pub mod compiler;

verus! {
} // verus!
