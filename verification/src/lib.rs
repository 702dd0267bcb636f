//! Flame graph tooling: stack collapsing, folded-stack merging and colouring.
pub mod keyed;
pub mod text;
pub mod collapse;
pub mod diff_folded;
pub mod flamegraph;
pub mod parse;
