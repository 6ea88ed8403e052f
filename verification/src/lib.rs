//! Rule engine for a sliding-tile merge puzzle on an `n` x `n` board.
//!
//! Numbered tiles slide as far as possible in a commanded direction, adjacent
//! equal-valued tiles merge into a double-valued tile, and after any change a
//! fresh base-value tile spawns in a random empty cell.  The engine owns a
//! seedable deterministic random-number generator, tracks a stable identity
//! for every tile, tags each tile with an animation phase for a renderer to
//! consume, and retires merged-away tiles after a fixed visual delay.
//!
//! Every state transition is specified as a mathematical function of the
//! previous state, so two engines driven from the same seed by the same
//! commands provably end in the same state.

pub mod engine;
pub mod geom;
pub mod laws;
pub mod line;
pub mod model;
pub mod rng;
pub mod sums;
pub mod tile;
