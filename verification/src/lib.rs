//! Client core for a real-time collaborative text editor based on
//! operational transformation.
//!
//! The crate has three layers:
//! - `ot`: the operation algebra — composable, transformable edit
//!   descriptions, with `compose`, `transform` and `apply` proved against a
//!   sequence-of-atomic-steps model;
//! - `translate`: conversion between editor replace-range edits and
//!   operations;
//! - `sync`: the per-document synchronization state machine that pipelines
//!   local edits against server acknowledgements and remote broadcasts.
//!
//! `laws` holds the algebraic properties (convergence, associativity,
//! identity) proved of the model.

pub mod laws;
pub mod ot;
pub mod sync;
pub mod translate;
