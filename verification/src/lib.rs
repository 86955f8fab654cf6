//! A terminal dashboard core: snapshots of host metrics are merged into a
//! ranked process list, scanned against fixed resource thresholds, and an
//! interactive flow decides on at most one forced termination per run.
//! Every decision here is a verified function of already-captured inputs;
//! the OS sampling, rendering and signalling live in the surrounding
//! binary.

pub mod analyze;
pub mod cpu;
pub mod parse;
pub mod process;
pub mod rank;
pub mod text;
