//! A fine-grained reactive dependency-tracking engine.
//!
//! The engine keeps a graph of observable values (signals) and derived
//! computations (memos and effects) in an arena, discovers dependencies
//! automatically while a computation runs, and re-evaluates only the parts
//! of the graph affected by a change.  A memo re-runs at most once per
//! propagation wave and notifies its own subscribers only when its new value
//! differs from its previous one, so redundant cascades through diamond-shaped
//! graphs are suppressed.
//!
//! A runtime is a single-threaded value: every operation takes the runtime
//! explicitly, and a node handle is only valid for the runtime that issued it.
//! Sharing one runtime across threads is unsupported.

pub mod expr;
pub mod laws;
pub mod memo;
pub mod model;
pub mod runtime;
pub mod scope;
pub mod signal;
pub mod stream;
pub mod node;
