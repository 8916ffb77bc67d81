//! A partial-fact inference engine for tensor computation graphs.
//!
//! Each edge of a graph carries a partially known description of its tensor
//! (element type, shape, value).  Per-node inference rules refine these
//! descriptions until a fixpoint or a contradiction is reached, and a
//! streaming state then evaluates the graph one chunk at a time.

pub mod fact;
pub mod tensor;
pub mod ops;
pub mod helpers;
pub mod solver;
pub mod streaming;
