//! A FIFO queue kept as a doubly linked chain of cells in an arena.
//!
//! The chain starts at a sentinel cell (`head`) and ends at `tail`. Each
//! cell links back to the cell that was the tail when it was enqueued
//! (`prev`) and forward to its successor (`next`). Dequeuing advances `head`
//! and retires the old sentinel; retired cells are reused by later enqueues.
//!
//! `DoubleLink` runs each operation whole. `SharedQueue` splits an enqueue
//! into the steps that touch shared cells (read the tail, help the
//! predecessor, swing the tail, link forward), so that the steps of many
//! enqueues can interleave; its contracts show that only the last forward link
//! can lag and that items leave in the order their tail swings succeeded.
use vstd::prelude::*;

pub mod node;
pub mod protocol;
pub mod laws;
pub mod queue;

pub use laws::Step;
pub use node::Node;
pub use protocol::{PendingEnqueue, SharedQueue, Stage};
pub use queue::DoubleLink;
