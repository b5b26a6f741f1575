//! A deterministic, single-threaded cooperative process kernel.
//!
//! The kernel owns a registry of processes (parent/child metadata plus a
//! payload that is either live or an opaque byte image), a FIFO scheduler
//! with a deferred queue for work pushed to the next tick, and a wake index
//! that reactivates sleeping processes at a future tick.  The whole kernel
//! is plain data: a host drives it one task at a time, captures it as a
//! snapshot (and the snapshot as one byte blob) between ticks, and resumes
//! it later exactly where it stopped.
//!
//! Module map: [`process`] holds the contract every managed process
//! implements and the lazy live/serialized payload wrapper; [`kernel`]
//! holds the scheduler, the capability handle and the dispatch loop;
//! [`lineage`] holds the descendant relation behind cascading termination;
//! [`snapshot`] and [`codec`] hold the persistence layer; [`laws`] states
//! and proves the scheduling and lifetime guarantees.

pub mod codec;
pub mod kernel;
pub mod laws;
pub mod lineage;
pub mod process;
pub mod snapshot;

pub use crate::kernel::{Kernel, SysCall};
pub use crate::process::{Message, PResult, PSignalResult, Process};
pub use crate::snapshot::Snapshot;
