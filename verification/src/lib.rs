//! A process-tree monitor library.
//!
//! Given a point-in-time snapshot of the operating system's process table,
//! the library reconstructs the subtree of processes rooted at a target
//! process identifier, decides whether the monitoring process itself has
//! been orphaned, and drives the polling loop's state machine.  All of the
//! logic here is pure: acquiring snapshots, delivering output and handling
//! interrupts belong to the surrounding program.

pub mod guard;
pub mod reach;
pub mod record;
pub mod sched;
pub mod tree;
