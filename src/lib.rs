//! A single-threaded cooperative task scheduler with an I/O readiness
//! registry: the bookkeeping core of a minimal async runtime.
//!
//! The driver that polls computations and blocks on the operating system's
//! readiness multiplexer lives outside this library; every decision it
//! makes (which task to step, when to block, when to stop) is taken here.
mod event_loop;
pub mod laws;
mod registry;

pub use crate::event_loop::{drain_pass, next_live, run, spawn, EventLoop, Next, Step};
pub use crate::registry::{woken_by, with_interest, Direction, InterestRegistry, RawFd, TaskId};
