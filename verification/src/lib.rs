//! A three-level task scheduler for a small simulated machine: two
//! processors, a contiguous first-fit page allocator, five priority
//! queues and one-shot completion latches between tasks.
//!
//! Every function is stated over mathematical models of the data and
//! proved against that statement. The double-ended heap of the
//! `min-max-heap` crate orders two of the queues; what is believed of it,
//! and not proved, stands at the head of the module `queue`.

pub mod command;
pub mod condition;
pub mod event;
pub mod list;
pub mod manager;
pub mod memory;
pub mod processor;
pub mod queue;
pub mod scheduler;
pub mod task;
