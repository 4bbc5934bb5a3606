//! A fixed-capacity multiplexer for independently progressing tasks.
//!
//! The crate has two layers, leaves first:
//!
//! - [`ready_set`] holds the bounded set of slot indices that are currently
//!   eligible for another advance step, in a dense/sparse array layout with
//!   LIFO pop order.
//! - [`queue`] owns the task slots and drives them through the ready set:
//!   tasks are placed into free slots, marked ready, and handed out one
//!   advance step at a time until each yields its value.

pub mod queue;
pub mod ready_set;
