//! A minimal cooperative task runtime, verified.
//!
//! The runtime is modelled as explicit state on plain values: a FIFO ready
//! queue of task ids, a table of reference-counted tasks each holding an
//! optional suspendable computation, a table of timer-backed sleep records,
//! and a logical clock. Every operation of the runtime is an executable
//! function whose contract states exactly which transition of the
//! mathematical model it performs.

pub mod model;
pub mod waker;
pub mod future;
pub mod runtime;
pub mod laws;
