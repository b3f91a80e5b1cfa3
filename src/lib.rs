//! A fine-grained reactive signal graph.
//!
//! Signals are mutable integer cells; computations are units of derived work
//! whose signal reads are recorded while they run.  Writing a signal with a new
//! value schedules exactly the computations that read it on their latest run.
//! The caller drives execution: it asks the runtime for the next pending
//! computation, opens a run, performs the computation's body (whose reads are
//! attributed to the innermost open run), and closes the run.

pub mod runtime;
