//! A worker-thread pool driven entirely by message passing.
//!
//! The library holds the logic of the pool: a bounded FIFO queue with a
//! readiness flag, the worker's command loop as a state machine, the
//! supervisor's dispatch and shutdown rules, and the control protocol. The
//! threads, the readiness descriptors and the multiplexer live with the caller.
pub mod protocol;
pub mod queue;
pub mod supervisor;
pub mod laws;
pub mod worker;
