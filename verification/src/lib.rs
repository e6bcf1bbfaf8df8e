//! A bounded single-producer/single-consumer queue.
//!
//! The queue moves values from one producer handle to one consumer handle
//! through a fixed-capacity ring buffer, in strict FIFO order, with a
//! two-sided close signal: once either handle is gone, the other side
//! learns of it through `Closed` results, after draining what was already
//! enqueued.

pub mod spsc;
