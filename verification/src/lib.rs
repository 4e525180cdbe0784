//! A slot-range pagination and bounded-concurrency retrieval engine.
//!
//! The library walks backward through a numbered sequence of ledger slots,
//! handing out work items to concurrent workers through a shared cursor that
//! refills itself from successive backward-moving windows, retries transient
//! remote failures with a fixed backoff, and supports an early, time-based
//! termination that discards buffered work without losing or duplicating
//! items. All remote traffic happens outside the library: callers run the
//! fetch loops and feed the results back in as plain values.

pub mod aggregate;
pub mod bench;
pub mod cursor;
pub mod idset;
pub mod retry;
pub mod worker;
