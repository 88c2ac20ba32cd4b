//! Ordered release of buffered futures.
//!
//! A stream of futures is run with bounded concurrency. Futures may finish in
//! any order, but their outputs are handed out strictly in the order in which
//! the stream produced the futures. Outputs that finish early are held back
//! until every earlier output has been handed out.
//!
//! `order` holds the bookkeeping of ids: which futures run, which outputs are
//! held back, which output is due next. `poll` takes the events of one poll of
//! the buffer (the source yielded a future, a future finished, nothing more is
//! ready) and decides, step by step, what the runtime does next and what the
//! poll returns. `trace` follows whole runs of events and proves what they
//! hand out: every output, in source order, and, once the stream ends, all of
//! them. `buffer` holds the adapter type and the extension trait that
//! configures it.

pub mod order;
pub mod poll;
pub mod buffer;
pub mod trace;

pub use order::{OrderModel, OrderState, Pending, Release};
pub use poll::{Phase, PollAction, PollEvent, PollModel, PollState};
pub use buffer::{FastBufferOrdered, FobStreamExt};
