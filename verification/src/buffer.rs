use vstd::prelude::*;
use crate::order::{limit_for, OrderModel};
use crate::poll::PollState;

verus! {

/// A source of futures together with the bookkeeping that releases their
/// outputs in order.
///
/// The source is carried as it is: driving it (polling it, running its
/// futures) is the job of the runtime that owns this value. Every decision
/// about what to run and what to hand out is made by `state`.
pub struct FastBufferOrdered<St, O> {
    pub stream: St,
    pub state: PollState<O>,
}

impl<St, O> FastBufferOrdered<St, O> {
    /// Wraps `stream`, running at most `n` of its futures at once.
    /// `None` and `Some(0)` put no limit on how many run at once.
    pub fn new(stream: St, n: Option<usize>) -> (res: Self)
        ensures
            res.stream == stream,
            res.state.wf(),
            res.state@.phase is Idle,
            res.state@.order == OrderModel::<O>::fresh(limit_for(n)),
    {
        FastBufferOrdered { stream, state: PollState::new(n) }
    }
}

/// Turns a source of futures into an ordered buffer.
pub trait FobStreamExt: Sized {
    /// Buffers the futures of `self`, running up to `n` of them at once
    /// (`0`: no limit), and releases their outputs in source order.
    fn fast_ordered_buffer<O>(self, n: usize) -> (res: FastBufferOrdered<Self, O>)
        ensures
            res.stream == self,
            res.state.wf(),
            res.state@.phase is Idle,
            res.state@.order == OrderModel::<O>::fresh(limit_for(Some(n))),
    {
        FastBufferOrdered::new(self, Some(n))
    }
}

impl<T> FobStreamExt for T {}

} // verus!
