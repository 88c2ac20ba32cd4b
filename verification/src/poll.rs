use vstd::prelude::*;
use crate::order::{OrderModel, OrderState, Release};

verus! {

/// Where a poll stands: what the last action asked the runtime to do.
pub enum Phase {
    /// No poll is under way.
    Idle,
    /// The source was asked for another future.
    AwaitSource,
    /// The future the source yielded is to be started.
    AwaitSpawn,
    /// The running futures were asked for a finished one.
    AwaitQueue,
}

/// What the runtime reports back.
pub enum PollEvent<O> {
    /// A new poll of the buffer begins.
    Start,
    /// The source yielded another future; the runtime keeps it until told
    /// under which id to start it.
    SourceYielded,
    /// The source has nothing now: it is pending, or it is done.
    SourceIdle,
    /// The future just yielded has been started under the id it was given.
    Spawned,
    /// The running future `id` finished with the given output.
    Completed(usize, O),
    /// No running future has finished (or none is running). `source_done`
    /// tells whether the source has ended.
    QueueIdle { source_done: bool },
}

/// What the runtime is asked to do next.
pub enum PollAction<O> {
    /// Poll the source for another future.
    PollSource,
    /// Start the future the source just yielded, under this id.
    Spawn(usize),
    /// Poll the running futures for one that has finished.
    PollQueue,
    /// The poll ends with this output.
    Ready(O),
    /// The poll ends: the buffered stream has ended.
    Exhausted,
    /// The poll ends with nothing to hand out yet.
    Pending,
    /// The poll ends with nothing to hand out yet, but a slot was freed that
    /// this poll had no budget left to refill: the runtime should have the
    /// task polled again soon (wake it) rather than wait for a future.
    Reschedule,
}

/// The abstract state of a poll: its phase, the ordering bookkeeping, how
/// many futures the current poll has started, and whether it left a freed
/// slot unfilled.
pub struct PollModel<O> {
    pub phase: Phase,
    pub order: OrderModel<O>,
    pub started: nat,
    pub deferred: bool,
}

impl<O> PollModel<O> {
    /// What holds of every reachable state: the ordering invariant; a poll
    /// never starts more futures than ids were issued, nor, with a limit,
    /// more than the limit; and the source is only ever being polled while
    /// there is room for another future and budget left in this poll.
    pub open spec fn inv(self) -> bool {
        &&& self.order.inv()
        &&& self.started <= self.order.issued
        &&& self.order.limit matches Some(m) ==> self.started <= m
        &&& self.phase is AwaitSource ==> self.may_fill()
    }

    /// Whether this poll may still start a future: with a limit `m`, one
    /// poll starts at most `m` of them.
    pub open spec fn budget_left(self) -> bool {
        match self.order.limit {
            Some(m) => self.started < m,
            None => true,
        }
    }

    /// Whether to ask the source for another future: there is room for one,
    /// and budget left in this poll.
    pub open spec fn may_fill(self) -> bool {
        self.order.has_capacity() && self.budget_left()
    }

    /// Fill first: poll the source when `may_fill`, and otherwise collect
    /// finished futures. A free slot that the budget keeps from being filled
    /// is noted as deferred.
    pub open spec fn filled(self) -> PollModel<O> {
        if self.may_fill() {
            PollModel { phase: Phase::AwaitSource, ..self }
        } else {
            PollModel {
                phase: Phase::AwaitQueue,
                deferred: self.deferred || self.order.has_capacity(),
                ..self
            }
        }
    }

    /// The action that goes with `filled`.
    pub open spec fn fill_action(self) -> PollAction<O> {
        if self.may_fill() {
            PollAction::PollSource
        } else {
            PollAction::PollQueue
        }
    }

    /// A new poll: nothing started in it yet, nothing deferred.
    pub open spec fn restarted(self) -> PollModel<O> {
        PollModel { started: 0, deferred: false, ..self }
    }

    /// No poll under way and nothing started yet.
    pub open spec fn fresh(limit: Option<nat>) -> PollModel<O> {
        PollModel { phase: Phase::Idle, order: OrderModel::fresh(limit), started: 0, deferred: false }
    }

    /// The events that the current phase can receive.
    pub open spec fn expects(self, ev: PollEvent<O>) -> bool {
        match ev {
            PollEvent::Start => true,
            PollEvent::SourceYielded => self.phase is AwaitSource && self.order.issued < usize::MAX,
            PollEvent::SourceIdle => self.phase is AwaitSource,
            PollEvent::Spawned => self.phase is AwaitSpawn,
            PollEvent::Completed(id, _) => self.phase is AwaitQueue && self.order.in_flight().contains(
                id as int,
            ),
            PollEvent::QueueIdle { .. } => self.phase is AwaitQueue,
        }
    }

    /// The state after event `ev`.
    ///
    /// A new poll, or a future just started: fill first. The source yielded a
    /// future: it gets the next id. The source is idle: collect. A future
    /// finished: if it is the one due, the poll ends with its output;
    /// otherwise its output is held back and, since a slot has been freed,
    /// the poll fills again (within its budget) before collecting more.
    /// Nothing more finished: the held output that is due, if any, is handed
    /// out, and the poll ends.
    pub open spec fn next(self, ev: PollEvent<O>) -> PollModel<O> {
        match ev {
            PollEvent::Start => self.restarted().filled(),
            PollEvent::Spawned => self.filled(),
            PollEvent::SourceYielded => PollModel {
                phase: Phase::AwaitSpawn,
                order: self.order.with_next_issued(),
                started: self.started + 1,
                ..self
            },
            PollEvent::SourceIdle => PollModel { phase: Phase::AwaitQueue, ..self },
            PollEvent::Completed(id, output) => {
                let done = PollModel { order: self.order.completed(id as int, output), ..self };
                if id == self.order.released {
                    PollModel { phase: Phase::Idle, ..done }
                } else {
                    done.filled()
                }
            },
            PollEvent::QueueIdle { .. } => PollModel {
                phase: Phase::Idle,
                order: if self.order.held.contains(self.order.released as int) {
                    self.order.with_next_released()
                } else {
                    self.order
                },
                ..self
            },
        }
    }

    /// The action decided on event `ev`.
    pub open spec fn action(self, ev: PollEvent<O>) -> PollAction<O> {
        match ev {
            PollEvent::Start => self.restarted().fill_action(),
            PollEvent::Spawned => self.fill_action(),
            PollEvent::SourceYielded => PollAction::Spawn(self.order.issued as usize),
            PollEvent::SourceIdle => PollAction::PollQueue,
            PollEvent::Completed(id, output) => if id == self.order.released {
                PollAction::Ready(output)
            } else {
                PollModel { order: self.order.completed(id as int, output), ..self }.fill_action()
            },
            PollEvent::QueueIdle { source_done } => if self.order.held.contains(
                self.order.released as int,
            ) {
                PollAction::Ready(self.order.outputs[self.order.released as int])
            } else if source_done && self.order.in_flight_count() == 0 {
                PollAction::Exhausted
            } else if self.deferred && !source_done {
                PollAction::Reschedule
            } else {
                PollAction::Pending
            },
        }
    }
}

/// The decisions of one poll of the buffer, taken one event at a time.
pub struct PollState<O> {
    order: OrderState<O>,
    phase: Phase,
    started: usize,
    deferred: bool,
}

impl<O> View for PollState<O> {
    type V = PollModel<O>;

    closed spec fn view(&self) -> PollModel<O> {
        PollModel {
            phase: self.phase,
            order: self.order@,
            started: self.started as nat,
            deferred: self.deferred,
        }
    }
}

impl<O> PollState<O> {
    /// The representation invariant: the ordering bookkeeping is well formed,
    /// and the model invariant holds.
    pub closed spec fn wf(&self) -> bool {
        &&& self.order.wf()
        &&& self.started <= self.order@.issued
        &&& self.order@.limit matches Some(m) ==> self.started <= m
        &&& self.phase is AwaitSource ==> self@.may_fill()
    }

    /// Every state that the operations of this type produce satisfies the
    /// model invariant.
    pub proof fn lemma_reachable_inv(&self)
        requires
            self.wf(),
        ensures
            self@.inv(),
    {
        self.order.lemma_reachable_inv();
    }

    /// A state with no futures started and no poll under way, running at
    /// most `n` futures at once (`None` or `Some(0)`: no limit).
    pub fn new(n: Option<usize>) -> (res: Self)
        ensures
            res.wf(),
            res@ == PollModel::<O>::fresh(crate::order::limit_for(n)),
    {
        PollState { order: OrderState::new(n), phase: Phase::Idle, started: 0, deferred: false }
    }

    /// The ordering bookkeeping.
    pub fn order(&self) -> (order: &OrderState<O>)
        requires
            self.wf(),
        ensures
            order.wf(),
            order@ == self@.order,
    {
        &self.order
    }

    /// Whether `ev` is an event the current phase can receive.
    pub fn accepts(&self, ev: &PollEvent<O>) -> (ok: bool)
        requires
            self.wf(),
        ensures
            ok == self@.expects(*ev),
    {
        match ev {
            PollEvent::Start => true,
            PollEvent::SourceYielded => match self.phase {
                Phase::AwaitSource => self.order.issued() < usize::MAX,
                _ => false,
            },
            PollEvent::SourceIdle => match self.phase {
                Phase::AwaitSource => true,
                _ => false,
            },
            PollEvent::Spawned => match self.phase {
                Phase::AwaitSpawn => true,
                _ => false,
            },
            PollEvent::Completed(id, _) => match self.phase {
                Phase::AwaitQueue => self.order.is_in_flight(*id),
                _ => false,
            },
            PollEvent::QueueIdle { .. } => match self.phase {
                Phase::AwaitQueue => true,
                _ => false,
            },
        }
    }

    /// Fill first: poll the source while there is room for another future
    /// and budget left in this poll, then collect finished ones.
    fn fill_or_collect(&mut self) -> (act: PollAction<O>)
        requires
            old(self).order.wf(),
            old(self).started <= old(self).order@.issued,
            old(self).order@.limit matches Some(m) ==> old(self).started <= m,
        ensures
            final(self).wf(),
            final(self)@ == old(self)@.filled(),
            act == old(self)@.fill_action(),
    {
        let room = self.order.has_capacity();
        let budget = match self.order.limit() {
            Some(max) => self.started < max,
            None => true,
        };
        if room && budget {
            self.phase = Phase::AwaitSource;
            PollAction::PollSource
        } else {
            if room {
                self.deferred = true;
            }
            self.phase = Phase::AwaitQueue;
            PollAction::PollQueue
        }
    }

    /// Takes one event of a poll and decides what the runtime does next.
    ///
    /// With a limit `m`, one poll starts at most `m` futures; a slot freed
    /// after that is left for the next poll, which the poll asks for with
    /// `Reschedule`. So a poll does bounded work even when the source always
    /// has a future ready and the oldest future never finishes. Without a
    /// limit, a poll asks the source for futures until it has none ready, so
    /// a source that is never idle keeps a single poll going.
    pub fn step(&mut self, ev: PollEvent<O>) -> (act: PollAction<O>)
        requires
            old(self).wf(),
            old(self)@.expects(ev),
        ensures
            final(self).wf(),
            final(self)@ == old(self)@.next(ev),
            act == old(self)@.action(ev),
            // What comes out is the output due next, and nothing else moves
            // the released sequence.
            act matches PollAction::Ready(v) ==> final(self)@.order.released_seq() == old(
                self,
            )@.order.released_seq().push(v),
            !(act is Ready) ==> final(self)@.order.released_seq() == old(self)@.order.released_seq(),
            // The stream ends only once every issued output is out.
            act is Exhausted ==> final(self)@.order.released == final(self)@.order.issued
                && final(self)@.order.held.is_empty(),
            // With the source done and nothing running, a poll never waits.
            ev matches PollEvent::QueueIdle { source_done } && source_done
                && old(self)@.order.in_flight_count() == 0 ==> !(act is Pending),
            // A slot freed by an output held back is refilled before the poll
            // goes on collecting, as long as the poll has budget left; if it
            // has none, the poll ends asking to be polled again.
            ev matches PollEvent::Completed(id, _) && id != old(self)@.order.released
                && final(self)@.order.has_capacity() ==> (act is PollSource
                <==> old(self)@.budget_left()),
            ev matches PollEvent::Completed(id, _) && id != old(self)@.order.released
                && final(self)@.order.has_capacity() && !old(self)@.budget_left()
                ==> final(self)@.deferred,
            // One poll starts at most as many futures as the limit.
            final(self)@.order.limit matches Some(m) ==> final(self)@.started <= m,
    {
        proof {
            self.lemma_reachable_inv();
            lemma_next_preserves(self@, ev);
        }
        match ev {
            PollEvent::Start => {
                self.started = 0;
                self.deferred = false;
                self.fill_or_collect()
            },
            PollEvent::Spawned => self.fill_or_collect(),
            PollEvent::SourceYielded => {
                let id = self.order.issue_next();
                self.started = self.started + 1;
                self.phase = Phase::AwaitSpawn;
                PollAction::Spawn(id)
            },
            PollEvent::SourceIdle => {
                self.phase = Phase::AwaitQueue;
                PollAction::PollQueue
            },
            PollEvent::Completed(id, output) => {
                match self.order.complete(id, output) {
                    Some(now) => {
                        self.phase = Phase::Idle;
                        PollAction::Ready(now)
                    },
                    None => self.fill_or_collect(),
                }
            },
            PollEvent::QueueIdle { source_done } => {
                self.phase = Phase::Idle;
                match self.order.finish_poll(source_done) {
                    Release::Next(output) => PollAction::Ready(output),
                    Release::Exhausted => PollAction::Exhausted,
                    Release::Wait => if self.deferred && !source_done {
                        PollAction::Reschedule
                    } else {
                        PollAction::Pending
                    },
                }
            },
        }
    }
}

/// Every event that a state can receive leads to a state that satisfies the
/// invariant again; the released sequence grows by exactly what the step
/// hands out; recorded outputs are never changed; and the stream ends only
/// once every issued output has been handed out.
pub proof fn lemma_next_preserves<O>(m: PollModel<O>, ev: PollEvent<O>)
    requires
        m.inv(),
        m.expects(ev),
    ensures
        m.next(ev).inv(),
        m.action(ev) matches PollAction::Ready(v) ==> m.next(ev).order.released_seq()
            == m.order.released_seq().push(v) && m.next(ev).order.released == m.order.released + 1,
        !(m.action(ev) is Ready) ==> m.next(ev).order.released_seq() == m.order.released_seq()
            && m.next(ev).order.released == m.order.released,
        m.order.outputs.submap_of(m.next(ev).order.outputs),
        m.action(ev) is Exhausted ==> m.next(ev).order.released == m.next(ev).order.issued
            && m.next(ev).order.held.is_empty(),
        ev matches PollEvent::QueueIdle { source_done } && source_done
            && m.order.in_flight_count() == 0 ==> !(m.action(ev) is Pending),
{
    let o = m.order;
    match ev {
        PollEvent::SourceYielded => {
            o.lemma_with_next_issued();
        },
        PollEvent::Completed(id, output) => {
            o.lemma_completed(id as int, output);
        },
        PollEvent::QueueIdle { source_done } => {
            if o.held.contains(o.released as int) {
                o.lemma_with_next_released();
            } else if o.in_flight_count() == 0 {
                if o.released < o.issued {
                    crate::order::lemma_idle_means_next_is_held(o);
                }
                assert(o.held.len() == 0);
                assert(o.held =~= Set::<int>::empty());
            }
        },
        _ => {},
    }
}

/// The runtime's answer to each action is an event the new state accepts:
/// after `PollSource`, that the source yielded a future (while ids are left)
/// or is idle; after `Spawn`, that the future was started; after
/// `PollQueue`, that a running future finished, or that none did. So a
/// runtime that reports truthfully is never refused, up to the last id.
pub proof fn lemma_answers_accepted<O>(m: PollModel<O>, ev: PollEvent<O>)
    requires
        m.inv(),
        m.expects(ev),
    ensures
        m.action(ev) is PollSource ==> m.next(ev).expects(PollEvent::SourceIdle) && (m.next(
            ev,
        ).order.issued < usize::MAX ==> m.next(ev).expects(PollEvent::SourceYielded)),
        m.action(ev) is Spawn ==> m.next(ev).expects(PollEvent::Spawned),
        m.action(ev) is PollQueue ==> {
            &&& forall|done: bool| m.next(ev).expects(PollEvent::QueueIdle { source_done: done })
            &&& forall|id: usize, v: O|
                m.next(ev).order.in_flight().contains(id as int) ==> #[trigger] m.next(ev).expects(
                    PollEvent::Completed(id, v),
                )
        },
{
}

/// The buffered stream ends exactly when a poll finds the source done and
/// every output issued handed out: then no future runs and none is held.
/// A source that is merely pending never ends it, nor does a running future
/// or an output still held.
pub proof fn lemma_end_exactly_when_drained<O>(m: PollModel<O>, ev: PollEvent<O>)
    requires
        m.inv(),
        m.expects(ev),
    ensures
        m.action(ev) is Exhausted <==> (ev == (PollEvent::<O>::QueueIdle { source_done: true })
            && m.order.released == m.order.issued),
        m.action(ev) is Exhausted ==> m.order.in_flight_count() == 0 && m.order.held.is_empty(),
        ev == (PollEvent::<O>::QueueIdle { source_done: false }) ==> !(m.action(ev) is Exhausted),
{
    let o = m.order;
    if ev is QueueIdle {
        if o.in_flight_count() == 0 && o.released < o.issued {
            crate::order::lemma_idle_means_next_is_held(o);
        }
        if o.released == o.issued {
            assert(o.held.len() == 0);
            assert(o.held =~= Set::<int>::empty());
        }
    }
}

/// An output is handed out as soon as its turn has come, whatever the state
/// of the source: when the poll has nothing more to collect, the due output,
/// if it is held, is handed out; a future that finishes in its turn hands out
/// its output at once. Nothing else is ever handed out, and a poll waits
/// only when the due output is not there.
pub proof fn lemma_due_output_handed_out<O>(m: PollModel<O>, ev: PollEvent<O>)
    requires
        m.inv(),
        m.expects(ev),
    ensures
        ev is QueueIdle ==> (m.action(ev) is Ready <==> m.order.held.contains(
            m.order.released as int,
        )),
        ev is QueueIdle && m.order.held.contains(m.order.released as int) ==> m.action(ev)
            == PollAction::Ready(m.order.outputs[m.order.released as int]),
        ev matches PollEvent::Completed(id, v) ==> (m.action(ev) is Ready <==> id
            == m.order.released) && (id == m.order.released ==> m.action(ev) == PollAction::Ready(
            v,
        )),
        m.action(ev) matches PollAction::Ready(x) ==> m.next(ev).order.released == m.order.released
            + 1 && m.next(ev).order.outputs[m.order.released as int] == x,
        m.action(ev) is Pending || m.action(ev) is Reschedule ==> !m.order.held.contains(
            m.order.released as int,
        ),
{
    lemma_next_preserves(m, ev);
    let o = m.order;
    match ev {
        PollEvent::Completed(id, v) => {
            let done = PollModel { order: o.completed(id as int, v), ..m };
            assert(done.fill_action() is PollSource || done.fill_action() is PollQueue);
        },
        PollEvent::QueueIdle { .. } => {
            if o.held.contains(o.released as int) {
                assert(m.next(ev).order == o.with_next_released());
            }
        },
        PollEvent::Start => {
            assert(m.restarted().fill_action() is PollSource || m.restarted().fill_action() is PollQueue);
        },
        PollEvent::Spawned => {
            assert(m.fill_action() is PollSource || m.fill_action() is PollQueue);
        },
        _ => {},
    }
}

/// Fill first, within budget: a new poll asks the source for a future
/// exactly when there is room for one; after a start, or after an output is
/// held back, the poll asks again exactly when there is room and this poll
/// has started fewer futures than the limit; otherwise it collects finished
/// futures. A future from the source is started under the next id, and an
/// idle source sends the poll on to collecting.
pub proof fn lemma_fill_first<O>(m: PollModel<O>, ev: PollEvent<O>)
    requires
        m.inv(),
        m.expects(ev),
    ensures
        ev is Start ==> (m.action(ev) is PollSource <==> m.order.has_capacity()) && (
        m.action(ev) is PollSource || m.action(ev) is PollQueue),
        ev is Spawned ==> (m.action(ev) is PollSource <==> m.order.has_capacity() && (
        m.order.limit matches Some(k) ==> m.started < k)) && (m.action(ev) is PollSource
            || m.action(ev) is PollQueue),
        ev matches PollEvent::Completed(id, v) ==> (id != m.order.released ==> (m.action(ev) is PollSource
            <==> m.next(ev).order.has_capacity() && (m.order.limit matches Some(k) ==> m.started
            < k)) && (m.action(ev) is PollSource || m.action(ev) is PollQueue)),
        ev is SourceYielded ==> m.action(ev) == PollAction::<O>::Spawn(m.order.issued as usize)
            && m.next(ev).order.issued == m.order.issued + 1,
        ev is SourceIdle ==> m.action(ev) is PollQueue,
{
    match ev {
        PollEvent::Completed(id, v) => {
            let done = PollModel { order: m.order.completed(id as int, v), ..m };
            assert(m.next(ev).order == done.order);
        },
        _ => {},
    }
}

} // verus!
