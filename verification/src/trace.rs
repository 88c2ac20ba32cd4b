use vstd::prelude::*;
use crate::poll::{lemma_next_preserves, Phase, PollAction, PollEvent, PollModel};

verus! {

/// The state after a whole trace of events, one step after another.
pub open spec fn run<O>(m: PollModel<O>, evs: Seq<PollEvent<O>>) -> PollModel<O>
    decreases evs.len(),
{
    if evs.len() == 0 {
        m
    } else {
        run(m.next(evs[0]), evs.drop_first())
    }
}

/// Every event of the trace is one that its state can receive.
pub open spec fn accepted<O>(m: PollModel<O>, evs: Seq<PollEvent<O>>) -> bool
    decreases evs.len(),
{
    evs.len() == 0 || (m.expects(evs[0]) && accepted(m.next(evs[0]), evs.drop_first()))
}

/// The outputs handed out along the trace, in order.
pub open spec fn ready_outputs<O>(m: PollModel<O>, evs: Seq<PollEvent<O>>) -> Seq<O>
    decreases evs.len(),
{
    if evs.len() == 0 {
        Seq::empty()
    } else {
        let rest = ready_outputs(m.next(evs[0]), evs.drop_first());
        match m.action(evs[0]) {
            PollAction::Ready(v) => seq![v] + rest,
            _ => rest,
        }
    }
}

/// How many futures the source yields along the trace.
pub open spec fn yielded_count<O>(evs: Seq<PollEvent<O>>) -> nat
    decreases evs.len(),
{
    if evs.len() == 0 {
        0
    } else {
        (if evs[0] is SourceYielded {
            1nat
        } else {
            0nat
        }) + yielded_count(evs.drop_first())
    }
}

/// The action decided on the last event of a non-empty trace.
pub open spec fn last_action<O>(m: PollModel<O>, evs: Seq<PollEvent<O>>) -> PollAction<O>
    decreases evs.len(),
{
    if evs.len() <= 1 {
        m.action(evs[0])
    } else {
        last_action(m.next(evs[0]), evs.drop_first())
    }
}

/// A trace that ends with the buffered stream reporting its end.
pub open spec fn ends_exhausted<O>(m: PollModel<O>, evs: Seq<PollEvent<O>>) -> bool {
    evs.len() > 0 && last_action(m, evs) is Exhausted
}

/// Along any accepted trace the invariant holds; the outputs handed out are
/// exactly those of the next ids in order (the released sequence grows by
/// them and by nothing else); every id comes from the source; and no output,
/// once recorded, changes.
pub proof fn lemma_run_order<O>(m: PollModel<O>, evs: Seq<PollEvent<O>>)
    requires
        m.inv(),
        accepted(m, evs),
    ensures
        run(m, evs).inv(),
        run(m, evs).order.released_seq() == m.order.released_seq() + ready_outputs(m, evs),
        run(m, evs).order.released == m.order.released + ready_outputs(m, evs).len(),
        run(m, evs).order.issued == m.order.issued + yielded_count(evs),
        m.order.outputs.submap_of(run(m, evs).order.outputs),
    decreases evs.len(),
{
    if evs.len() == 0 {
        assert(m.order.released_seq() + Seq::<O>::empty() =~= m.order.released_seq());
    } else {
        let ev = evs[0];
        let m1 = m.next(ev);
        let rest = evs.drop_first();
        lemma_next_preserves(m, ev);
        lemma_run_order(m1, rest);
        assert(run(m, evs) == run(m1, rest));
        assert forall|k: int| #[trigger] m.order.outputs.contains_key(k) implies run(
            m,
            evs,
        ).order.outputs.contains_key(k) && run(m, evs).order.outputs[k] == m.order.outputs[k] by {
            assert(m1.order.outputs.contains_key(k));
        }
        match m.action(ev) {
            PollAction::Ready(v) => {
                assert(m.order.released_seq() + ready_outputs(m, evs) =~= m1.order.released_seq()
                    + ready_outputs(m1, rest));
            },
            _ => {},
        }
        if ev is SourceYielded {
            assert(m1.order.issued == m.order.issued + 1);
        } else {
            assert(m1.order.issued == m.order.issued);
        }
    }
}

/// The output a future finished with is the one recorded for its id at the
/// end of the trace, and so the one handed out at its turn.
pub proof fn lemma_run_keeps_completion<O>(m: PollModel<O>, evs: Seq<PollEvent<O>>, j: int)
    requires
        m.inv(),
        accepted(m, evs),
        0 <= j < evs.len(),
        evs[j] is Completed,
    ensures
        ({
            let (id, v) = (evs[j]->Completed_0, evs[j]->Completed_1);
            run(m, evs).order.outputs.contains_key(id as int) && run(m, evs).order.outputs[id as int]
                == v
        }),
    decreases evs.len(),
{
    let m1 = m.next(evs[0]);
    let rest = evs.drop_first();
    lemma_next_preserves(m, evs[0]);
    assert(run(m, evs) == run(m1, rest));
    if j == 0 {
        lemma_run_order(m1, rest);
        let id = evs[0]->Completed_0;
        let v = evs[0]->Completed_1;
        let done = PollModel { order: m.order.completed(id as int, v), ..m };
        assert(done.filled().order == done.order);
        assert(m1.order == m.order.completed(id as int, v));
        assert(m1.order.outputs.contains_key(id as int) && m1.order.outputs[id as int] == v);
        assert(run(m1, rest).order.outputs.contains_key(id as int));
        assert(run(m1, rest).order.outputs[id as int] == v);
    } else {
        assert(rest[j - 1] == evs[j]);
        lemma_run_keeps_completion(m1, rest, j - 1);
    }
}

/// Once the stream has ended, every output issued has been handed out.
pub proof fn lemma_exhausted_run<O>(m: PollModel<O>, evs: Seq<PollEvent<O>>)
    requires
        m.inv(),
        accepted(m, evs),
        ends_exhausted(m, evs),
    ensures
        run(m, evs).order.released == run(m, evs).order.issued,
        run(m, evs).order.held.is_empty(),
    decreases evs.len(),
{
    let m1 = m.next(evs[0]);
    let rest = evs.drop_first();
    lemma_next_preserves(m, evs[0]);
    assert(run(m, evs) == run(m1, rest));
    if evs.len() > 1 {
        lemma_exhausted_run(m1, rest);
    } else {
        assert(run(m1, rest) == m1);
    }
}

/// Over a trace that runs to the end, what is handed out is, in order,
/// every output not yet handed out at the start: those of the started
/// futures and those of every future the source still yields. Their number
/// is the backlog plus the number of futures yielded.
pub proof fn lemma_complete_run<O>(m: PollModel<O>, evs: Seq<PollEvent<O>>)
    requires
        m.inv(),
        accepted(m, evs),
        ends_exhausted(m, evs),
    ensures
        m.order.released_seq() + ready_outputs(m, evs) == Seq::new(
            run(m, evs).order.issued,
            |k: int| run(m, evs).order.outputs[k],
        ),
        ready_outputs(m, evs).len() == m.order.backlog() + yielded_count(evs),
{
    lemma_run_order(m, evs);
    lemma_exhausted_run(m, evs);
}

/// If the source's own size hint bounds what it still yields, the buffer's
/// hint bounds what the buffer still hands out over a trace that runs to the
/// end.
pub proof fn lemma_size_hint_bounds<O>(
    m: PollModel<O>,
    evs: Seq<PollEvent<O>>,
    source: (usize, Option<usize>),
)
    requires
        m.inv(),
        accepted(m, evs),
        ends_exhausted(m, evs),
        source.0 <= yielded_count(evs),
        source.1 matches Some(hi) ==> yielded_count(evs) <= hi,
    ensures
        m.order.hint(source).0 <= ready_outputs(m, evs).len(),
        m.order.hint(source).1 matches Some(hi) ==> ready_outputs(m, evs).len() <= hi,
{
    lemma_complete_run(m, evs);
}

/// The events of one poll once the source is done and no future runs: the
/// poll starts, the source is found idle, and no running future finishes.
pub open spec fn closing_poll<O>() -> Seq<PollEvent<O>> {
    seq![PollEvent::Start, PollEvent::SourceIdle, PollEvent::QueueIdle { source_done: true }]
}

/// `k` such polls, one after another.
pub open spec fn closing_polls<O>(k: nat) -> Seq<PollEvent<O>>
    decreases k,
{
    if k == 0 {
        Seq::empty()
    } else {
        closing_poll() + closing_polls((k - 1) as nat)
    }
}

/// One closing poll from a state where nothing runs: it is accepted, hands
/// out the due output if one is left (and ends the stream otherwise), and
/// leaves a state where still nothing runs.
proof fn lemma_one_closing_poll<O>(m: PollModel<O>, rest: Seq<PollEvent<O>>)
    requires
        m.inv(),
        m.order.in_flight_count() == 0,
    ensures
        ({
            let evs = closing_poll() + rest;
            let m3 = m.next(PollEvent::Start).next(PollEvent::SourceIdle).next(
                PollEvent::QueueIdle { source_done: true },
            );
            let last = m.next(PollEvent::Start).next(PollEvent::SourceIdle).action(
                PollEvent::QueueIdle { source_done: true },
            );
            &&& m3.inv()
            &&& m3.order.in_flight_count() == 0
            &&& m3.order.issued == m.order.issued
            &&& m3.order.outputs == m.order.outputs
            &&& m3.phase is Idle
            &&& accepted(m, evs) == accepted(m3, rest)
            &&& run(m, evs) == run(m3, rest)
            &&& m.order.released < m.order.issued ==> {
                &&& m3.order.released == m.order.released + 1
                &&& ready_outputs(m, evs) == seq![m.order.outputs[m.order.released as int]]
                    + ready_outputs(m3, rest)
            }
            &&& m.order.released == m.order.issued ==> {
                &&& last is Exhausted
                &&& ready_outputs(m, evs) == ready_outputs(m3, rest)
            }
            &&& rest.len() > 0 ==> last_action(m, evs) == last_action(m3, rest)
            &&& rest.len() == 0 ==> last_action(m, evs) == last
        }),
{
    let evs = closing_poll() + rest;
    let e0 = PollEvent::<O>::Start;
    let e1 = PollEvent::<O>::SourceIdle;
    let e2 = PollEvent::<O>::QueueIdle { source_done: true };
    let m1 = m.next(e0);
    let m2 = m1.next(e1);
    let m3 = m2.next(e2);
    assert(m.restarted().may_fill());
    assert(m1.phase is AwaitSource);
    lemma_next_preserves(m, e0);
    lemma_next_preserves(m1, e1);
    lemma_next_preserves(m2, e2);
    assert(m2.order == m.order);
    let t1 = seq![e1, e2] + rest;
    let t2 = seq![e2] + rest;
    assert(evs[0] == e0);
    assert(evs.drop_first() =~= t1);
    assert(t1[0] == e1);
    assert(t1.drop_first() =~= t2);
    assert(t2[0] == e2);
    assert(t2.drop_first() =~= rest);
    assert(m.expects(e0) && m1.expects(e1) && m2.expects(e2));
    assert(accepted(m, evs) == accepted(m1, t1));
    assert(accepted(m1, t1) == accepted(m2, t2));
    assert(accepted(m2, t2) == accepted(m3, rest));
    assert(run(m, evs) == run(m1, t1));
    assert(run(m1, t1) == run(m2, t2));
    assert(run(m2, t2) == run(m3, rest));
    assert(ready_outputs(m, evs) == ready_outputs(m1, t1));
    assert(ready_outputs(m1, t1) == ready_outputs(m2, t2));
    assert(last_action(m, evs) == last_action(m1, t1));
    assert(last_action(m1, t1) == last_action(m2, t2));
    if rest.len() > 0 {
        assert(last_action(m2, t2) == last_action(m3, rest));
    }
    let o = m.order;
    if o.released < o.issued {
        crate::order::lemma_idle_means_next_is_held(o);
        assert(m3.order == o.with_next_released());
        assert(ready_outputs(m2, t2) == seq![o.outputs[o.released as int]] + ready_outputs(m3, rest));
    } else {
        assert(o.held.len() == 0);
        assert(!o.held.contains(o.released as int));
        assert(m3.order == o);
        assert(ready_outputs(m2, t2) == ready_outputs(m3, rest));
    }
    if rest.len() == 0 {
        assert(t2.len() == 1);
    }
}

/// Once the source is done and no future runs, polling again and again hands
/// out every output that is still held, in id order, one per poll, and then
/// ends the stream.
pub proof fn lemma_closing_polls<O>(m: PollModel<O>)
    requires
        m.inv(),
        m.order.in_flight_count() == 0,
    ensures
        ({
            let evs = closing_polls::<O>((m.order.backlog() + 1) as nat);
            &&& accepted(m, evs)
            &&& ends_exhausted(m, evs)
            &&& ready_outputs(m, evs) == Seq::new(
                m.order.backlog() as nat,
                |k: int| m.order.outputs[m.order.released + k],
            )
        }),
    decreases m.order.backlog(),
{
    let k = (m.order.backlog() + 1) as nat;
    let rest = closing_polls::<O>((k - 1) as nat);
    assert(closing_polls::<O>(k) == closing_poll() + rest);
    lemma_one_closing_poll(m, rest);
    let m3 = m.next(PollEvent::Start).next(PollEvent::SourceIdle).next(
        PollEvent::QueueIdle { source_done: true },
    );
    if m.order.released < m.order.issued {
        lemma_closing_polls(m3);
        assert(m3.order.backlog() + 1 == k - 1);
        assert(rest.len() > 0) by {
            assert(rest == closing_poll::<O>() + closing_polls::<O>((k - 2) as nat));
        }
        assert(ready_outputs(m, closing_polls::<O>(k)) =~= Seq::new(
            m.order.backlog() as nat,
            |j: int| m.order.outputs[m.order.released + j],
        ));
    } else {
        assert(rest.len() == 0);
        assert(accepted(m3, rest));
        assert(ready_outputs(m3, rest) == Seq::<O>::empty());
        assert(ready_outputs(m, closing_polls::<O>(k)) =~= Seq::new(
            m.order.backlog() as nat,
            |j: int| m.order.outputs[m.order.released + j],
        ));
    }
}

} // verus!
