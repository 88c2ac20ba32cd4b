use fast_ordered_buffer::{
    FastBufferOrdered, FobStreamExt, OrderState, PollAction, PollEvent, PollState, Release,
};

fn is_next<O: PartialEq + std::fmt::Debug>(r: Release<O>, expected: O) -> bool {
    match r {
        Release::Next(x) => x == expected,
        _ => false,
    }
}

#[test]
fn limit_of_zero_or_none_is_unbounded() {
    assert_eq!(OrderState::<u8>::new(None).limit(), None);
    assert_eq!(OrderState::<u8>::new(Some(0)).limit(), None);
    assert_eq!(OrderState::<u8>::new(Some(3)).limit(), Some(3));
}

#[test]
fn new_buffer_keeps_its_source() {
    let b: FastBufferOrdered<Vec<u8>, u8> = FastBufferOrdered::new(vec![7, 8], Some(4));
    assert_eq!(b.stream, vec![7, 8]);
    assert_eq!(b.state.order().limit(), Some(4));
    assert_eq!(b.state.order().issued(), 0);
    assert_eq!(b.state.order().released(), 0);

    let c = "source".fast_ordered_buffer::<u8>(0);
    assert_eq!(c.stream, "source");
    assert_eq!(c.state.order().limit(), None);
}

#[test]
fn ids_are_consecutive_and_capacity_counts_running_only() {
    let mut s: OrderState<&str> = OrderState::new(Some(2));
    assert!(s.has_capacity());
    assert_eq!(s.issue_next(), 0);
    assert_eq!(s.issue_next(), 1);
    assert!(!s.has_capacity());
    assert_eq!(s.in_flight(), 2);
    assert!(s.is_in_flight(0) && s.is_in_flight(1) && !s.is_in_flight(2));

    // Future 1 finishes early: it is held back, and frees a slot.
    assert_eq!(s.complete(1, "b"), None);
    assert_eq!(s.held_count(), 1);
    assert!(!s.is_in_flight(1));
    assert!(s.has_capacity());
    assert_eq!(s.issue_next(), 2);
    assert!(!s.has_capacity());
}

#[test]
fn outputs_come_out_in_id_order() {
    let mut s: OrderState<u32> = OrderState::new(None);
    for _ in 0..5 {
        s.issue_next();
    }
    // Finish in the order 3, 1, 4, 0, 2.
    assert_eq!(s.complete(3, 30), None);
    assert_eq!(s.complete(1, 10), None);
    assert_eq!(s.complete(4, 40), None);
    assert!(matches!(s.finish_poll(false), Release::Wait));
    assert_eq!(s.complete(0, 0), Some(0));
    assert!(is_next(s.finish_poll(false), 10));
    assert!(matches!(s.finish_poll(false), Release::Wait));
    assert_eq!(s.complete(2, 20), Some(20));
    assert!(is_next(s.finish_poll(true), 30));
    assert!(is_next(s.finish_poll(true), 40));
    assert!(matches!(s.finish_poll(true), Release::Exhausted));
    assert_eq!(s.released(), 5);
    assert_eq!(s.held_count(), 0);
}

#[test]
fn not_exhausted_while_futures_run() {
    let mut s: OrderState<u32> = OrderState::new(Some(1));
    s.issue_next();
    assert!(matches!(s.finish_poll(true), Release::Wait));
    assert_eq!(s.complete(0, 5), Some(5));
    assert!(matches!(s.finish_poll(true), Release::Exhausted));
}

#[test]
fn not_exhausted_while_source_open() {
    let mut s: OrderState<u32> = OrderState::new(Some(1));
    assert!(matches!(s.finish_poll(false), Release::Wait));
    assert!(matches!(s.finish_poll(true), Release::Exhausted));
}

#[test]
fn idle_buffer_always_holds_the_next_output() {
    let mut s: OrderState<u32> = OrderState::new(None);
    for _ in 0..4 {
        s.issue_next();
    }
    assert_eq!(s.complete(2, 2), None);
    assert_eq!(s.complete(3, 3), None);
    assert_eq!(s.complete(1, 1), None);
    assert_eq!(s.in_flight(), 1);
    assert_eq!(s.complete(0, 0), Some(0));
    // Nothing runs; every later output is held and comes out in turn.
    assert_eq!(s.in_flight(), 0);
    assert!(is_next(s.finish_poll(true), 1));
    assert!(is_next(s.finish_poll(true), 2));
    assert!(is_next(s.finish_poll(true), 3));
    assert!(matches!(s.finish_poll(true), Release::Exhausted));
}

#[test]
fn size_hint_adds_unreleased_outputs() {
    let mut s: OrderState<u32> = OrderState::new(None);
    assert_eq!(s.size_hint((3, Some(3))), (3, Some(3)));
    s.issue_next();
    s.issue_next();
    s.issue_next();
    assert_eq!(s.complete(2, 2), None);
    // Two running and one held: three outputs still to come.
    assert_eq!(s.size_hint((1, Some(1))), (4, Some(4)));
    assert_eq!(s.size_hint((0, None)), (3, None));
    assert_eq!(s.complete(0, 0), Some(0));
    assert_eq!(s.size_hint((0, Some(0))), (2, Some(2)));
}

#[test]
fn size_hint_saturates_and_drops_overflowing_upper_bound() {
    let mut s: OrderState<u32> = OrderState::new(None);
    s.issue_next();
    s.issue_next();
    assert_eq!(
        s.size_hint((usize::MAX - 1, Some(usize::MAX - 1))),
        (usize::MAX, None)
    );
    assert_eq!(
        s.size_hint((usize::MAX - 2, Some(usize::MAX - 2))),
        (usize::MAX, Some(usize::MAX))
    );
}

#[test]
fn poll_fills_before_collecting() {
    let mut p: PollState<u32> = PollState::new(Some(2));
    assert!(matches!(p.step(PollEvent::Start), PollAction::PollSource));
    assert!(matches!(p.step(PollEvent::SourceYielded), PollAction::Spawn(0)));
    assert!(matches!(p.step(PollEvent::Spawned), PollAction::PollSource));
    assert!(matches!(p.step(PollEvent::SourceYielded), PollAction::Spawn(1)));
    // The limit is reached: collect.
    assert!(matches!(p.step(PollEvent::Spawned), PollAction::PollQueue));
    // Future 1 finishes first and is held back. This poll has already
    // started two futures, its budget: the slot is left for the next poll,
    // which it asks for.
    assert!(matches!(p.step(PollEvent::Completed(1, 11)), PollAction::PollQueue));
    assert!(matches!(
        p.step(PollEvent::QueueIdle { source_done: false }),
        PollAction::Reschedule
    ));
    // Next poll: one slot is free, so the source is asked again first.
    assert!(matches!(p.step(PollEvent::Start), PollAction::PollSource));
    assert!(matches!(p.step(PollEvent::SourceIdle), PollAction::PollQueue));
    assert!(matches!(p.step(PollEvent::Completed(0, 10)), PollAction::Ready(10)));
    assert!(matches!(p.step(PollEvent::Start), PollAction::PollSource));
    assert!(matches!(p.step(PollEvent::SourceIdle), PollAction::PollQueue));
    assert!(matches!(
        p.step(PollEvent::QueueIdle { source_done: true }),
        PollAction::Ready(11)
    ));
    assert!(matches!(p.step(PollEvent::Start), PollAction::PollSource));
    assert!(matches!(p.step(PollEvent::SourceIdle), PollAction::PollQueue));
    assert!(matches!(
        p.step(PollEvent::QueueIdle { source_done: true }),
        PollAction::Exhausted
    ));
}

#[test]
fn events_out_of_phase_are_refused() {
    let mut p: PollState<u32> = PollState::new(Some(1));
    assert!(p.accepts(&PollEvent::Start));
    assert!(!p.accepts(&PollEvent::SourceYielded));
    assert!(!p.accepts(&PollEvent::Spawned));
    assert!(!p.accepts(&PollEvent::QueueIdle { source_done: true }));
    assert!(matches!(p.step(PollEvent::Start), PollAction::PollSource));
    assert!(p.accepts(&PollEvent::SourceYielded));
    assert!(p.accepts(&PollEvent::SourceIdle));
    assert!(!p.accepts(&PollEvent::Completed(0, 1)));
    assert!(matches!(p.step(PollEvent::SourceYielded), PollAction::Spawn(0)));
    assert!(p.accepts(&PollEvent::Spawned));
    assert!(matches!(p.step(PollEvent::Spawned), PollAction::PollQueue));
    // Only a running id may complete.
    assert!(p.accepts(&PollEvent::Completed(0, 1)));
    assert!(!p.accepts(&PollEvent::Completed(1, 1)));
}

#[test]
fn held_completion_refills_the_slot_in_the_same_poll() {
    let mut p: PollState<u32> = PollState::new(Some(2));
    assert!(matches!(p.step(PollEvent::Start), PollAction::PollSource));
    assert!(matches!(p.step(PollEvent::SourceYielded), PollAction::Spawn(0)));
    assert!(matches!(p.step(PollEvent::Spawned), PollAction::PollSource));
    assert!(matches!(p.step(PollEvent::SourceYielded), PollAction::Spawn(1)));
    assert!(matches!(p.step(PollEvent::Spawned), PollAction::PollQueue));
    assert!(matches!(
        p.step(PollEvent::QueueIdle { source_done: false }),
        PollAction::Pending
    ));
    // A new poll: no room, so collect; future 1 is held back and its slot
    // is refilled within the same poll.
    assert!(matches!(p.step(PollEvent::Start), PollAction::PollQueue));
    assert!(matches!(p.step(PollEvent::Completed(1, 1)), PollAction::PollSource));
    assert!(matches!(p.step(PollEvent::SourceYielded), PollAction::Spawn(2)));
    assert!(matches!(p.step(PollEvent::Spawned), PollAction::PollQueue));
    assert_eq!(p.order().in_flight(), 2);
    assert_eq!(p.order().issued(), 3);
}

#[test]
fn closing_polls_hand_out_every_held_output_then_end() {
    let mut p: PollState<u32> = PollState::new(None);
    assert!(matches!(p.step(PollEvent::Start), PollAction::PollSource));
    for id in 0..3 {
        assert!(matches!(p.step(PollEvent::SourceYielded), PollAction::Spawn(i) if i == id));
        assert!(matches!(p.step(PollEvent::Spawned), PollAction::PollSource));
    }
    assert!(matches!(p.step(PollEvent::SourceIdle), PollAction::PollQueue));
    assert!(matches!(p.step(PollEvent::Completed(2, 20)), PollAction::PollSource));
    assert!(matches!(p.step(PollEvent::SourceIdle), PollAction::PollQueue));
    assert!(matches!(p.step(PollEvent::Completed(1, 10)), PollAction::PollSource));
    assert!(matches!(p.step(PollEvent::SourceIdle), PollAction::PollQueue));
    assert!(matches!(p.step(PollEvent::Completed(0, 0)), PollAction::Ready(0)));
    // Nothing runs and the source is done: each poll hands out one output.
    let mut out = Vec::new();
    loop {
        assert!(matches!(p.step(PollEvent::Start), PollAction::PollSource));
        assert!(matches!(p.step(PollEvent::SourceIdle), PollAction::PollQueue));
        match p.step(PollEvent::QueueIdle { source_done: true }) {
            PollAction::Ready(v) => out.push(v),
            PollAction::Exhausted => break,
            _ => panic!("a closing poll neither hands out nor ends"),
        }
    }
    assert_eq!(out, vec![10, 20]);
}
