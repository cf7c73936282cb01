use polly::event_manager::{
    callbacks, Error, EventHandler, EventHandlerData, EventManager, HandlerId, HandlerMap, Step,
    DEFAULT_EPOLL_TIMEOUT, EVENT_BUFFER_SIZE,
};
use polly::pollable::{EventType, OsError, OwnedFD, Pollable, PollableOp, PollableOpBuilder};
use polly::protocol::{Callback, Completion, ControlOp, ControlRequest, Event, WaitRequest};

const EPFD: i32 = 50;

const FIRST: HandlerId = HandlerId { id: 1 };

const SECOND: HandlerId = HandlerId { id: 2 };

fn pollable(fd: i32) -> Pollable {
    OwnedFD::from(fd, fd + 100, OsError { code: 0 }).unwrap()
}

fn manager() -> EventManager {
    match EventManager::new(Ok(pollable(EPFD))) {
        Ok(manager) => manager,
        Err(_) => panic!("no manager"),
    }
}

fn register(fd: i32) -> PollableOp {
    PollableOpBuilder::new(pollable(fd)).readable().register()
}

fn unregister(fd: i32) -> PollableOp {
    PollableOpBuilder::new(pollable(fd)).unregister()
}

fn update(fd: i32) -> PollableOp {
    PollableOpBuilder::new(pollable(fd)).writeable().update()
}

/// Answers every request with success; returns the requests and the result.
fn complete(em: &mut EventManager, step: Step) -> (Vec<ControlRequest>, Result<Completion, Error>) {
    answer(em, step, &[])
}

/// Answers requests with the outcomes, and then with success.
fn answer(
    em: &mut EventManager,
    step: Step,
    outcomes: &[Result<(), OsError>],
) -> (Vec<ControlRequest>, Result<Completion, Error>) {
    let mut requests = Vec::new();
    let mut step = step;
    loop {
        step = match step {
            Step::Control(request, pending) => {
                let outcome = match outcomes.get(requests.len()) {
                    Some(outcome) => *outcome,
                    None => Ok(()),
                };
                requests.push(request);
                em.controlled(pending, outcome)
            }
            Step::Done(result) => return (requests, result),
            _ => panic!("neither a request nor a result"),
        };
    }
}

/// Carries operations out with success.
fn carry_out(em: &mut EventManager, handler: HandlerId, ops: Vec<PollableOp>) {
    let step = em.update(handler, ops);
    let (_, result) = complete(em, step);
    assert!(result == Ok(Completion::Updated));
}

fn event(bits: u32, fd: i32) -> Event {
    Event { events: bits, data: fd as u64 }
}

/// A handler that records what it is told, and answers a read with operations.
struct Recorder {
    told: Vec<(Callback, i32)>,
    on_read: Vec<PollableOp>,
}

impl EventHandler for Recorder {
    fn handle_read(&mut self, source: Pollable) -> Option<Vec<PollableOp>> {
        self.told.push((Callback::Read, source.as_raw_fd()));
        Some(std::mem::take(&mut self.on_read))
    }

    fn handle_write(&mut self, source: Pollable) -> Option<Vec<PollableOp>> {
        self.told.push((Callback::Write, source.as_raw_fd()));
        None
    }

    fn handle_close(&mut self, source: Pollable) -> Option<Vec<PollableOp>> {
        self.told.push((Callback::Close, source.as_raw_fd()));
        Some(vec![PollableOpBuilder::new(source).unregister()])
    }

    fn handle_error(&mut self, source: Pollable) -> Option<Vec<PollableOp>> {
        self.told.push((Callback::Error, source.as_raw_fd()));
        None
    }

    fn init(&self) -> Option<Vec<PollableOp>> {
        Some(vec![register(30)])
    }
}

/// A handler that leaves everything as it is.
struct Silent;

impl EventHandler for Silent {
    fn init(&self) -> Option<Vec<PollableOp>> {
        None
    }
}

/// Gives a manager everything that it needs, with the handler at hand.
fn serve<T: EventHandler>(
    em: &mut EventManager,
    step: Step,
    handler: &mut T,
) -> (Vec<ControlRequest>, Result<Completion, Error>) {
    serve_with(em, step, handler, &[])
}

/// Gives a manager everything that it needs, with the handler at hand. Answers
/// requests with the outcomes, and then with success.
fn serve_with<T: EventHandler>(
    em: &mut EventManager,
    step: Step,
    handler: &mut T,
    outcomes: &[Result<(), OsError>],
) -> (Vec<ControlRequest>, Result<Completion, Error>) {
    let mut requests = Vec::new();
    let mut step = step;
    loop {
        step = match step {
            Step::Control(request, pending) => {
                let outcome = match outcomes.get(requests.len()) {
                    Some(outcome) => *outcome,
                    None => Ok(()),
                };
                requests.push(request);
                em.controlled(pending, outcome)
            }
            Step::Acquire(pending) => em.dispatch_event(pending),
            Step::Call(pending) => {
                let reply = pending.call(handler);
                em.answered(pending, reply)
            }
            Step::Done(result) => return (requests, result),
            Step::Wait(_) => panic!("a wait"),
        };
    }
}

fn recorder() -> Recorder {
    Recorder { told: Vec::new(), on_read: Vec::new() }
}

#[test]
fn no_instance_no_manager() {
    match EventManager::new(Err(OsError { code: 24 })) {
        Ok(_) => panic!("a manager without an instance"),
        Err(error) => assert!(error == Error::EpollCreate),
    }
    assert_eq!(manager().as_raw_fd(), EPFD);
}

#[test]
fn registration_asks_for_the_duplicate_under_the_original() {
    let mut em = manager();
    let step = em.update(FIRST, vec![register(7)]);
    let (requests, result) = complete(&mut em, step);
    assert_eq!(
        requests,
        vec![ControlRequest {
            epfd: EPFD,
            op: ControlOp::Add,
            fd: 107,
            event: Event { events: 1, data: 7 },
        }]
    );
    assert!(result == Ok(Completion::Updated));
}

#[test]
fn registration_is_exclusive() {
    let mut em = manager();
    carry_out(&mut em, FIRST, vec![register(7)]);
    let step = em.update(SECOND, vec![register(7)]);
    let (requests, result) = complete(&mut em, step);
    assert_eq!(requests, vec![]);
    assert!(result == Err(Error::AlreadyExists));
}

#[test]
fn unknown_descriptors_are_not_found() {
    let mut em = manager();
    let step = em.update(FIRST, vec![update(7)]);
    assert!(complete(&mut em, step).1 == Err(Error::PollableNotFound(pollable(7))));
    let step = em.update(FIRST, vec![unregister(8)]);
    assert!(complete(&mut em, step).1 == Err(Error::PollableNotFound(pollable(8))));
}

#[test]
fn update_and_unregister_ask_for_their_changes() {
    let mut em = manager();
    carry_out(&mut em, FIRST, vec![register(7)]);
    let step = em.update(FIRST, vec![update(7), unregister(7)]);
    let (requests, result) = complete(&mut em, step);
    assert_eq!(
        requests,
        vec![
            ControlRequest {
                epfd: EPFD,
                op: ControlOp::Modify,
                fd: 107,
                event: Event { events: 4, data: 7 },
            },
            ControlRequest {
                epfd: EPFD,
                op: ControlOp::Delete,
                fd: 107,
                event: Event { events: 0, data: 0 },
            },
        ]
    );
    assert!(result == Ok(Completion::Updated));
}

#[test]
fn unregister_undoes_register() {
    let mut em = manager();
    carry_out(&mut em, FIRST, vec![register(7), unregister(7), register(7)]);
    let step = em.process_events(vec![event(1, 7)]);
    assert!(matches!(step, Step::Acquire(_)));
}

#[test]
fn failed_registration_leaves_no_entry() {
    let mut em = manager();
    let step = em.update(FIRST, vec![register(7), register(8)]);
    let (requests, result) = answer(&mut em, step, &[Err(OsError { code: 1 })]);
    assert_eq!(requests.len(), 1);
    assert!(result == Err(Error::Poll(OsError { code: 1 })));
    carry_out(&mut em, FIRST, vec![register(7)]);
}

#[test]
fn failed_unregistration_still_drops_the_entry() {
    let mut em = manager();
    carry_out(&mut em, FIRST, vec![register(7), register(8)]);
    let step = em.update(FIRST, vec![unregister(7), unregister(8)]);
    let (requests, result) = answer(&mut em, step, &[Err(OsError { code: 2 })]);
    assert_eq!(requests.len(), 1);
    assert!(result == Err(Error::Poll(OsError { code: 2 })));
    let step = em.update(FIRST, vec![unregister(7)]);
    assert!(complete(&mut em, step).1 == Err(Error::PollableNotFound(pollable(7))));
    carry_out(&mut em, FIRST, vec![unregister(8)]);
}

#[test]
fn failed_update_keeps_the_entry() {
    let mut em = manager();
    carry_out(&mut em, FIRST, vec![register(7)]);
    let step = em.update(FIRST, vec![update(7)]);
    let (_, result) = answer(&mut em, step, &[Err(OsError { code: 3 })]);
    assert!(result == Err(Error::Poll(OsError { code: 3 })));
    carry_out(&mut em, FIRST, vec![update(7)]);
}

#[test]
fn refusal_ends_a_run_of_operations() {
    let mut em = manager();
    let step = em.run_pollable_ops(FIRST, vec![register(7), unregister(9), register(8)]);
    let (requests, result) = complete(&mut em, step);
    assert_eq!(requests.len(), 1);
    assert!(result == Err(Error::PollableNotFound(pollable(9))));
    let step = em.update(FIRST, vec![register(7)]);
    assert!(complete(&mut em, step).1 == Err(Error::AlreadyExists));
    carry_out(&mut em, FIRST, vec![register(8)]);
}

#[test]
fn no_operations_are_done_at_once() {
    let mut em = manager();
    assert!(matches!(em.update(FIRST, vec![]), Step::Done(Ok(Completion::Updated))));
}

#[test]
fn a_new_handler_has_its_operations_carried_out() {
    let mut em = manager();
    let step = em.register(&recorder(), FIRST);
    let (requests, result) = complete(&mut em, step);
    assert_eq!(requests.len(), 1);
    assert_eq!(requests[0].fd, 130);
    assert!(result == Ok(Completion::Updated));
    assert!(matches!(em.register(&Silent, SECOND), Step::Done(Ok(Completion::Updated))));
    assert!(matches!(em.initialize(SECOND, None), Step::Done(Ok(Completion::Updated))));
}

#[test]
fn waits_are_bounded_by_the_buffer() {
    let mut em = manager();
    let expected = WaitRequest { epfd: EPFD, timeout: -1, max_events: 100 };
    assert!(matches!(em.run(), Step::Wait(request) if request == expected));
    let expected = WaitRequest { epfd: EPFD, timeout: 1000, max_events: EVENT_BUFFER_SIZE };
    assert!(matches!(em.run_timeout(1000), Step::Wait(request) if request == expected));
    let expected = WaitRequest { epfd: EPFD, timeout: 250, max_events: EVENT_BUFFER_SIZE };
    assert_eq!(DEFAULT_EPOLL_TIMEOUT, 250);
    assert!(matches!(em.handle_read(&pollable(EPFD)), Step::Wait(request) if request == expected));
}

#[test]
fn failed_wait_ends_the_run() {
    let mut em = manager();
    match em.waited(Err(OsError { code: 4 })) {
        Step::Done(result) => assert!(result == Err(Error::Poll(OsError { code: 4 }))),
        _ => panic!("not done"),
    }
}

#[test]
fn a_wait_without_events_reports_none() {
    let mut em = manager();
    assert!(matches!(em.waited(Ok(vec![])), Step::Done(Ok(Completion::Processed(0)))));
}

#[test]
fn an_event_goes_to_the_handler_that_registered() {
    let mut em = manager();
    carry_out(&mut em, FIRST, vec![register(7)]);
    carry_out(&mut em, SECOND, vec![register(8)]);
    match em.process_events(vec![event(1, 8)]) {
        Step::Acquire(pending) => assert_eq!(pending.handler(), SECOND),
        _ => panic!("no handler"),
    }
}

#[test]
fn negative_descriptors_find_their_entries() {
    let mut em = manager();
    carry_out(&mut em, FIRST, vec![register(-7)]);
    assert_eq!(event(1, -7).data, 0xffff_ffff_ffff_fff9);
    assert!(matches!(em.process_events(vec![event(1, -7)]), Step::Acquire(_)));
}

#[test]
fn unknown_events_are_passed_over() {
    let mut em = manager();
    carry_out(&mut em, FIRST, vec![register(7)]);
    let step = em.process_events(vec![event(0x20, 7), event(1, 9), event(0x4000 | 1, 7)]);
    assert!(matches!(step, Step::Done(Ok(Completion::Processed(3)))));
}

#[test]
fn every_named_bit_is_known_and_no_other() {
    let mut em = manager();
    carry_out(&mut em, FIRST, vec![register(7)]);
    for position in 0..32 {
        let bits: u32 = 1 << position;
        let known = matches!(em.process_events(vec![event(bits, 7)]), Step::Acquire(_));
        assert_eq!(known, epoll::Events::from_bits(bits).is_some());
        assert_eq!(known, bits & 0xf000_201f != 0);
    }
    assert!(matches!(em.process_events(vec![event(0, 7)]), Step::Acquire(_)));
}

#[test]
fn an_error_is_told_alone() {
    assert_eq!(callbacks(0x8 | 0x1 | 0x4 | 0x2000), vec![Callback::Error]);
    assert_eq!(
        callbacks(0x1 | 0x4 | 0x2000),
        vec![Callback::Read, Callback::Write, Callback::Close]
    );
    assert_eq!(callbacks(0x2001), vec![Callback::Read, Callback::Close]);
    assert_eq!(callbacks(0x4), vec![Callback::Write]);
    assert_eq!(callbacks(0x10), vec![]);
}

#[test]
fn a_handler_is_told_and_its_answers_are_carried_out() {
    let mut em = manager();
    carry_out(&mut em, FIRST, vec![register(7)]);
    let mut handler = recorder();
    handler.on_read = vec![register(8), register(9)];
    let step = em.waited(Ok(vec![event(0x2005, 7), event(1, 8)]));
    let (requests, result) = serve(&mut em, step, &mut handler);
    assert_eq!(
        handler.told,
        vec![
            (Callback::Read, 7),
            (Callback::Write, 7),
            (Callback::Close, 7),
            (Callback::Read, 8),
        ]
    );
    assert_eq!(
        requests.iter().map(|request| (request.op, request.fd)).collect::<Vec<_>>(),
        vec![(ControlOp::Add, 108), (ControlOp::Add, 109), (ControlOp::Delete, 107)]
    );
    assert!(result == Ok(Completion::Processed(2)));
}

#[test]
fn a_failed_descriptor_is_reported_to_its_handler() {
    let mut em = manager();
    carry_out(&mut em, FIRST, vec![register(7)]);
    let mut handler = recorder();
    let step = em.process_events(vec![event(0x9, 7)]);
    let (requests, result) = serve(&mut em, step, &mut handler);
    assert_eq!(handler.told, vec![(Callback::Error, 7)]);
    assert_eq!(requests, vec![]);
    assert!(result == Ok(Completion::Processed(1)));
}

#[test]
fn silent_handlers_change_nothing() {
    let mut em = manager();
    carry_out(&mut em, FIRST, vec![register(7)]);
    for bits in [0x1, 0x4, 0x2000, 0x8, 0x2005] {
        let step = em.process_events(vec![event(bits, 7)]);
        let (requests, result) = serve(&mut em, step, &mut Silent);
        assert_eq!(requests, vec![]);
        assert!(result == Ok(Completion::Processed(1)));
    }
}

#[test]
fn a_refused_answer_ends_the_run() {
    let mut em = manager();
    carry_out(&mut em, FIRST, vec![register(7)]);
    let mut handler = recorder();
    handler.on_read = vec![register(7)];
    let step = em.process_events(vec![event(1, 7), event(4, 7)]);
    let (_, result) = serve(&mut em, step, &mut handler);
    assert!(result == Err(Error::AlreadyExists));
    assert_eq!(handler.told, vec![(Callback::Read, 7)]);
}

#[test]
fn an_event_is_passed_over_when_its_handler_is_gone() {
    let mut em = manager();
    carry_out(&mut em, FIRST, vec![register(7)]);
    match em.process_events(vec![event(1, 7), event(4, 7)]) {
        Step::Acquire(pending) => match em.handler_gone(pending) {
            Step::Acquire(pending) => {
                assert!(matches!(
                    em.handler_gone(pending),
                    Step::Done(Ok(Completion::Processed(2)))
                ));
            }
            _ => panic!("the second event is lost"),
        },
        _ => panic!("no handler"),
    }
    carry_out(&mut em, FIRST, vec![unregister(7)]);
}

#[test]
fn a_descriptor_is_dropped_when_its_handler_is_out_of_reach() {
    let mut em = manager();
    carry_out(&mut em, FIRST, vec![register(7), register(8)]);
    let step = match em.process_events(vec![event(1, 7), event(4, 7), event(1, 8)]) {
        Step::Acquire(pending) => em.handler_busy(pending),
        _ => panic!("no handler"),
    };
    let step = match step {
        Step::Control(request, pending) => {
            assert_eq!(request.op, ControlOp::Delete);
            assert_eq!(request.fd, 107);
            em.controlled(pending, Ok(()))
        }
        _ => panic!("not dropped"),
    };
    match step {
        Step::Acquire(pending) => {
            assert!(matches!(
                em.handler_gone(pending),
                Step::Done(Ok(Completion::Processed(3)))
            ));
        }
        _ => panic!("the last event is lost"),
    }
    let step = em.update(FIRST, vec![unregister(7)]);
    assert!(complete(&mut em, step).1 == Err(Error::PollableNotFound(pollable(7))));
}

#[test]
fn a_run_ends_when_a_descriptor_cannot_be_dropped() {
    let mut em = manager();
    carry_out(&mut em, FIRST, vec![register(7), register(8)]);
    let step = match em.process_events(vec![event(1, 7), event(1, 8)]) {
        Step::Acquire(pending) => em.handler_busy(pending),
        _ => panic!("no handler"),
    };
    let (_, result) = answer(&mut em, step, &[Err(OsError { code: 5 })]);
    assert!(result == Err(Error::Poll(OsError { code: 5 })));
}

#[test]
fn a_manager_can_be_watched() {
    let inner = manager();
    match inner.init(77, OsError { code: 0 }) {
        Some(ops) => {
            assert_eq!(ops.len(), 1);
            match &ops[0] {
                PollableOp::Register((instance, event_type)) => {
                    assert_eq!(instance.as_raw_fd(), EPFD);
                    assert_eq!(instance.dup_fd(), 77);
                    assert!(*event_type == EventType::read());
                }
                _ => panic!("not a registration"),
            }
        }
        None => panic!("nothing to watch"),
    }
}

#[test]
fn a_watched_manager_answers_with_no_operations() {
    assert!(EventManager::read_answer(Ok(Completion::Processed(3))).is_none());
    assert!(EventManager::read_answer(Err(Error::Poll(OsError { code: 4 }))).is_none());
}

#[test]
fn a_pending_event_tells_its_source() {
    let mut em = manager();
    carry_out(&mut em, FIRST, vec![register(7)]);
    match em.process_events(vec![event(1, 7)]) {
        Step::Acquire(pending) => {
            assert_eq!(pending.source().as_raw_fd(), 7);
            assert_eq!(pending.source().dup_fd(), 107);
        }
        _ => panic!("no handler"),
    }
}

#[test]
fn each_event_of_a_batch_has_its_turn_in_order() {
    let mut em = manager();
    carry_out(&mut em, FIRST, vec![register(7), register(8)]);
    let mut handler = recorder();
    let step = em.process_events(vec![event(4, 8), event(1, 9), event(1, 7), event(4, 7)]);
    let (_, result) = serve(&mut em, step, &mut handler);
    assert_eq!(
        handler.told,
        vec![(Callback::Write, 8), (Callback::Read, 7), (Callback::Write, 7)]
    );
    assert!(result == Ok(Completion::Processed(4)));
}

#[test]
fn a_descriptor_unregistered_earlier_in_a_batch_is_not_told() {
    let mut em = manager();
    carry_out(&mut em, FIRST, vec![register(7), register(8)]);
    let mut handler = recorder();
    handler.on_read = vec![unregister(8)];
    let step = em.process_events(vec![event(1, 7), event(1, 8), event(4, 7)]);
    let (_, result) = serve(&mut em, step, &mut handler);
    assert_eq!(handler.told, vec![(Callback::Read, 7), (Callback::Write, 7)]);
    assert!(result == Ok(Completion::Processed(3)));
}

#[test]
fn later_failures_of_a_batch_tell_nobody_of_a_dropped_descriptor() {
    let mut em = manager();
    carry_out(&mut em, FIRST, vec![register(7), register(8)]);
    let mut handler = recorder();
    handler.on_read = vec![unregister(8)];
    let step = em.process_events(vec![event(1, 7), event(1, 8), event(0x2000, 7), event(4, 7)]);
    let outcomes = [Ok(()), Err(OsError { code: 5 })];
    let (_, result) = serve_with(&mut em, step, &mut handler, &outcomes);
    assert_eq!(handler.told, vec![(Callback::Read, 7), (Callback::Close, 7)]);
    assert!(result == Err(Error::Poll(OsError { code: 5 })));
}

#[test]
fn a_batch_ends_with_the_first_refused_operation() {
    let mut em = manager();
    carry_out(&mut em, FIRST, vec![register(7), register(8)]);
    let mut handler = recorder();
    handler.on_read = vec![register(9), unregister(8), register(7), unregister(9)];
    let step = em.process_events(vec![event(4, 8), event(1, 7), event(4, 7)]);
    let (requests, result) = serve(&mut em, step, &mut handler);
    assert_eq!(handler.told, vec![(Callback::Write, 8), (Callback::Read, 7)]);
    assert!(result == Err(Error::AlreadyExists));
    assert_eq!(requests.len(), 2);
    carry_out(&mut em, FIRST, vec![unregister(7), unregister(9)]);
    let step = em.update(FIRST, vec![unregister(8)]);
    assert!(complete(&mut em, step).1 == Err(Error::PollableNotFound(pollable(8))));
}

#[test]
fn a_batch_ends_with_the_first_operation_that_epoll_fails_at() {
    let mut em = manager();
    carry_out(&mut em, FIRST, vec![register(7), register(8)]);
    let mut handler = recorder();
    handler.on_read = vec![register(9), unregister(8), unregister(9)];
    let step = em.process_events(vec![event(4, 8), event(1, 7), event(4, 7)]);
    let outcomes = [Ok(()), Err(OsError { code: 9 })];
    let (requests, result) = serve_with(&mut em, step, &mut handler, &outcomes);
    assert_eq!(handler.told, vec![(Callback::Write, 8), (Callback::Read, 7)]);
    assert!(result == Err(Error::Poll(OsError { code: 9 })));
    assert_eq!(requests.len(), 2);
    carry_out(&mut em, FIRST, vec![unregister(7), unregister(9)]);
    let step = em.update(FIRST, vec![unregister(8)]);
    assert!(complete(&mut em, step).1 == Err(Error::PollableNotFound(pollable(8))));
}

#[test]
fn entries_are_kept_by_their_numbers() {
    let mut map = HandlerMap::new();
    assert!(map.is_empty());
    map.insert(7, EventHandlerData::new((pollable(7), EventType::read()), FIRST));
    map.insert(7, EventHandlerData::new((pollable(7), EventType::write()), SECOND));
    assert_eq!(map.len(), 1);
    let entry = map.get(&7).unwrap();
    assert_eq!(entry.handler, SECOND);
    assert!(entry.data.1 == EventType::write());
    assert_eq!(entry.data.0.dup_fd(), 107);
    assert!(map.get(&8).is_none());
    assert!(map.remove(&8).is_none());
    assert_eq!(map.remove(&7).unwrap().handler, SECOND);
    assert!(map.get(&7).is_none());
}

#[test]
fn events_on_unregistered_descriptors_go_to_nobody() {
    let mut em = manager();
    carry_out(&mut em, FIRST, vec![register(7), register(8), unregister(7)]);
    match em.process_events(vec![event(1, 7), event(1, 8)]) {
        Step::Acquire(pending) => {
            assert!(matches!(
                em.handler_gone(pending),
                Step::Done(Ok(Completion::Processed(2)))
            ));
        }
        _ => panic!("no handler"),
    }
    assert!(matches!(
        em.process_events(vec![event(1, 7)]),
        Step::Done(Ok(Completion::Processed(1)))
    ));
}

#[test]
fn an_update_by_another_handler_keeps_the_entry() {
    let mut em = manager();
    carry_out(&mut em, FIRST, vec![register(7)]);
    carry_out(&mut em, SECOND, vec![update(7)]);
    match em.process_events(vec![event(4, 7)]) {
        Step::Acquire(pending) => assert_eq!(pending.handler(), FIRST),
        _ => panic!("no handler"),
    }
}

#[test]
fn operations_leave_other_descriptors_alone() {
    let mut em = manager();
    carry_out(&mut em, FIRST, vec![register(7)]);
    carry_out(&mut em, SECOND, vec![register(8), update(8), unregister(8)]);
    match em.process_events(vec![event(1, 7)]) {
        Step::Acquire(pending) => assert_eq!(pending.handler(), FIRST),
        _ => panic!("no handler"),
    }
    assert_eq!(em.as_raw_fd(), EPFD);
}

#[test]
fn everything_watched_is_polled_under_its_own_number() {
    let mut em = manager();
    let step = em.update(FIRST, vec![register(7), register(8), update(7), unregister(8)]);
    let (requests, result) = complete(&mut em, step);
    assert!(result == Ok(Completion::Updated));
    let mut polled: Vec<(i32, u64)> = Vec::new();
    for request in requests {
        polled.retain(|(fd, _)| *fd != request.fd);
        if request.op != ControlOp::Delete {
            polled.push((request.fd, request.event.data));
        }
    }
    assert_eq!(polled, vec![(107, 7)]);
}
