//! What the operations of an event manager and of a chat server return and
//! change, from what they are given.
use crate::chat::{
    Accepted, Broadcast, ChatServer, Departure, ReadAction, Received, is_first, lossy_text,
    said,
};
use crate::event_manager::{
    Error, EventHandlerData, EventManager, HandlerId, PendingCall, PendingControl,
    PendingHandler, Step, callbacks,
};
use crate::laws::{
    calls_are_those_of_the_bits, impossible_operations_are_refused, mask_is_the_interest,
    message_is_put_together, message_length_in_bytes, named_bits_are_those_of_epoll,
    next_event_is_the_first, no_control_without_operations, no_event_is_left,
    registration_asks_for_the_interest, unregistration_asks_for_nothing_more,
    update_asks_for_the_interest,
};
use crate::pollable::{EventRegistrationData, EventType, OsError, OwnedFD, Pollable, PollableOp};
use crate::protocol::{
    AfterView, Callback, Completion, ControlOp, Event, ManagerView, callbacks_for,
};
use vstd::prelude::*;
use vstd::utf8::{decode_utf8, encode_utf8, valid_utf8};

verus! {

/// To register a descriptor that is not watched asks epoll to poll its
/// duplicate, under its own number, for all of the interest and for nothing
/// else.
pub proof fn register_asks_epoll(
    handler: HandlerId,
    data: EventRegistrationData,
    ops: Vec<PollableOp>,
    step: Step,
)
    requires
        ops.len() > 0,
        ops[0] == PollableOp::Register(data),
    ensures
        forall|manager: &mut EventManager| #[trigger]
            call_ensures(EventManager::update, (manager, handler, ops), step) ==> {
                !manager@.handlers.contains_key(data.0.spec_fd()) ==> {
                    &&& final(manager)@.fd == manager@.fd
                    &&& final(manager)@.handlers == manager@.handlers
                    &&& step matches Step::Control(request, pending)
                    &&& request.op == ControlOp::Add
                    &&& request.epfd == manager@.fd.spec_fd()
                    &&& request.fd == data.0.spec_dup_fd()
                    &&& request.event.data == data.0.spec_fd() as u64
                    &&& (request.event.events & 0x1 != 0) == (data.1.spec_bits() & 0b001 != 0)
                    &&& (request.event.events & 0x4 != 0) == (data.1.spec_bits() & 0b010 != 0)
                    &&& (request.event.events & 0x2000 != 0) == (data.1.spec_bits() & 0b100 != 0)
                    &&& request.event.events & !0x2005u32 == 0
                    &&& pending@.handler == handler
                    &&& pending@.ops == ops@
                    &&& pending@.after == AfterView::Return
                }
            },
{
    assert forall|manager: &mut EventManager| #[trigger]
        call_ensures(EventManager::update, (manager, handler, ops), step) implies {
            !manager@.handlers.contains_key(data.0.spec_fd()) ==> {
                &&& final(manager)@.fd == manager@.fd
                &&& final(manager)@.handlers == manager@.handlers
                &&& step matches Step::Control(request, pending)
                &&& request.op == ControlOp::Add
                &&& request.epfd == manager@.fd.spec_fd()
                &&& request.fd == data.0.spec_dup_fd()
                &&& request.event.data == data.0.spec_fd() as u64
                &&& (request.event.events & 0x1 != 0) == (data.1.spec_bits() & 0b001 != 0)
                &&& (request.event.events & 0x4 != 0) == (data.1.spec_bits() & 0b010 != 0)
                &&& (request.event.events & 0x2000 != 0) == (data.1.spec_bits() & 0b100 != 0)
                &&& request.event.events & !0x2005u32 == 0
                &&& pending@.handler == handler
                &&& pending@.ops == ops@
                &&& pending@.after == AfterView::Return
            }
        } by {
        if !manager@.handlers.contains_key(data.0.spec_fd()) {
            registration_asks_for_the_interest(manager@, handler, data, ops@.skip(1), AfterView::Return);
            assert(seq![PollableOp::Register(data)] + ops@.skip(1) =~= ops@);
        }
    }
}

/// To update a descriptor that is watched asks epoll to poll its duplicate,
/// under its own number, for all of the new interest and for nothing else.
pub proof fn update_asks_epoll(
    handler: HandlerId,
    data: EventRegistrationData,
    ops: Vec<PollableOp>,
    step: Step,
)
    requires
        ops.len() > 0,
        ops[0] == PollableOp::Update(data),
    ensures
        forall|manager: &mut EventManager| #[trigger]
            call_ensures(EventManager::update, (manager, handler, ops), step) ==> {
                manager@.handlers.contains_key(data.0.spec_fd()) ==> {
                    &&& final(manager)@.fd == manager@.fd
                    &&& final(manager)@.handlers == manager@.handlers
                    &&& step matches Step::Control(request, pending)
                    &&& request.op == ControlOp::Modify
                    &&& request.epfd == manager@.fd.spec_fd()
                    &&& request.fd == data.0.spec_dup_fd()
                    &&& request.event.data == data.0.spec_fd() as u64
                    &&& (request.event.events & 0x1 != 0) == (data.1.spec_bits() & 0b001 != 0)
                    &&& (request.event.events & 0x4 != 0) == (data.1.spec_bits() & 0b010 != 0)
                    &&& (request.event.events & 0x2000 != 0) == (data.1.spec_bits() & 0b100 != 0)
                    &&& request.event.events & !0x2005u32 == 0
                    &&& pending@.handler == handler
                    &&& pending@.ops == ops@
                    &&& pending@.after == AfterView::Return
                }
            },
{
    assert forall|manager: &mut EventManager| #[trigger]
        call_ensures(EventManager::update, (manager, handler, ops), step) implies {
            manager@.handlers.contains_key(data.0.spec_fd()) ==> {
                &&& final(manager)@.fd == manager@.fd
                &&& final(manager)@.handlers == manager@.handlers
                &&& step matches Step::Control(request, pending)
                &&& request.op == ControlOp::Modify
                &&& request.epfd == manager@.fd.spec_fd()
                &&& request.fd == data.0.spec_dup_fd()
                &&& request.event.data == data.0.spec_fd() as u64
                &&& (request.event.events & 0x1 != 0) == (data.1.spec_bits() & 0b001 != 0)
                &&& (request.event.events & 0x4 != 0) == (data.1.spec_bits() & 0b010 != 0)
                &&& (request.event.events & 0x2000 != 0) == (data.1.spec_bits() & 0b100 != 0)
                &&& request.event.events & !0x2005u32 == 0
                &&& pending@.handler == handler
                &&& pending@.ops == ops@
                &&& pending@.after == AfterView::Return
            }
        } by {
        if manager@.handlers.contains_key(data.0.spec_fd()) {
            update_asks_for_the_interest(manager@, handler, data, ops@.skip(1), AfterView::Return);
            assert(seq![PollableOp::Update(data)] + ops@.skip(1) =~= ops@);
        }
    }
}

/// To unregister a descriptor that is watched asks epoll to poll its duplicate
/// no longer, and the descriptor is watched no longer.
pub proof fn unregister_asks_epoll(
    handler: HandlerId,
    data: EventRegistrationData,
    ops: Vec<PollableOp>,
    step: Step,
)
    requires
        ops.len() > 0,
        ops[0] == PollableOp::Unregister(data),
    ensures
        forall|manager: &mut EventManager| #[trigger]
            call_ensures(EventManager::update, (manager, handler, ops), step) ==> {
                manager@.handlers.contains_key(data.0.spec_fd()) ==> {
                    &&& final(manager)@.fd == manager@.fd
                    &&& final(manager)@.handlers == manager@.handlers.remove(data.0.spec_fd())
                    &&& step matches Step::Control(request, pending)
                    &&& request.op == ControlOp::Delete
                    &&& request.epfd == manager@.fd.spec_fd()
                    &&& request.fd == data.0.spec_dup_fd()
                    &&& pending@.handler == handler
                    &&& pending@.ops == ops@
                    &&& pending@.after == AfterView::Return
                }
            },
{
    assert forall|manager: &mut EventManager| #[trigger]
        call_ensures(EventManager::update, (manager, handler, ops), step) implies {
            manager@.handlers.contains_key(data.0.spec_fd()) ==> {
                &&& final(manager)@.fd == manager@.fd
                &&& final(manager)@.handlers == manager@.handlers.remove(data.0.spec_fd())
                &&& step matches Step::Control(request, pending)
                &&& request.op == ControlOp::Delete
                &&& request.epfd == manager@.fd.spec_fd()
                &&& request.fd == data.0.spec_dup_fd()
                &&& pending@.handler == handler
                &&& pending@.ops == ops@
                &&& pending@.after == AfterView::Return
            }
        } by {
        if manager@.handlers.contains_key(data.0.spec_fd()) {
            unregistration_asks_for_nothing_more(manager@, handler, data, ops@.skip(1), AfterView::Return);
            assert(seq![PollableOp::Unregister(data)] + ops@.skip(1) =~= ops@);
        }
    }
}

/// A descriptor that is watched is not registered, and one that is not is
/// neither updated nor unregistered: the error comes back, and nothing changes.
pub proof fn impossible_updates_fail(
    handler: HandlerId,
    data: EventRegistrationData,
    ops: Vec<PollableOp>,
    step: Step,
)
    requires
        ops.len() > 0,
    ensures
        forall|manager: &mut EventManager| #[trigger]
            call_ensures(EventManager::update, (manager, handler, ops), step) ==> {
                let watched = manager@.handlers.contains_key(data.0.spec_fd());
                &&& ops[0] == PollableOp::Register(data) && watched ==> final(manager)@ == manager@ && step
                    == Step::Done(Err(Error::AlreadyExists))
                &&& ops[0] == PollableOp::Update(data) && !watched ==> final(manager)@ == manager@ && step
                    == Step::Done(Err(Error::PollableNotFound(data.0)))
                &&& ops[0] == PollableOp::Unregister(data) && !watched ==> final(manager)@ == manager@
                    && step == Step::Done(Err(Error::PollableNotFound(data.0)))
            },
{
    assert forall|manager: &mut EventManager| #[trigger]
        call_ensures(EventManager::update, (manager, handler, ops), step) implies {
            let watched = manager@.handlers.contains_key(data.0.spec_fd());
            &&& ops[0] == PollableOp::Register(data) && watched ==> final(manager)@ == manager@ && step
                == Step::Done(Err(Error::AlreadyExists))
            &&& ops[0] == PollableOp::Update(data) && !watched ==> final(manager)@ == manager@ && step
                == Step::Done(Err(Error::PollableNotFound(data.0)))
            &&& ops[0] == PollableOp::Unregister(data) && !watched ==> final(manager)@ == manager@
                && step == Step::Done(Err(Error::PollableNotFound(data.0)))
        } by {
        impossible_operations_are_refused(
            manager@,
            handler,
            data,
            ops@.skip(1),
            AfterView::Return,
        );
        assert(seq![ops[0]] + ops@.skip(1) =~= ops@);
    }
}

/// Once epoll has answered the last request of a run, that is over. A
/// descriptor that was registered is watched by the handler from then on if
/// epoll did what it was asked for. All else stays as it was, and a failure is
/// reported.
pub proof fn answer_of_epoll_takes_effect(
    pending: PendingControl,
    outcome: Result<(), OsError>,
    step: Step,
)
    requires
        pending@.ops.len() == 1,
        pending@.after == AfterView::Return,
    ensures
        forall|manager: &mut EventManager| #[trigger]
            call_ensures(EventManager::controlled, (manager, pending, outcome), step) ==> {
                &&& final(manager)@.fd == manager@.fd
                &&& match outcome {
                    Ok(_) => step == Step::Done(Ok(Completion::Updated)) && final(manager)@.handlers
                        == match pending@.ops[0] {
                        PollableOp::Register(data) => manager@.handlers.insert(
                            data.0.spec_fd(),
                            EventHandlerData { data, handler: pending@.handler },
                        ),
                        _ => manager@.handlers,
                    },
                    Err(error) => step == Step::Done(Err(Error::Poll(error))) && final(manager)@.handlers
                        == manager@.handlers,
                }
            },
{
    assert forall|manager: &mut EventManager| #[trigger]
        call_ensures(EventManager::controlled, (manager, pending, outcome), step) implies {
            &&& final(manager)@.fd == manager@.fd
            &&& match outcome {
                Ok(_) => step == Step::Done(Ok(Completion::Updated)) && final(manager)@.handlers
                    == match pending@.ops[0] {
                    PollableOp::Register(data) => manager@.handlers.insert(
                        data.0.spec_fd(),
                        EventHandlerData { data, handler: pending@.handler },
                    ),
                    _ => manager@.handlers,
                },
                Err(error) => step == Step::Done(Err(Error::Poll(error))) && final(manager)@.handlers
                    == manager@.handlers,
            }
        } by {
        assert(pending@.ops.skip(1) =~= Seq::empty());
    }
}

/// The operations that a new handler starts out with are carried out as any
/// others are, and a handler without any changes nothing.
pub proof fn initial_operations_are_carried_out(
    handler: HandlerId,
    pollable_ops: Option<Vec<PollableOp>>,
    step: Step,
)
    ensures
        forall|manager: &mut EventManager| #[trigger]
            call_ensures(EventManager::initialize, (manager, handler, pollable_ops), step) ==> {
                &&& pollable_ops matches Some(ops) ==> (final(manager)@, step@) == manager@.start(
                    handler,
                    ops@,
                    AfterView::Return,
                )
                &&& pollable_ops is None ==> final(manager)@ == manager@ && step == Step::Done(
                    Ok(Completion::Updated),
                )
            },
{
}

/// No operations are done at once.
pub proof fn no_operations_change_nothing(
    handler: HandlerId,
    ops: Vec<PollableOp>,
    step: Step,
)
    ensures
        forall|manager: &mut EventManager| #[trigger]
            call_ensures(EventManager::run_pollable_ops, (manager, handler, ops), step) ==> {
                &&& ops.len() == 0 ==> final(manager)@ == manager@ && step == Step::Done(
                    Ok(Completion::Updated),
                )
                &&& (final(manager)@, step@) == manager@.start(handler, ops@, AfterView::Return)
            },
{
}

/// Events are seen to as those are that a wait brings.
pub proof fn given_events_are_seen_to(
    events: Vec<Event>,
    brought: Step,
    step: Step,
)
    ensures
        forall|manager: &mut EventManager| #[trigger]
            call_ensures(EventManager::process_events, (manager, events), step) ==> {
                &&& final(manager)@ == manager@
                &&& call_ensures(EventManager::waited, (manager, Ok(events)), brought) ==> brought@ == step@
            },
{
}

/// A wait with a limit lasts exactly as long as was asked for, on the manager's
/// own epoll instance, and takes at most a hundred events.
pub proof fn run_timeout_waits_as_asked(
    milliseconds: i32,
    step: Step,
)
    ensures
        forall|manager: &mut EventManager| #[trigger]
            call_ensures(EventManager::run_timeout, (manager, milliseconds), step) ==> {
                &&& final(manager)@ == manager@
                &&& step matches Step::Wait(request)
                &&& request.timeout == milliseconds
                &&& request.epfd == manager@.fd.spec_fd()
                &&& request.max_events == 100
            },
{
}

/// A wait without a limit is one for as long as it takes.
pub proof fn run_waits_without_limit(
    step: Step,
)
    ensures
        forall|manager: &mut EventManager| #[trigger]
            call_ensures(EventManager::run, (manager,), step) ==> {
                &&& final(manager)@ == manager@
                &&& step matches Step::Wait(request)
                &&& request.timeout == -1
                &&& request.epfd == manager@.fd.spec_fd()
                &&& request.max_events == 100
            },
{
}

/// A manager that is itself watched waits for its own events for a quarter of a
/// second, whatever the source.
pub proof fn watched_manager_waits_a_little(
    source: &Pollable,
    step: Step,
)
    ensures
        forall|manager: &mut EventManager| #[trigger]
            call_ensures(EventManager::handle_read, (manager, source), step) ==> {
                &&& final(manager)@ == manager@
                &&& step matches Step::Wait(request)
                &&& request.timeout == 250
                &&& request.epfd == manager@.fd.spec_fd()
                &&& request.max_events == 100
            },
{
}

/// A wait that fails ends the run with its error. One that brings events goes on
/// with the first of them whose bits all have a name and whose number is that
/// of a descriptor that is watched: it is for the handler that watches it, with
/// the bits that were reported, and all events after it are left. If there is
/// none, the run ends with the count of the events.
pub proof fn wait_leads_to_the_first_known_event(
    outcome: Result<Vec<Event>, OsError>,
    i: int,
    step: Step,
)
    ensures
        forall|manager: &mut EventManager| #[trigger]
            call_ensures(EventManager::waited, (manager, outcome), step) ==> {
                &&& final(manager)@ == manager@
                &&& outcome matches Err(error) ==> step == Step::Done(Err(Error::Poll(error)))
                &&& outcome matches Ok(events) ==> {
                    let known = |j: int|
                        events[j].events | 0xf000_201fu32 == 0xf000_201fu32
                            && manager@.handlers.contains_key(events[j].data as i32);
                    &&& 0 <= i < events.len() && known(i) && (forall|j: int| 0 <= j < i ==> !#[trigger]
                        known(j)) ==> {
                        &&& step matches Step::Acquire(pending)
                        &&& pending@.entry == manager@.handlers[events[i].data as i32]
                        &&& pending@.events == events[i].events
                        &&& pending@.total == events.len()
                        &&& pending@.rest == events@.skip(i + 1)
                    }
                    &&& (forall|j: int| 0 <= j < events.len() ==> !#[trigger] known(j)) ==> step
                        == Step::Done(Ok(Completion::Processed(events.len())))
                }
            },
{
    assert forall|manager: &mut EventManager| #[trigger]
        call_ensures(EventManager::waited, (manager, outcome), step) implies {
            &&& final(manager)@ == manager@
            &&& outcome matches Err(error) ==> step == Step::Done(Err(Error::Poll(error)))
            &&& outcome matches Ok(events) ==> {
                let known = |j: int|
                    events[j].events | 0xf000_201fu32 == 0xf000_201fu32
                        && manager@.handlers.contains_key(events[j].data as i32);
                &&& 0 <= i < events.len() && known(i) && (forall|j: int| 0 <= j < i ==> !#[trigger]
                    known(j)) ==> {
                    &&& step matches Step::Acquire(pending)
                    &&& pending@.entry == manager@.handlers[events[i].data as i32]
                    &&& pending@.events == events[i].events
                    &&& pending@.total == events.len()
                    &&& pending@.rest == events@.skip(i + 1)
                }
                &&& (forall|j: int| 0 <= j < events.len() ==> !#[trigger] known(j)) ==> step
                    == Step::Done(Ok(Completion::Processed(events.len())))
            }
        } by {
        if let Ok(events) = outcome {
            known_events_are_dispatched(manager@, events@);
            let known = |j: int|
                events[j].events | 0xf000_201fu32 == 0xf000_201fu32
                    && manager@.handlers.contains_key(events[j].data as i32);
            if 0 <= i < events.len() && known(i) && (forall|j: int| 0 <= j < i ==> !#[trigger]
                known(j)) {
                assert forall|j: int| 0 <= j < i implies !manager@.dispatches(
                    #[trigger] events@[j],
                ) by {
                    assert(!known(j));
                }
                assert(manager@.dispatches(events@[i]));
                next_event_is_the_first(manager@, events.len(), events@, i);
            }
            if forall|j: int| 0 <= j < events.len() ==> !#[trigger] known(j) {
                assert forall|j: int| 0 <= j < events.len() implies !manager@.dispatches(
                    #[trigger] events@[j],
                ) by {
                    assert(!known(j));
                }
                no_event_is_left(manager@, events.len(), events@);
            }
        }
    }
}

/// An event goes to a handler if and only if all its bits have a name and its
/// number is that of a descriptor that is watched.
proof fn known_events_are_dispatched(manager: ManagerView, events: Seq<Event>)
    ensures
        forall|j: int|
            0 <= j < events.len() ==> manager.dispatches(#[trigger] events[j]) == (
            events[j].events | 0xf000_201fu32 == 0xf000_201fu32 && manager.handlers.contains_key(
                events[j].data as i32,
            )),
{
    assert forall|j: int| 0 <= j < events.len() implies manager.dispatches(#[trigger] events[j])
        == (events[j].events | 0xf000_201fu32 == 0xf000_201fu32 && manager.handlers.contains_key(
        events[j].data as i32,
    )) by {
        named_bits_are_those_of_epoll(events[j].events);
    }
}

/// The first call by which a handler is told of an event is the one for a
/// failure, if its bit is set, or else the first of reading, writing and
/// closing whose bit is set. As many calls are due as there are such bits, or
/// one if there is a failure.
pub proof fn dispatch_makes_the_first_call(
    pending: PendingHandler,
    step: Step,
)
    ensures
        forall|manager: &mut EventManager| #[trigger]
            call_ensures(EventManager::dispatch_event, (manager, pending), step) ==> {
                let failed = pending@.events & 0x8 != 0;
                let reads: int = if pending@.events & 0x1 != 0 {
                    1
                } else {
                    0
                };
                let writes: int = if pending@.events & 0x4 != 0 {
                    1
                } else {
                    0
                };
                let closes: int = if pending@.events & 0x2000 != 0 {
                    1
                } else {
                    0
                };
                &&& step is Call == (failed || reads + writes + closes > 0)
                &&& step matches Step::Call(call) ==> {
                    &&& final(manager)@ == manager@
                    &&& call@.callbacks == (if failed {
                        seq![Callback::Error]
                    } else {
                        Seq::new(
                            (reads + writes + closes) as nat,
                            |k: int|
                                if k < reads {
                                    Callback::Read
                                } else if k < reads + writes {
                                    Callback::Write
                                } else {
                                    Callback::Close
                                },
                        )
                    })
                    &&& call@.entry == pending@.entry
                    &&& call@.ops.len() == 0
                    &&& call@.total == pending@.total
                    &&& call@.rest == pending@.rest
                }
            },
{
    assert forall|manager: &mut EventManager| #[trigger]
        call_ensures(EventManager::dispatch_event, (manager, pending), step) implies {
            let failed = pending@.events & 0x8 != 0;
            let reads: int = if pending@.events & 0x1 != 0 {
                1
            } else {
                0
            };
            let writes: int = if pending@.events & 0x4 != 0 {
                1
            } else {
                0
            };
            let closes: int = if pending@.events & 0x2000 != 0 {
                1
            } else {
                0
            };
            &&& step is Call == (failed || reads + writes + closes > 0)
            &&& step matches Step::Call(call) ==> {
                &&& final(manager)@ == manager@
                &&& call@.callbacks == (if failed {
                    seq![Callback::Error]
                } else {
                    Seq::new(
                        (reads + writes + closes) as nat,
                        |k: int|
                            if k < reads {
                                Callback::Read
                            } else if k < reads + writes {
                                Callback::Write
                            } else {
                                Callback::Close
                            },
                    )
                })
                &&& call@.entry == pending@.entry
                &&& call@.ops.len() == 0
                &&& call@.total == pending@.total
                &&& call@.rest == pending@.rest
            }
        } by {
        calls_by_the_bits(pending@.events);
        calls_are_those_of_the_bits(manager@, pending@, Seq::empty());
    }
}

/// The calls that the bits of an event stand for, by their places.
proof fn calls_by_the_bits(events: u32)
    ensures
        ({
            let reads: int = if events & 0x1 != 0 {
                1
            } else {
                0
            };
            let writes: int = if events & 0x4 != 0 {
                1
            } else {
                0
            };
            let closes: int = if events & 0x2000 != 0 {
                1
            } else {
                0
            };
            callbacks_for(events) == (if events & 0x8 != 0 {
                seq![Callback::Error]
            } else {
                Seq::new(
                    (reads + writes + closes) as nat,
                    |k: int|
                        if k < reads {
                            Callback::Read
                        } else if k < reads + writes {
                            Callback::Write
                        } else {
                            Callback::Close
                        },
                )
            })
        }),
{
    assert((events & 1 == 1) == (events & 1 != 0) && (events & 4 == 4) == (events & 4 != 0) && (
    events & 8 == 8) == (events & 8 != 0) && (events & 0x2000 == 0x2000) == (events & 0x2000 != 0))
        by (bit_vector);
}

/// A handler's answer is added to those before it. If there are calls left, the
/// next of them is due, on the same descriptor; if not, no call is.
pub proof fn answer_leads_to_the_next_call(
    pending: PendingCall,
    reply: Option<Vec<PollableOp>>,
    step: Step,
)
    requires
        pending@.callbacks.len() > 0,
    ensures
        forall|manager: &mut EventManager| #[trigger]
            call_ensures(EventManager::answered, (manager, pending, reply), step) ==> {
                &&& step is Call == (pending@.callbacks.len() > 1)
                &&& step matches Step::Call(call) ==> {
                    &&& final(manager)@ == manager@
                    &&& call@.callbacks == pending@.callbacks.skip(1)
                    &&& call@.entry == pending@.entry
                    &&& call@.ops == pending@.ops + (match reply {
                        Some(ops) => ops@,
                        None => Seq::empty(),
                    })
                    &&& call@.total == pending@.total
                    &&& call@.rest == pending@.rest
                }
            },
{
    assert forall|manager: &mut EventManager| #[trigger]
        call_ensures(EventManager::answered, (manager, pending, reply), step) implies {
            &&& step is Call == (pending@.callbacks.len() > 1)
            &&& step matches Step::Call(call) ==> {
                &&& final(manager)@ == manager@
                &&& call@.callbacks == pending@.callbacks.skip(1)
                &&& call@.entry == pending@.entry
                &&& call@.ops == pending@.ops + (match reply {
                    Some(ops) => ops@,
                    None => Seq::empty(),
                })
                &&& call@.total == pending@.total
                &&& call@.rest == pending@.rest
            }
        } by {
        no_control_without_operations(
            manager@,
            AfterView::Events { total: pending@.total, rest: pending@.rest },
        );
    }
}

/// When a handler has answered the last call, what it answered with is carried
/// out for it: without any operations the next event is due, and otherwise all
/// of them are, from the first on.
pub proof fn last_answer_is_carried_out(
    pending: PendingCall,
    reply: Option<Vec<PollableOp>>,
    step: Step,
)
    requires
        pending@.callbacks.len() == 1,
    ensures
        forall|manager: &mut EventManager| #[trigger]
            call_ensures(EventManager::answered, (manager, pending, reply), step) ==> {
                let ops = pending@.ops + (match reply {
                    Some(more) => more@,
                    None => Seq::empty(),
                });
                &&& ops.len() == 0 ==> final(manager)@ == manager@ && step@ == manager@.next_event(
                    pending@.total,
                    pending@.rest,
                )
                &&& step matches Step::Control(_, batch) ==> {
                    &&& ops.len() > 0
                    &&& batch@.ops == ops
                    &&& batch@.handler == pending@.entry.handler
                    &&& batch@.after == (AfterView::Events { total: pending@.total, rest: pending@.rest })
                }
                &&& ops.len() > 0 ==> step is Control || step is Done
            },
{
    assert forall|manager: &mut EventManager| #[trigger]
        call_ensures(EventManager::answered, (manager, pending, reply), step) implies {
            let ops = pending@.ops + (match reply {
                Some(more) => more@,
                None => Seq::empty(),
            });
            &&& ops.len() == 0 ==> final(manager)@ == manager@ && step@ == manager@.next_event(
                pending@.total,
                pending@.rest,
            )
            &&& step matches Step::Control(_, batch) ==> {
                &&& ops.len() > 0
                &&& batch@.ops == ops
                &&& batch@.handler == pending@.entry.handler
                &&& batch@.after == (AfterView::Events { total: pending@.total, rest: pending@.rest })
            }
            &&& ops.len() > 0 ==> step is Control || step is Done
        } by {
        no_control_without_operations(
            manager@,
            AfterView::Events { total: pending@.total, rest: pending@.rest },
        );
    }
}

/// An event whose handler does not exist any more is passed over.
pub proof fn missing_handler_is_passed_over(
    pending: PendingHandler,
    step: Step,
)
    ensures
        forall|manager: &mut EventManager| #[trigger]
            call_ensures(EventManager::handler_gone, (manager, pending), step) ==> {
                &&& final(manager)@ == manager@
                &&& pending@.rest.len() == 0 ==> step == Step::Done(Ok(Completion::Processed(pending@.total)))
                &&& pending@.rest.len() > 0 && pending@.rest[0].events | 0xf000_201fu32 == 0xf000_201fu32
                    && manager@.handlers.contains_key(pending@.rest[0].data as i32) ==> {
                    &&& step matches Step::Acquire(next)
                    &&& next@.entry == manager@.handlers[pending@.rest[0].data as i32]
                    &&& next@.events == pending@.rest[0].events
                    &&& next@.total == pending@.total
                    &&& next@.rest == pending@.rest.skip(1)
                }
                &&& step@ == manager@.next_event(pending@.total, pending@.rest)
            },
{
    assert forall|manager: &mut EventManager| #[trigger]
        call_ensures(EventManager::handler_gone, (manager, pending), step) implies {
            &&& final(manager)@ == manager@
            &&& pending@.rest.len() == 0 ==> step == Step::Done(Ok(Completion::Processed(pending@.total)))
            &&& pending@.rest.len() > 0 && pending@.rest[0].events | 0xf000_201fu32 == 0xf000_201fu32
                && manager@.handlers.contains_key(pending@.rest[0].data as i32) ==> {
                &&& step matches Step::Acquire(next)
                &&& next@.entry == manager@.handlers[pending@.rest[0].data as i32]
                &&& next@.events == pending@.rest[0].events
                &&& next@.total == pending@.total
                &&& next@.rest == pending@.rest.skip(1)
            }
            &&& step@ == manager@.next_event(pending@.total, pending@.rest)
        } by {
        if pending@.rest.len() > 0 {
            named_bits_are_those_of_epoll(pending@.rest[0].events);
        }
    }
}

/// A descriptor whose handler cannot be reached is watched no longer, and epoll
/// is asked to poll its duplicate no longer.
pub proof fn unreachable_handler_is_let_go(
    pending: PendingHandler,
    step: Step,
)
    ensures
        forall|manager: &mut EventManager| #[trigger]
            call_ensures(EventManager::handler_busy, (manager, pending), step) ==> {
                let source = pending@.entry.data.0;
                manager@.handlers.contains_key(source.spec_fd()) ==> {
                    &&& final(manager)@.fd == manager@.fd
                    &&& final(manager)@.handlers == manager@.handlers.remove(source.spec_fd())
                    &&& step matches Step::Control(request, batch)
                    &&& request.op == ControlOp::Delete
                    &&& request.epfd == manager@.fd.spec_fd()
                    &&& request.fd == source.spec_dup_fd()
                    &&& batch@.ops.len() == 1
                    &&& batch@.after == (AfterView::Events { total: pending@.total, rest: pending@.rest })
                }
            },
{
}

/// A manager starts out on the epoll instance that it is given, with nothing
/// watched; without an instance there is no manager.
pub proof fn new_manager_watches_nothing(
    created: Result<Pollable, OsError>,
    r: Result<EventManager, Error>,
)
    requires
        call_ensures(EventManager::new, (created,), r),
    ensures
        match created {
            Ok(fd) => r matches Ok(manager) && manager@.fd == *fd && (forall|id: i32|
                !#[trigger] manager@.handlers.contains_key(id)),
            Err(_) => r matches Err(error) && error == Error::EpollCreate,
        },
{
}

/// A manager that is to be watched asks for its own epoll instance to be
/// registered, for something to read alone.
pub proof fn manager_is_watched_for_reading(
    manager: &EventManager,
    returned: i32,
    error: OsError,
    ops: Option<Vec<PollableOp>>,
)
    requires
        call_ensures(EventManager::init, (manager, returned, error), ops),
    ensures
        ops matches Some(ops) && ops.len() == 1 && (ops[0] matches PollableOp::Register(data)
            && data.0.spec_fd() == manager@.fd.spec_fd() && data.0.spec_dup_fd() == returned
            && data.1.spec_bits() == 1),
{
}

/// A server asks for the descriptor that it listens on to be registered, for
/// something to read alone.
pub proof fn server_listens_for_connections(
    server: &ChatServer,
    returned: i32,
    error: OsError,
    ops: Option<Vec<PollableOp>>,
)
    requires
        call_ensures(ChatServer::init, (server, returned, error), ops),
    ensures
        ops matches Some(ops) && ops.len() == 1 && (ops[0] matches PollableOp::Register(data)
            && data.0.spec_fd() == server@.listener && data.0.spec_dup_fd() == returned
            && data.1.spec_bits() == 1),
{
}

/// Something to read on what the server listens on is a connection to accept;
/// on the descriptor of a client it is up to 128 bytes to read from the
/// earliest client that has it; and on any other it is nothing.
pub proof fn reading_goes_by_the_source(server: &ChatServer, source: &Pollable, action: ReadAction)
    requires
        call_ensures(ChatServer::handle_read, (server, source), action),
    ensures
        action is Accept == (source.spec_fd() == server@.listener),
        action is Receive == (source.spec_fd() != server@.listener && exists|i: int|
            0 <= i < server@.clients.len() && (#[trigger] server@.clients[i]).fd
                == source.spec_fd()),
        action matches ReadAction::Receive { client, limit } ==> limit == 128 && client
            < server@.clients.len() && server@.clients[client as int].fd == source.spec_fd()
            && (forall|j: int|
            0 <= j < client ==> (#[trigger] server@.clients[j]).fd != source.spec_fd()),
{
    if let ReadAction::Receive { client, .. } = action {
        assert(server@.clients[client as int].fd == source.spec_fd());
    }
}

/// A client whose connection was accepted comes after all others. What it was
/// greeted with is counted, as far as it was sent, and its descriptor is to be
/// registered, for something to read and for its closing. A connection that
/// failed changes nothing.
pub proof fn accepted_client_joins(
    outcome: Result<Accepted, OsError>,
    ops: Option<Vec<PollableOp>>,
)
    ensures
        forall|server: &mut ChatServer| #[trigger]
            call_ensures(ChatServer::accept_finished, (server, outcome), ops) ==> {
                &&& final(server)@.listener == server@.listener
                &&& final(server)@.rx == server@.rx
                &&& match outcome {
                    Ok(accepted) => {
                        &&& final(server)@.clients.len() == server@.clients.len() + 1
                        &&& final(server)@.clients.last() == accepted.client@
                        &&& final(server)@.clients.drop_last() == server@.clients
                        &&& accepted.greeted matches Ok(count) ==> (server@.tx + count <= u64::MAX
                            ==> final(server)@.tx == server@.tx + count)
                        &&& accepted.greeted is Err ==> final(server)@.tx == server@.tx
                        &&& ops matches Some(ops) && ops.len() == 1 && (
                        ops[0] matches PollableOp::Register(data) && data.0 == accepted.pollable
                            && data.1.spec_bits() == 5)
                    },
                    Err(_) => final(server)@ == server@ && ops is None,
                }
            },
{
    assert forall|server: &mut ChatServer| #[trigger]
        call_ensures(ChatServer::accept_finished, (server, outcome), ops) implies {
            &&& final(server)@.listener == server@.listener
            &&& final(server)@.rx == server@.rx
            &&& match outcome {
                Ok(accepted) => {
                    &&& final(server)@.clients.len() == server@.clients.len() + 1
                    &&& final(server)@.clients.last() == accepted.client@
                    &&& final(server)@.clients.drop_last() == server@.clients
                    &&& accepted.greeted matches Ok(count) ==> (server@.tx + count <= u64::MAX
                        ==> final(server)@.tx == server@.tx + count)
                    &&& accepted.greeted is Err ==> final(server)@.tx == server@.tx
                    &&& ops matches Some(ops) && ops.len() == 1 && (
                    ops[0] matches PollableOp::Register(data) && data.0 == accepted.pollable
                        && data.1.spec_bits() == 5)
                },
                Err(_) => final(server)@ == server@ && ops is None,
            }
        } by {
        assert(1u32 | 4u32 == 5u32) by (bit_vector);
        if let Ok(accepted) = outcome {
            assert(final(server)@.clients.drop_last() =~= server@.clients);
        }
    }
}

/// When a connection is closed the earliest client with its descriptor, if
/// there is one, is taken out and its descriptor is to be unregistered. All
/// others stay, in their order, and so do the counts.
pub proof fn closing_takes_a_client_out(
    source: &Pollable,
    r: Option<Departure>,
)
    ensures
        forall|server: &mut ChatServer| #[trigger]
            call_ensures(ChatServer::handle_close, (server, source), r) ==> {
                let found = exists|i: int|
                    0 <= i < server@.clients.len() && (#[trigger] server@.clients[i]).fd == source.spec_fd();
                &&& final(server)@.listener == server@.listener
                &&& final(server)@.rx == server@.rx
                &&& final(server)@.tx == server@.tx
                &&& r is Some == found
                &&& r is None ==> final(server)@.clients == server@.clients
                &&& r matches Some(departure) ==> {
                    &&& departure.client@.fd == source.spec_fd()
                    &&& departure.ops.len() == 1
                    &&& departure.ops[0] matches PollableOp::Unregister(data) && data.0 == *source
                    &&& exists|i: int|
                        0 <= i < server@.clients.len() && #[trigger] server@.clients[i] == departure.client@
                            && (forall|j: int|
                            0 <= j < i ==> (#[trigger] server@.clients[j]).fd != source.spec_fd())
                            && final(server)@.clients == server@.clients.remove(i)
                }
            },
{
    assert forall|server: &mut ChatServer| #[trigger]
        call_ensures(ChatServer::handle_close, (server, source), r) implies {
            let found = exists|i: int|
                0 <= i < server@.clients.len() && (#[trigger] server@.clients[i]).fd == source.spec_fd();
            &&& final(server)@.listener == server@.listener
            &&& final(server)@.rx == server@.rx
            &&& final(server)@.tx == server@.tx
            &&& r is Some == found
            &&& r is None ==> final(server)@.clients == server@.clients
            &&& r matches Some(departure) ==> {
                &&& departure.client@.fd == source.spec_fd()
                &&& departure.ops.len() == 1
                &&& departure.ops[0] matches PollableOp::Unregister(data) && data.0 == *source
                &&& exists|i: int|
                    0 <= i < server@.clients.len() && #[trigger] server@.clients[i] == departure.client@
                        && (forall|j: int|
                        0 <= j < i ==> (#[trigger] server@.clients[j]).fd != source.spec_fd())
                        && final(server)@.clients == server@.clients.remove(i)
            }
        } by {
        if let Some(departure) = r {
            let i = choose|i: int| #[trigger]
                is_first(server@.clients, source.spec_fd(), i) && departure.client@
                    == server@.clients[i] && final(server)@.clients == server@.clients.remove(i);
            assert(server@.clients[i].fd == source.spec_fd());
        }
    }
}

/// When a connection fails the same comes of it as when it is closed.
pub proof fn failing_takes_a_client_out(
    source: &Pollable,
    r: Option<Departure>,
)
    ensures
        forall|server: &mut ChatServer| #[trigger]
            call_ensures(ChatServer::handle_error, (server, source), r) ==> {
                let found = exists|i: int|
                    0 <= i < server@.clients.len() && (#[trigger] server@.clients[i]).fd == source.spec_fd();
                &&& final(server)@.listener == server@.listener
                &&& final(server)@.rx == server@.rx
                &&& final(server)@.tx == server@.tx
                &&& r is Some == found
                &&& r is None ==> final(server)@.clients == server@.clients
                &&& r matches Some(departure) ==> {
                    &&& departure.client@.fd == source.spec_fd()
                    &&& departure.ops.len() == 1
                    &&& departure.ops[0] matches PollableOp::Unregister(data) && data.0 == *source
                    &&& exists|i: int|
                        0 <= i < server@.clients.len() && #[trigger] server@.clients[i] == departure.client@
                            && (forall|j: int|
                            0 <= j < i ==> (#[trigger] server@.clients[j]).fd != source.spec_fd())
                            && final(server)@.clients == server@.clients.remove(i)
                }
            },
{
    assert forall|server: &mut ChatServer| #[trigger]
        call_ensures(ChatServer::handle_error, (server, source), r) implies {
            let found = exists|i: int|
                0 <= i < server@.clients.len() && (#[trigger] server@.clients[i]).fd == source.spec_fd();
            &&& final(server)@.listener == server@.listener
            &&& final(server)@.rx == server@.rx
            &&& final(server)@.tx == server@.tx
            &&& r is Some == found
            &&& r is None ==> final(server)@.clients == server@.clients
            &&& r matches Some(departure) ==> {
                &&& departure.client@.fd == source.spec_fd()
                &&& departure.ops.len() == 1
                &&& departure.ops[0] matches PollableOp::Unregister(data) && data.0 == *source
                &&& exists|i: int|
                    0 <= i < server@.clients.len() && #[trigger] server@.clients[i] == departure.client@
                        && (forall|j: int|
                        0 <= j < i ==> (#[trigger] server@.clients[j]).fd != source.spec_fd())
                        && final(server)@.clients == server@.clients.remove(i)
            }
        } by {
        if let Some(departure) = r {
            let i = choose|i: int| #[trigger]
                is_first(server@.clients, source.spec_fd(), i) && departure.client@
                    == server@.clients[i] && final(server)@.clients == server@.clients.remove(i);
            assert(server@.clients[i].fd == source.spec_fd());
        }
    }
}

/// There is room for what a client has sent if and only if neither count would
/// grow beyond 64 bits.
pub proof fn room_goes_by_the_counts(
    server: &ChatServer,
    client: usize,
    count: usize,
    text: &str,
    r: bool,
)
    requires
        client < server@.clients.len(),
        call_ensures(ChatServer::has_room, (server, client, count, text), r),
    ensures
        r == (server@.rx + count <= 0xffff_ffff_ffff_ffff && server@.tx + server@.clients.len() * (
        encode_utf8(server@.clients[client as int].addr).len() + 6 + encode_utf8(text@).len())
            <= 0xffff_ffff_ffff_ffff),
{
    message_length_in_bytes(server@.clients[client as int].addr, text@);
}

/// What is read from a client is passed on to every client, in order, unless it
/// is nothing or a count would grow beyond 64 bits. The message begins with the
/// address of the client, and ends with what was read. What was received is
/// counted once, and the message once for each client. All else stays as it
/// was.
pub proof fn what_is_read_is_passed_on(
    client: usize,
    outcome: Result<Vec<u8>, OsError>,
    r: Received,
)
    ensures
        forall|server: &mut ChatServer| #[trigger]
            call_ensures(ChatServer::read_finished, (server, client, outcome), r) ==> {
                &&& final(server)@.clients == server@.clients
                &&& final(server)@.listener == server@.listener
                &&& outcome is Err ==> r is Nothing
                &&& !(r is Message) ==> final(server)@ == server@
                &&& outcome matches Ok(data) ==> {
                    let addr = server@.clients[client as int].addr;
                    let text = lossy_text(data@);
                    let length = encode_utf8(addr).len() + 6 + encode_utf8(text).len();
                    let fits = server@.rx + data.len() <= 0xffff_ffff_ffff_ffff && server@.tx
                        + server@.clients.len() * length <= 0xffff_ffff_ffff_ffff;
                    &&& r is Nothing == (data.len() == 0)
                    &&& r is Message == (data.len() > 0 && fits)
                    &&& r is Overflow == (data.len() > 0 && !fits)
                    &&& r matches Received::Message(broadcast) ==> {
                        &&& final(server)@.rx == server@.rx + data.len()
                        &&& final(server)@.tx == server@.tx + server@.clients.len() * length
                        &&& broadcast.recipients.len() == server@.clients.len()
                        &&& forall|i: int|
                            0 <= i < server@.clients.len() ==> #[trigger] broadcast.recipients[i]
                                == server@.clients[i].fd
                        &&& broadcast.message@ == addr + seq![' ', 's', 'a', 'i', 'd', ' '] + text
                        &&& valid_utf8(data@) ==> text == decode_utf8(data@)
                    }
                }
            },
{
    assert forall|server: &mut ChatServer| #[trigger]
        call_ensures(ChatServer::read_finished, (server, client, outcome), r) implies {
            &&& final(server)@.clients == server@.clients
            &&& final(server)@.listener == server@.listener
            &&& outcome is Err ==> r is Nothing
            &&& !(r is Message) ==> final(server)@ == server@
            &&& outcome matches Ok(data) ==> {
                let addr = server@.clients[client as int].addr;
                let text = lossy_text(data@);
                let length = encode_utf8(addr).len() + 6 + encode_utf8(text).len();
                let fits = server@.rx + data.len() <= 0xffff_ffff_ffff_ffff && server@.tx
                    + server@.clients.len() * length <= 0xffff_ffff_ffff_ffff;
                &&& r is Nothing == (data.len() == 0)
                &&& r is Message == (data.len() > 0 && fits)
                &&& r is Overflow == (data.len() > 0 && !fits)
                &&& r matches Received::Message(broadcast) ==> {
                    &&& final(server)@.rx == server@.rx + data.len()
                    &&& final(server)@.tx == server@.tx + server@.clients.len() * length
                    &&& broadcast.recipients.len() == server@.clients.len()
                    &&& forall|i: int|
                        0 <= i < server@.clients.len() ==> #[trigger] broadcast.recipients[i]
                            == server@.clients[i].fd
                    &&& broadcast.message@ == addr + seq![' ', 's', 'a', 'i', 'd', ' '] + text
                    &&& valid_utf8(data@) ==> text == decode_utf8(data@)
                }
            }
        } by {
        if let Ok(data) = outcome {
            let addr = server@.clients[client as int].addr;
            let text = lossy_text(data@);
            message_length_in_bytes(addr, text);
            message_is_put_together(addr, text);
            reveal_strlit(" said ");
            assert(said(addr, text) =~= addr + seq![' ', 's', 'a', 'i', 'd', ' '] + text);
        }
    }
}

/// Text that is passed on goes to every client, in order, and is counted once
/// for each.
pub proof fn what_is_relayed_is_counted(
    client: usize,
    count: usize,
    text: &str,
    broadcast: Broadcast,
)
    ensures
        forall|server: &mut ChatServer| #[trigger]
            call_ensures(ChatServer::relay, (server, client, count, text), broadcast) ==> {
                let addr = server@.clients[client as int].addr;
                let length = encode_utf8(addr).len() + 6 + encode_utf8(text@).len();
                &&& final(server)@.clients == server@.clients
                &&& final(server)@.listener == server@.listener
                &&& server@.rx + count <= 0xffff_ffff_ffff_ffff && server@.tx + server@.clients.len() * length
                    <= 0xffff_ffff_ffff_ffff ==> {
                    &&& final(server)@.rx == server@.rx + count
                    &&& final(server)@.tx == server@.tx + server@.clients.len() * length
                }
                &&& broadcast.recipients.len() == server@.clients.len()
                &&& forall|i: int|
                    0 <= i < server@.clients.len() ==> #[trigger] broadcast.recipients[i]
                        == server@.clients[i].fd
                &&& broadcast.message@ == addr + seq![' ', 's', 'a', 'i', 'd', ' '] + text@
            },
{
    assert forall|server: &mut ChatServer| #[trigger]
        call_ensures(ChatServer::relay, (server, client, count, text), broadcast) implies {
            let addr = server@.clients[client as int].addr;
            let length = encode_utf8(addr).len() + 6 + encode_utf8(text@).len();
            &&& final(server)@.clients == server@.clients
            &&& final(server)@.listener == server@.listener
            &&& server@.rx + count <= 0xffff_ffff_ffff_ffff && server@.tx + server@.clients.len() * length
                <= 0xffff_ffff_ffff_ffff ==> {
                &&& final(server)@.rx == server@.rx + count
                &&& final(server)@.tx == server@.tx + server@.clients.len() * length
            }
            &&& broadcast.recipients.len() == server@.clients.len()
            &&& forall|i: int|
                0 <= i < server@.clients.len() ==> #[trigger] broadcast.recipients[i]
                    == server@.clients[i].fd
            &&& broadcast.message@ == addr + seq![' ', 's', 'a', 'i', 'd', ' '] + text@
        } by {
        let addr = server@.clients[client as int].addr;
        message_length_in_bytes(addr, text@);
        reveal_strlit(" said ");
        assert(said(addr, text@) =~= addr + seq![' ', 's', 'a', 'i', 'd', ' '] + text@);
    }
}

/// A server starts out without clients, and with nothing received or sent.
pub proof fn new_server_is_empty(listener: i32, server: ChatServer)
    requires
        call_ensures(ChatServer::new, (listener,), server),
    ensures
        server@.clients.len() == 0,
        server@.listener == listener,
        server@.rx == 0,
        server@.tx == 0,
{
}

/// The calls that an event leads to are those of its bits: a failure alone, or
/// else reading, writing and closing, in this order.
pub proof fn callbacks_go_by_the_bits(events: u32, r: Vec<Callback>)
    requires
        call_ensures(callbacks, (events,), r),
    ensures
        ({
            let failed = events & 0x8 != 0;
            let reads: int = if events & 0x1 != 0 {
                1
            } else {
                0
            };
            let writes: int = if events & 0x4 != 0 {
                1
            } else {
                0
            };
            let closes: int = if events & 0x2000 != 0 {
                1
            } else {
                0
            };
            &&& failed ==> r@ == seq![Callback::Error]
            &&& !failed ==> {
                &&& r.len() == reads + writes + closes
                &&& reads > 0 ==> r[0] == Callback::Read
                &&& writes > 0 ==> r[reads] == Callback::Write
                &&& closes > 0 ==> r[reads + writes] == Callback::Close
            }
        }),
{
    calls_by_the_bits(events);
}

/// Epoll is asked for input, output and the other side's closing if and only
/// if the event type has the bit for reading, writing and closing, and for
/// nothing else.
pub proof fn mask_goes_by_the_event_type(event_type: EventType, mask: u32)
    requires
        call_ensures(EventManager::event_type_to_epoll_mask, (event_type,), mask),
    ensures
        (mask & 0x1 != 0) == (event_type.spec_bits() & 0b001 != 0),
        (mask & 0x4 != 0) == (event_type.spec_bits() & 0b010 != 0),
        (mask & 0x2000 != 0) == (event_type.spec_bits() & 0b100 != 0),
        mask & !0x2005u32 == 0,
{
    mask_is_the_interest(event_type);
}

/// A descriptor is known by its own number and polled by the duplicate that the
/// system gave. If that is negative there is none, and the error comes back.
pub proof fn descriptors_keep_their_duplicates(
    rawfd: i32,
    returned: i32,
    error: OsError,
    r: Result<Pollable, OsError>,
)
    requires
        call_ensures(OwnedFD::from, (rawfd, returned, error), r) || call_ensures(
            OwnedFD::from_unowned,
            (rawfd, returned, error),
            r,
        ),
    ensures
        r is Err == (returned < 0),
        r matches Err(e) ==> e == error,
        r matches Ok(pollable) ==> pollable.spec_fd() == rawfd && pollable.spec_dup_fd()
            == returned,
{
}

} // verus!
