//! What passes between an event manager and whoever makes its system calls,
//! and how a manager goes from one such exchange to the next.
use crate::event_manager::{Error, EventHandlerData, HandlerId};
use crate::pollable::{EventType, OsError, OwnedFD, Pollable, PollableOp};
use crate::readiness::{all_named, err_bit, has_flags, in_bit, out_bit, rdhup_bit};
use vstd::prelude::*;

verus! {

/// What epoll is told to report on a descriptor, or reports: the bits of its
/// readiness, and the number that goes with it.
#[derive(Clone, Copy, Debug, PartialEq, Eq, Structural)]
pub struct Event {
    pub events: u32,
    pub data: u64,
}

/// What is to be done with a descriptor that epoll polls or is to poll.
#[derive(Clone, Copy, Debug, PartialEq, Eq, Structural)]
pub enum ControlOp {
    Add,
    Modify,
    Delete,
}

/// A change of what the epoll instance `epfd` polls.
#[derive(Clone, Copy, Debug, PartialEq, Eq, Structural)]
pub struct ControlRequest {
    pub epfd: i32,
    pub op: ControlOp,
    pub fd: i32,
    pub event: Event,
}

/// A wait for at most `max_events` events of the epoll instance `epfd`, for at
/// most `timeout` milliseconds, or for as long as it takes if that is negative.
#[derive(Clone, Copy, Debug, PartialEq, Eq, Structural)]
pub struct WaitRequest {
    pub epfd: i32,
    pub timeout: i32,
    pub max_events: usize,
}

/// What has been done.
#[derive(Clone, Copy, Debug, PartialEq, Eq, Structural)]
pub enum Completion {
    /// All operations have been carried out.
    Updated,
    /// This many events have been seen to.
    Processed(usize),
}

/// The calls by which a handler is told of an event.
#[derive(Clone, Copy, Debug, PartialEq, Eq, Structural)]
pub enum Callback {
    Read,
    Write,
    Close,
    Error,
}

/// The calls that an event with these bits leads to, in order. If an error
/// occurs on a descriptor then only that is told, and the other bits are
/// ignored.
pub open spec fn callbacks_for(events: u32) -> Seq<Callback> {
    if has_flags(events, err_bit()) {
        seq![Callback::Error]
    } else {
        (if has_flags(events, in_bit()) {
            seq![Callback::Read]
        } else {
            Seq::<Callback>::empty()
        }) + (if has_flags(events, out_bit()) {
            seq![Callback::Write]
        } else {
            Seq::<Callback>::empty()
        }) + (if has_flags(events, rdhup_bit()) {
            seq![Callback::Close]
        } else {
            Seq::<Callback>::empty()
        })
    }
}

/// The bits by which epoll is asked for what an event type asks for.
pub open spec fn epoll_mask(event_type: EventType) -> u32 {
    (if event_type.asks_read() {
        in_bit()
    } else {
        0u32
    }) | (if event_type.asks_write() {
        out_bit()
    } else {
        0u32
    }) | (if event_type.asks_close() {
        rdhup_bit()
    } else {
        0u32
    })
}

/// The number that epoll is given with a descriptor.
pub open spec fn event_data(fd: i32) -> u64 {
    fd as u64
}

/// The descriptor that a number reported by epoll stands for.
pub open spec fn event_source(data: u64) -> i32 {
    data as i32
}

/// What is left to do when a run of operations is over.
#[verifier::ext_equal]
pub enum AfterView {
    /// Nothing.
    Return,
    /// To see to the events in `rest`, the last of `total` events.
    Events { total: usize, rest: Seq<Event> },
}

/// A run of operations for a handler that is under way: epoll has been asked
/// for what the first operation in `ops` needs.
#[verifier::ext_equal]
pub struct BatchView {
    pub handler: HandlerId,
    pub ops: Seq<PollableOp>,
    pub after: AfterView,
}

/// An event that is to go to the handler in `entry`, with the bits that were
/// reported, and the events that come after it.
#[verifier::ext_equal]
pub struct DispatchView {
    pub entry: EventHandlerData,
    pub events: u32,
    pub total: usize,
    pub rest: Seq<Event>,
}

/// An event that the handler in `entry` is being told of: the calls that are
/// still due, the operations that it has answered with so far, and the events
/// that come after it.
#[verifier::ext_equal]
pub struct CallView {
    pub entry: EventHandlerData,
    pub callbacks: Seq<Callback>,
    pub ops: Seq<PollableOp>,
    pub total: usize,
    pub rest: Seq<Event>,
}

/// What a manager needs, or has come to.
#[verifier::ext_equal]
pub enum StepView {
    Control(ControlRequest, BatchView),
    Wait(WaitRequest),
    Acquire(DispatchView),
    Call(CallView),
    Done(Result<Completion, Error>),
}

/// A manager: its epoll instance, and who watches what.
#[verifier::ext_equal]
pub struct ManagerView {
    pub fd: OwnedFD,
    pub handlers: Map<i32, EventHandlerData>,
}

impl ManagerView {
    /// Every entry is kept under the number of its own descriptor.
    pub open spec fn keyed(self) -> bool {
        forall|id: i32| #[trigger]
            self.handlers.contains_key(id) ==> self.handlers[id].data.0.spec_fd() == id
    }

    /// Whether a descriptor is being watched.
    pub open spec fn watches(self, pollable: Pollable) -> bool {
        self.handlers.contains_key(pollable.spec_fd())
    }

    /// A change of what the manager's epoll instance polls. It names the
    /// duplicate of a descriptor.
    pub open spec fn control(self, op: ControlOp, pollable: Pollable, event: Event) -> ControlRequest {
        ControlRequest { epfd: self.fd.spec_fd(), op, fd: pollable.spec_dup_fd(), event }
    }

    /// A wait for the manager's own events.
    pub open spec fn wait(self, timeout: i32) -> WaitRequest {
        WaitRequest {
            epfd: self.fd.spec_fd(),
            timeout,
            max_events: crate::event_manager::EVENT_BUFFER_SIZE,
        }
    }

    /// What epoll is asked for so that a descriptor can be watched: to report
    /// on its duplicate, under the number of the descriptor itself.
    pub open spec fn register_request(self, pollable: Pollable, event_type: EventType) -> Result<
        ControlRequest,
        Error,
    > {
        if self.watches(pollable) {
            Err(Error::AlreadyExists)
        } else {
            Ok(
                self.control(
                    ControlOp::Add,
                    pollable,
                    Event {
                        events: epoll_mask(event_type),
                        data: event_data(pollable.spec_fd()),
                    },
                ),
            )
        }
    }

    /// What epoll is asked for so that a descriptor is watched for something
    /// else.
    pub open spec fn update_request(self, pollable: Pollable, event_type: EventType) -> Result<
        ControlRequest,
        Error,
    > {
        if self.watches(pollable) {
            Ok(
                self.control(
                    ControlOp::Modify,
                    pollable,
                    Event {
                        events: epoll_mask(event_type),
                        data: event_data(pollable.spec_fd()),
                    },
                ),
            )
        } else {
            Err(Error::PollableNotFound(pollable))
        }
    }

    /// What epoll is asked for so that a descriptor is watched no longer.
    pub open spec fn unregister_request(self, pollable: Pollable) -> Result<ControlRequest, Error> {
        if self.watches(pollable) {
            Ok(self.control(ControlOp::Delete, pollable, Event { events: 0, data: 0 }))
        } else {
            Err(Error::PollableNotFound(pollable))
        }
    }

    /// What epoll is asked for to carry out an operation, or why the operation
    /// is refused.
    pub open spec fn request_for(self, op: PollableOp) -> Result<ControlRequest, Error> {
        match op {
            PollableOp::Register(data) => self.register_request(data.0, data.1),
            PollableOp::Unregister(data) => self.unregister_request(data.0),
            PollableOp::Update(data) => self.update_request(data.0, data.1),
        }
    }

    /// The manager once epoll has been asked for what an operation needs. An
    /// entry that is to go is gone by then, whatever the answer.
    pub open spec fn asked(self, op: PollableOp) -> ManagerView {
        match op {
            PollableOp::Unregister(data) => ManagerView {
                handlers: self.handlers.remove(data.0.spec_fd()),
                ..self
            },
            _ => self,
        }
    }

    /// The manager once epoll has done what an operation of a handler needs.
    pub open spec fn confirmed(self, op: PollableOp, handler: HandlerId) -> ManagerView {
        match op {
            PollableOp::Register(data) => ManagerView {
                handlers: self.handlers.insert(
                    data.0.spec_fd(),
                    EventHandlerData { data, handler },
                ),
                ..self
            },
            _ => self,
        }
    }

    /// The manager once an operation of a handler has been asked for and done.
    pub open spec fn applied(self, op: PollableOp, handler: HandlerId) -> ManagerView {
        self.asked(op).confirmed(op, handler)
    }

    /// A run of operations, up to the first request to epoll.
    pub open spec fn start(self, handler: HandlerId, ops: Seq<PollableOp>, after: AfterView) -> (
        ManagerView,
        StepView,
    ) {
        if ops.len() == 0 {
            (self, self.resume(after))
        } else {
            match self.request_for(ops[0]) {
                Ok(request) => (
                    self.asked(ops[0]),
                    StepView::Control(request, BatchView { handler, ops, after }),
                ),
                Err(error) => (self, StepView::Done(Err(error))),
            }
        }
    }

    /// A run of operations after epoll's answer: a failure ends it, and
    /// otherwise the next operation is due.
    pub open spec fn controlled(self, batch: BatchView, outcome: Result<(), OsError>) -> (
        ManagerView,
        StepView,
    ) {
        match outcome {
            Ok(_) => self.confirmed(batch.ops[0], batch.handler).start(
                batch.handler,
                batch.ops.skip(1),
                batch.after,
            ),
            Err(error) => (self, StepView::Done(Err(Error::Poll(error)))),
        }
    }

    /// What comes when a run of operations is over.
    pub open spec fn resume(self, after: AfterView) -> StepView {
        match after {
            AfterView::Return => StepView::Done(Ok(Completion::Updated)),
            AfterView::Events { total, rest } => self.next_event(total, rest),
        }
    }

    /// Whether an event goes to a handler: all its bits have a name, and its
    /// number is that of a descriptor that is being watched.
    pub open spec fn dispatches(self, event: Event) -> bool {
        all_named(event.events) && self.handlers.contains_key(event_source(event.data))
    }

    /// The first of the events in `rest` that goes to a handler; those before
    /// it are passed over.
    pub open spec fn next_event(self, total: usize, rest: Seq<Event>) -> StepView
        decreases rest.len(),
    {
        if rest.len() == 0 {
            StepView::Done(Ok(Completion::Processed(total)))
        } else if self.dispatches(rest[0]) {
            StepView::Acquire(
                DispatchView {
                    entry: self.handlers[event_source(rest[0].data)],
                    events: rest[0].events,
                    total,
                    rest: rest.skip(1),
                },
            )
        } else {
            self.next_event(total, rest.skip(1))
        }
    }

    /// An event whose handler is being told of it: the next call is due, or if
    /// all have been made, the operations that it answered with.
    pub open spec fn ask(self, call: CallView) -> (ManagerView, StepView) {
        if call.callbacks.len() > 0 {
            (self, StepView::Call(call))
        } else {
            self.start(
                call.entry.handler,
                call.ops,
                AfterView::Events { total: call.total, rest: call.rest },
            )
        }
    }

    /// An event whose handler is at hand.
    pub open spec fn acquired(self, dispatch: DispatchView) -> (ManagerView, StepView) {
        self.ask(
            CallView {
                entry: dispatch.entry,
                callbacks: callbacks_for(dispatch.events),
                ops: Seq::empty(),
                total: dispatch.total,
                rest: dispatch.rest,
            },
        )
    }

    /// An event whose handler has answered the call that was due with `ops`.
    pub open spec fn answered(self, call: CallView, ops: Seq<PollableOp>) -> (
        ManagerView,
        StepView,
    ) {
        self.ask(CallView { callbacks: call.callbacks.skip(1), ops: call.ops + ops, ..call })
    }

    /// An event whose handler does not exist any more: it is passed over.
    pub open spec fn gone(self, dispatch: DispatchView) -> StepView {
        self.next_event(dispatch.total, dispatch.rest)
    }

    /// An event whose handler cannot be reached: its descriptor is watched no
    /// longer.
    pub open spec fn busy(self, dispatch: DispatchView) -> (ManagerView, StepView) {
        self.start(
            dispatch.entry.handler,
            seq![PollableOp::Unregister(dispatch.entry.data)],
            AfterView::Events { total: dispatch.total, rest: dispatch.rest },
        )
    }
}

} // verus!
