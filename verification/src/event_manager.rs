//! Keeps track of which handler watches which descriptor, and hands the
//! events that epoll reports to their handlers.
//!
//! The manager makes no system call. Each of its functions runs up to the
//! point where one is due, or where a handler is, and returns a [`Step`] that
//! says what is needed; the answer goes to the function that takes that step's
//! pending part, and so on until a step says that all is done.
use crate::pollable::{
    EventRegistrationData, EventType, OsError, OwnedFD, Pollable, PollableOp,
    PollableOpBuilder, share,
};
use crate::protocol::{
    AfterView, BatchView, CallView, Callback, Completion, ControlOp, ControlRequest,
    DispatchView, Event, ManagerView, StepView, WaitRequest, callbacks_for, epoll_mask,
};
use crate::readiness::{contains, epollerr, epollin, epollout, epollrdhup, events_from_bits};
use crate::text::{push_signed_decimal, signed_decimal};
use std::collections::HashMap;
use vstd::prelude::*;
use vstd::string::*;

verus! {

/// How many events are taken from epoll at a time.
pub const EVENT_BUFFER_SIZE: usize = 100;

/// How long a manager that is itself watched waits for its own events, in
/// milliseconds.
pub const DEFAULT_EPOLL_TIMEOUT: i32 = 250;

/// Why an operation did not succeed.
#[derive(PartialEq)]
pub enum Error {
    /// There is no epoll instance to be had.
    EpollCreate,
    /// A call to epoll failed.
    Poll(OsError),
    /// The descriptor is already being watched.
    AlreadyExists,
    /// The descriptor is not being watched.
    PollableNotFound(Pollable),
}

/// The text of an error. `os_error` is how the system words the one that a
/// failed call to epoll left.
pub open spec fn error_text(error: Error, os_error: Seq<char>) -> Seq<char> {
    match error {
        Error::EpollCreate => "Unable to create epoll fd."@,
        Error::Poll(_) => "Error during epoll call: "@ + os_error,
        Error::AlreadyExists => "A handler for the specified pollable already exists"@,
        Error::PollableNotFound(pollable) => "A handler for the specified pollable "@
            + signed_decimal(pollable.spec_fd() as int) + " was not found"@,
    }
}

impl Error {
    /// The text of the error, given how the system words the one that a failed
    /// call to epoll left.
    pub fn text(&self, os_error: &str) -> (text: String)
        ensures
            text@ == error_text(*self, os_error@),
    {
        let mut text = String::new();
        match self {
            Error::EpollCreate => {
                text.append("Unable to create epoll fd.");
            },
            Error::Poll(_) => {
                text.append("Error during epoll call: ");
                text.append(os_error);
            },
            Error::AlreadyExists => {
                text.append("A handler for the specified pollable already exists");
            },
            Error::PollableNotFound(pollable) => {
                text.append("A handler for the specified pollable ");
                push_signed_decimal(&mut text, pollable.as_raw_fd());
                text.append(" was not found");
            },
        }
        assert(text@ =~= error_text(*self, os_error@));
        text
    }
}

/// Stands for a handler, which the caller finds by it.
#[derive(Clone, Copy, Debug, PartialEq, Eq, Hash, Structural)]
pub struct HandlerId {
    pub id: u64,
}

/// What watches a descriptor.
///
/// A handler is told of an event by one call for each kind of readiness, and
/// answers with the operations that it wants carried out.
pub trait EventHandler {
    /// The descriptor has something to read.
    fn handle_read(&mut self, _source: Pollable) -> (ops: Option<Vec<PollableOp>>)
        default_ensures
            ops is None,
    {
        None
    }

    /// The descriptor can be written to.
    fn handle_write(&mut self, _source: Pollable) -> (ops: Option<Vec<PollableOp>>)
        default_ensures
            ops is None,
    {
        None
    }

    /// The other side has closed.
    fn handle_close(&mut self, _source: Pollable) -> (ops: Option<Vec<PollableOp>>)
        default_ensures
            ops is None,
    {
        None
    }

    /// The descriptor has failed.
    fn handle_error(&mut self, _source: Pollable) -> (ops: Option<Vec<PollableOp>>)
        default_ensures
            ops is None,
    {
        None
    }

    /// Initial registration of pollable objects.
    fn init(&self) -> (ops: Option<Vec<PollableOp>>);
}

/// The operations in an answer.
pub open spec fn ops_in(reply: Option<Vec<PollableOp>>) -> Seq<PollableOp> {
    match reply {
        Some(ops) => ops@,
        None => Seq::empty(),
    }
}

/// The calls that an event with these bits leads to, in order.
pub fn callbacks(events: u32) -> (r: Vec<Callback>)
    ensures
        r@ == callbacks_for(events),
{
    let mut r: Vec<Callback> = Vec::new();
    if contains(events, epollerr()) {
        r.push(Callback::Error);
    } else {
        if contains(events, epollin()) {
            r.push(Callback::Read);
        }
        if contains(events, epollout()) {
            r.push(Callback::Write);
        }
        if contains(events, epollrdhup()) {
            r.push(Callback::Close);
        }
    }
    assert(r@ =~= callbacks_for(events));
    r
}

/// What is known of a descriptor that is being watched.
#[derive(PartialEq)]
pub struct EventHandlerData {
    pub data: EventRegistrationData,
    pub handler: HandlerId,
}

impl EventHandlerData {
    pub fn new(data: EventRegistrationData, handler: HandlerId) -> (r: EventHandlerData)
        ensures
            r.data == data,
            r.handler == handler,
    {
        EventHandlerData { data, handler }
    }
}

/// The descriptors that are being watched, each by its number.
pub struct HandlerMap {
    handlers: HashMap<i32, EventHandlerData>,
}

impl View for HandlerMap {
    type V = Map<i32, EventHandlerData>;

    closed spec fn view(&self) -> Map<i32, EventHandlerData> {
        self.handlers@
    }
}

impl HandlerMap {
    pub fn new() -> (r: HandlerMap)
        ensures
            r@ == Map::<i32, EventHandlerData>::empty(),
    {
        HandlerMap { handlers: HashMap::new() }
    }

    /// Puts an entry in, in place of the one with the same number if there is
    /// one.
    pub fn insert(&mut self, id: i32, handler_data: EventHandlerData)
        ensures
            final(self)@ == old(self)@.insert(id, handler_data),
    {
        self.handlers.insert(id, handler_data);
    }

    /// Takes an entry out.
    pub fn remove(&mut self, id: &i32) -> (r: Option<EventHandlerData>)
        ensures
            final(self)@ == old(self)@.remove(*id),
            r == (if old(self)@.contains_key(*id) {
                Some(old(self)@[*id])
            } else {
                None
            }),
    {
        let removed = self.handlers.remove(id);
        assert(self.handlers@ =~= old(self).handlers@.remove(*id));
        removed
    }

    /// A copy of an entry.
    pub fn get(&mut self, id: &i32) -> (r: Option<EventHandlerData>)
        ensures
            final(self)@ == old(self)@,
            r == (if old(self)@.contains_key(*id) {
                Some(old(self)@[*id])
            } else {
                None
            }),
    {
        match self.handlers.get(id) {
            Some(entry) => Some(
                EventHandlerData::new((share(&entry.data.0), entry.data.1), entry.handler),
            ),
            None => None,
        }
    }
}

impl std::ops::Deref for HandlerMap {
    type Target = HashMap<i32, EventHandlerData>;

    fn deref(&self) -> (r: &HashMap<i32, EventHandlerData>)
        ensures
            r@ == self@,
    {
        &self.handlers
    }
}

/// The events that a wait brought, and how many of them have been looked at.
struct EventCursor {
    events: Vec<Event>,
    next: usize,
}

impl EventCursor {
    #[verifier::type_invariant]
    spec fn in_range(self) -> bool {
        self.next <= self.events.len()
    }

    spec fn rest(self) -> Seq<Event> {
        self.events@.skip(self.next as int)
    }
}

/// What is left to do when a run of operations is over.
enum After {
    Return,
    Events(EventCursor),
}

impl After {
    closed spec fn view(self) -> AfterView {
        match self {
            After::Return => AfterView::Return,
            After::Events(cursor) => AfterView::Events {
                total: cursor.events.len(),
                rest: cursor.rest(),
            },
        }
    }
}

/// A run of operations that waits for epoll's answer.
pub struct PendingControl {
    handler: HandlerId,
    ops: Vec<PollableOp>,
    next: usize,
    after: After,
}

impl PendingControl {
    #[verifier::type_invariant]
    spec fn in_range(self) -> bool {
        self.next < self.ops.len()
    }

    pub closed spec fn view(&self) -> BatchView {
        BatchView {
            handler: self.handler,
            ops: self.ops@.skip(self.next as int),
            after: self.after.view(),
        }
    }
}

/// An event that waits for its handler.
pub struct PendingHandler {
    entry: EventHandlerData,
    events: u32,
    cursor: EventCursor,
}

impl PendingHandler {
    pub closed spec fn view(&self) -> DispatchView {
        DispatchView {
            entry: self.entry,
            events: self.events,
            total: self.cursor.events.len(),
            rest: self.cursor.rest(),
        }
    }

    /// The descriptor that the event is on.
    pub fn source(&self) -> (source: &Pollable)
        ensures
            *source == self@.entry.data.0,
    {
        &self.entry.data.0
    }

    /// The handler that the event is for.
    pub fn handler(&self) -> (handler: HandlerId)
        ensures
            handler == self@.entry.handler,
    {
        self.entry.handler
    }
}

/// An event that waits for its handler's answer.
pub struct PendingCall {
    entry: EventHandlerData,
    callbacks: Vec<Callback>,
    next: usize,
    ops: Vec<PollableOp>,
    cursor: EventCursor,
}

impl PendingCall {
    #[verifier::type_invariant]
    spec fn in_range(self) -> bool {
        self.next < self.callbacks.len()
    }

    pub closed spec fn view(&self) -> CallView {
        CallView {
            entry: self.entry,
            callbacks: self.callbacks@.skip(self.next as int),
            ops: self.ops@,
            total: self.cursor.events.len(),
            rest: self.cursor.rest(),
        }
    }

    /// The call that is due.
    pub fn callback(&self) -> (callback: Callback)
        ensures
            self@.callbacks.len() > 0,
            callback == self@.callbacks[0],
    {
        proof {
            use_type_invariant(&*self);
        }
        self.callbacks[self.next]
    }

    /// Makes the call that is due, and returns the handler's answer.
    pub fn call<T: EventHandler>(&self, handler: &mut T) -> (reply: Option<Vec<PollableOp>>)
        ensures
            self@.callbacks.len() > 0,
            match self@.callbacks[0] {
                Callback::Read => exists|h: &mut T|
                    *h == *old(handler) && *final(h) == *final(handler)
                        && #[trigger] call_ensures(
                        T::handle_read,
                        (h, self@.entry.data.0),
                        reply,
                    ),
                Callback::Write => exists|h: &mut T|
                    *h == *old(handler) && *final(h) == *final(handler)
                        && #[trigger] call_ensures(
                        T::handle_write,
                        (h, self@.entry.data.0),
                        reply,
                    ),
                Callback::Close => exists|h: &mut T|
                    *h == *old(handler) && *final(h) == *final(handler)
                        && #[trigger] call_ensures(
                        T::handle_close,
                        (h, self@.entry.data.0),
                        reply,
                    ),
                Callback::Error => exists|h: &mut T|
                    *h == *old(handler) && *final(h) == *final(handler)
                        && #[trigger] call_ensures(
                        T::handle_error,
                        (h, self@.entry.data.0),
                        reply,
                    ),
            },
    {
        let source = share(&self.entry.data.0);
        assert(source == self@.entry.data.0);
        match self.callback() {
            Callback::Read => handler.handle_read(source),
            Callback::Write => handler.handle_write(source),
            Callback::Close => handler.handle_close(source),
            Callback::Error => handler.handle_error(source),
        }
    }
}

/// What a manager needs, or has come to.
pub enum Step {
    /// The change that is to be made of what epoll polls. The answer goes to
    /// [`EventManager::controlled`].
    Control(ControlRequest, PendingControl),
    /// The wait that is to be made. The answer goes to
    /// [`EventManager::waited`].
    Wait(WaitRequest),
    /// A handler is needed. If it is at hand, [`EventManager::dispatch_event`]
    /// is next; if there is none any more, [`EventManager::handler_gone`]; and
    /// if it cannot be reached, [`EventManager::handler_busy`].
    Acquire(PendingHandler),
    /// The handler is to be called. Its answer goes to
    /// [`EventManager::answered`].
    Call(PendingCall),
    /// Nothing is needed any more.
    Done(Result<Completion, Error>),
}

impl Step {
    pub open spec fn view(&self) -> StepView {
        match self {
            Step::Control(request, pending) => StepView::Control(*request, pending@),
            Step::Wait(request) => StepView::Wait(*request),
            Step::Acquire(pending) => StepView::Acquire(pending@),
            Step::Call(pending) => StepView::Call(pending@),
            Step::Done(result) => StepView::Done(*result),
        }
    }
}

/// Watches descriptors for handlers, by way of an epoll instance.
pub struct EventManager {
    fd: Pollable,
    handlers: HandlerMap,
}

impl View for EventManager {
    type V = ManagerView;

    closed spec fn view(&self) -> ManagerView {
        ManagerView { fd: *self.fd, handlers: self.handlers@ }
    }
}

impl EventManager {
    /// A manager that watches nothing yet. `created` is the epoll instance
    /// that was asked for, or the error that came in its place.
    pub fn new(created: Result<Pollable, OsError>) -> (r: Result<EventManager, Error>)
        ensures
            match created {
                Ok(fd) => r matches Ok(manager) && manager@ == (ManagerView {
                    fd: *fd,
                    handlers: Map::empty(),
                }),
                Err(_) => r == Err::<EventManager, Error>(Error::EpollCreate),
            },
            r matches Ok(manager) ==> manager@.keyed(),
    {
        match created {
            Ok(fd) => Ok(EventManager { fd, handlers: HandlerMap::new() }),
            Err(_) => Err(Error::EpollCreate),
        }
    }

    /// The bits by which epoll is asked for what an event type asks for.
    pub fn event_type_to_epoll_mask(event_types: EventType) -> (mask: u32)
        ensures
            mask == epoll_mask(event_types),
    {
        let mut epoll_event_mask: u32 = 0;
        if event_types.readable() {
            epoll_event_mask = epoll_event_mask | epollin();
        }
        if event_types.writeable() {
            epoll_event_mask = epoll_event_mask | epollout();
        }
        if event_types.closed() {
            epoll_event_mask = epoll_event_mask | epollrdhup();
        }
        assert(epoll_event_mask == epoll_mask(event_types)) by {
            assert(forall|x: u32| #[trigger] (0u32 | x) == x) by (bit_vector);
            assert(forall|x: u32| #[trigger] (x | 0u32) == x) by (bit_vector);
        }
        epoll_event_mask
    }

    /// What epoll is to be asked for so that a descriptor can be watched.
    fn register_handler(&mut self, event_data: &EventRegistrationData) -> (r: Result<
        ControlRequest,
        Error,
    >)
        ensures
            final(self)@ == old(self)@,
            r == old(self)@.register_request(event_data.0, event_data.1),
    {
        let pollable = &event_data.0;
        if self.handlers.get(&pollable.as_raw_fd()).is_some() {
            return Err(Error::AlreadyExists);
        }
        Ok(
            ControlRequest {
                epfd: self.fd.as_raw_fd(),
                op: ControlOp::Add,
                // Use the duplicate fd for event polling.
                fd: pollable.dup_fd(),
                event: Event {
                    events: EventManager::event_type_to_epoll_mask(event_data.1),
                    // Use the original fd for event source identification.
                    data: pollable.as_raw_fd() as u64,
                },
            },
        )
    }

    /// What epoll is to be asked for so that a descriptor is watched for
    /// something else.
    fn update_event(&mut self, event: &EventRegistrationData) -> (r: Result<ControlRequest, Error>)
        ensures
            final(self)@ == old(self)@,
            r == old(self)@.update_request(event.0, event.1),
    {
        let pollable = &event.0;
        if self.handlers.get(&pollable.as_raw_fd()).is_some() {
            Ok(
                ControlRequest {
                    epfd: self.fd.as_raw_fd(),
                    op: ControlOp::Modify,
                    fd: pollable.dup_fd(),
                    event: Event {
                        events: EventManager::event_type_to_epoll_mask(event.1),
                        data: pollable.as_raw_fd() as u64,
                    },
                },
            )
        } else {
            Err(Error::PollableNotFound(share(pollable)))
        }
    }

    /// Takes the entry of a descriptor out. What is left to ask epoll for is
    /// that it is polled no longer.
    fn unregister(&mut self, pollable: &Pollable) -> (r: Result<ControlRequest, Error>)
        ensures
            final(self)@ == (ManagerView {
                handlers: old(self)@.handlers.remove(pollable.spec_fd()),
                ..old(self)@
            }),
            r == old(self)@.unregister_request(*pollable),
    {
        match self.handlers.remove(&pollable.as_raw_fd()) {
            Some(_) => Ok(
                ControlRequest {
                    epfd: self.fd.as_raw_fd(),
                    op: ControlOp::Delete,
                    fd: pollable.dup_fd(),
                    event: Event { events: 0, data: 0 },
                },
            ),
            None => Err(Error::PollableNotFound(share(pollable))),
        }
    }

    /// Carries operations of a handler out, from `ops[next]` on, up to the
    /// first request to epoll.
    fn run_from(
        &mut self,
        handler: HandlerId,
        ops: Vec<PollableOp>,
        next: usize,
        after: After,
    ) -> (step: Step)
        requires
            next <= ops.len(),
        ensures
            (final(self)@, step@) == old(self)@.start(
                handler,
                ops@.skip(next as int),
                after.view(),
            ),
    {
        if next == ops.len() {
            return match after {
                After::Return => Step::Done(Ok(Completion::Updated)),
                After::Events(cursor) => self.next_event(cursor),
            };
        }
        let request = match &ops[next] {
            PollableOp::Register(data) => self.register_handler(data),
            PollableOp::Unregister(data) => self.unregister(&data.0),
            PollableOp::Update(data) => self.update_event(data),
        };
        match request {
            Ok(request) => Step::Control(request, PendingControl { handler, ops, next, after }),
            Err(error) => Step::Done(Err(error)),
        }
    }

    /// Looks for the next event that goes to a handler.
    fn next_event(&mut self, cursor: EventCursor) -> (step: Step)
        ensures
            final(self)@ == old(self)@,
            step@ == old(self)@.next_event(cursor.events.len(), cursor.rest()),
    {
        proof {
            use_type_invariant(&cursor);
        }
        let EventCursor { events, next: start } = cursor;
        let mut next: usize = start;
        while next < events.len()
            invariant
                next <= events.len(),
                events@ == cursor.events@,
                self@ == old(self)@,
                self@.next_event(events.len(), cursor.rest()) == self@.next_event(
                    events.len(),
                    events@.skip(next as int),
                ),
            decreases events.len() - next,
        {
            let event = events[next];
            assert(events@.skip(next as int).skip(1) =~= events@.skip(next + 1));
            next = next + 1;
            if let Some(evset) = events_from_bits(event.events) {
                if let Some(entry) = self.handlers.get(&(event.data as i32)) {
                    return Step::Acquire(
                        PendingHandler {
                            entry,
                            events: evset,
                            cursor: EventCursor { events, next },
                        },
                    );
                }
            }
        }
        Step::Done(Ok(Completion::Processed(events.len())))
    }

    /// Makes the next call to a handler, or if all have been made, carries the
    /// operations that it answered with out.
    fn ask(
        &mut self,
        entry: EventHandlerData,
        callbacks: Vec<Callback>,
        next: usize,
        ops: Vec<PollableOp>,
        cursor: EventCursor,
    ) -> (step: Step)
        requires
            next <= callbacks.len(),
        ensures
            (final(self)@, step@) == old(self)@.ask(
                CallView {
                    entry,
                    callbacks: callbacks@.skip(next as int),
                    ops: ops@,
                    total: cursor.events.len(),
                    rest: cursor.rest(),
                },
            ),
    {
        if next < callbacks.len() {
            Step::Call(PendingCall { entry, callbacks, next, ops, cursor })
        } else {
            assert(ops@.skip(0) =~= ops@);
            self.run_from(entry.handler, ops, 0, After::Events(cursor))
        }
    }

    /// Carries operations of a handler out.
    pub fn run_pollable_ops(&mut self, handler: HandlerId, pollable_ops: Vec<PollableOp>) -> (step:
        Step)
        ensures
            (final(self)@, step@) == old(self)@.start(handler, pollable_ops@, AfterView::Return),
            old(self)@.keyed() ==> final(self)@.keyed(),
    {
        assert(pollable_ops@.skip(0) =~= pollable_ops@);
        self.run_from(handler, pollable_ops, 0, After::Return)
    }

    /// Update an event handler subscription.
    pub fn update(&mut self, handler: HandlerId, pollable_ops: Vec<PollableOp>) -> (step: Step)
        ensures
            (final(self)@, step@) == old(self)@.start(handler, pollable_ops@, AfterView::Return),
            old(self)@.keyed() ==> final(self)@.keyed(),
    {
        self.run_pollable_ops(handler, pollable_ops)
    }

    /// Register a new event handler: the operations that it starts out with
    /// are carried out.
    pub fn register<T: EventHandler>(&mut self, handler: &T, id: HandlerId) -> (step: Step)
        ensures
            exists|ops: Option<Vec<PollableOp>>| #[trigger]
                call_ensures(T::init, (handler,), ops) && (final(self)@, step@)
                    == old(self)@.start(id, ops_in(ops), AfterView::Return),
            old(self)@.keyed() ==> final(self)@.keyed(),
    {
        let pollable_ops = handler.init();
        self.initialize(id, pollable_ops)
    }

    /// Carries the operations out, if any, that a new handler starts out with.
    pub fn initialize(&mut self, handler: HandlerId, pollable_ops: Option<Vec<PollableOp>>) -> (step:
        Step)
        ensures
            (final(self)@, step@) == old(self)@.start(
                handler,
                ops_in(pollable_ops),
                AfterView::Return,
            ),
            old(self)@.keyed() ==> final(self)@.keyed(),
    {
        match pollable_ops {
            Some(ops) => self.run_pollable_ops(handler, ops),
            None => Step::Done(Ok(Completion::Updated)),
        }
    }

    /// Goes on with a run of operations after epoll's answer.
    pub fn controlled(&mut self, pending: PendingControl, outcome: Result<(), OsError>) -> (step:
        Step)
        ensures
            (final(self)@, step@) == old(self)@.controlled(pending@, outcome),
            old(self)@.keyed() ==> final(self)@.keyed(),
    {
        proof {
            use_type_invariant(&pending);
        }
        let ghost before = pending.ops@.skip(pending.next as int);
        let PendingControl { handler, ops, next, after } = pending;
        assert(before.skip(1) =~= ops@.skip(next + 1));
        match outcome {
            Ok(_) => {
                if let PollableOp::Register(data) = &ops[next] {
                    let fd = data.0.as_raw_fd();
                    self.handlers.insert(
                        fd,
                        EventHandlerData::new((share(&data.0), data.1), handler),
                    );
                }
                self.run_from(handler, ops, next + 1, after)
            },
            Err(error) => Step::Done(Err(Error::Poll(error))),
        }
    }

    /// Wait for events, then dispatch to registered event handlers.
    pub fn run(&mut self) -> (step: Step)
        ensures
            final(self)@ == old(self)@,
            step@ == StepView::Wait(old(self)@.wait((-1) as i32)),
            step matches Step::Wait(request) && request.timeout == -1 && request.epfd == old(
                self,
            )@.fd.spec_fd() && request.max_events == EVENT_BUFFER_SIZE,
    {
        self.run_timeout(-1)
    }

    /// Wait for events or a timeout, then dispatch to registered event
    /// handlers.
    pub fn run_timeout(&mut self, milliseconds: i32) -> (step: Step)
        ensures
            final(self)@ == old(self)@,
            step@ == StepView::Wait(old(self)@.wait(milliseconds)),
            step matches Step::Wait(request) && request.timeout == milliseconds && request.epfd
                == old(self)@.fd.spec_fd() && request.max_events == EVENT_BUFFER_SIZE,
    {
        Step::Wait(
            WaitRequest {
                epfd: self.fd.as_raw_fd(),
                timeout: milliseconds,
                max_events: EVENT_BUFFER_SIZE,
            },
        )
    }

    /// Goes on after a wait: with the events that it brought, or with its
    /// failure.
    pub fn waited(&mut self, outcome: Result<Vec<Event>, OsError>) -> (step: Step)
        ensures
            final(self)@ == old(self)@,
            match outcome {
                Ok(events) => step@ == old(self)@.next_event(events.len(), events@),
                Err(error) => step@ == StepView::Done(Err(Error::Poll(error))),
            },
    {
        match outcome {
            Ok(events) => self.process_events(events),
            Err(error) => Step::Done(Err(Error::Poll(error))),
        }
    }

    /// Sees to events, in order.
    pub fn process_events(&mut self, events: Vec<Event>) -> (step: Step)
        ensures
            final(self)@ == old(self)@,
            step@ == old(self)@.next_event(events.len(), events@),
    {
        assert(events@.skip(0) =~= events@);
        self.next_event(EventCursor { events, next: 0 })
    }

    /// Goes on with an event whose handler is at hand.
    pub fn dispatch_event(&mut self, pending: PendingHandler) -> (step: Step)
        ensures
            (final(self)@, step@) == old(self)@.acquired(pending@),
            old(self)@.keyed() ==> final(self)@.keyed(),
    {
        let PendingHandler { entry, events, cursor } = pending;
        let calls = callbacks(events);
        assert(calls@.skip(0) =~= calls@);
        self.ask(entry, calls, 0, Vec::new(), cursor)
    }

    /// Goes on with an event whose handler has answered a call.
    pub fn answered(&mut self, pending: PendingCall, reply: Option<Vec<PollableOp>>) -> (step: Step)
        ensures
            (final(self)@, step@) == old(self)@.answered(pending@, ops_in(reply)),
            old(self)@.keyed() ==> final(self)@.keyed(),
    {
        proof {
            use_type_invariant(&pending);
        }
        let ghost due = pending.callbacks@.skip(pending.next as int);
        let PendingCall { entry, callbacks, next, ops, cursor } = pending;
        assert(due.skip(1) =~= callbacks@.skip(next + 1));
        let mut all_ops = ops;
        if let Some(more) = reply {
            let mut more = more;
            all_ops.append(&mut more);
        }
        assert(all_ops@ =~= pending@.ops + ops_in(reply));
        self.ask(entry, callbacks, next + 1, all_ops, cursor)
    }

    /// Goes on with an event whose handler does not exist any more.
    pub fn handler_gone(&mut self, pending: PendingHandler) -> (step: Step)
        ensures
            final(self)@ == old(self)@,
            step@ == old(self)@.gone(pending@),
    {
        self.next_event(pending.cursor)
    }

    /// Goes on with an event whose handler cannot be reached.
    pub fn handler_busy(&mut self, pending: PendingHandler) -> (step: Step)
        ensures
            (final(self)@, step@) == old(self)@.busy(pending@),
            old(self)@.keyed() ==> final(self)@.keyed(),
    {
        let PendingHandler { entry, events: _, cursor } = pending;
        let handler = entry.handler;
        let ops = vec![PollableOp::Unregister(entry.data)];
        assert(ops@.skip(0) =~= seq![PollableOp::Unregister(pending@.entry.data)]);
        self.run_from(handler, ops, 0, After::Events(cursor))
    }

    /// The descriptor of the manager's epoll instance.
    pub fn as_raw_fd(&self) -> (fd: i32)
        ensures
            fd == self@.fd.spec_fd(),
    {
        self.fd.as_raw_fd()
    }

    /// What a manager does that is itself watched, when there is something to
    /// read on its epoll instance: it waits a little for its own events,
    /// whatever the source. How that ends goes to
    /// [`EventManager::read_answer`].
    pub fn handle_read(&mut self, _source: &Pollable) -> (step: Step)
        ensures
            final(self)@ == old(self)@,
            step@ == StepView::Wait(old(self)@.wait(DEFAULT_EPOLL_TIMEOUT)),
            step matches Step::Wait(request) && request.timeout == DEFAULT_EPOLL_TIMEOUT
                && request.epfd == old(self)@.fd.spec_fd() && request.max_events
                == EVENT_BUFFER_SIZE,
    {
        self.run_timeout(DEFAULT_EPOLL_TIMEOUT)
    }

    /// What a manager that is itself watched answers once it has waited: no
    /// operations, however that ended.
    pub fn read_answer(result: Result<Completion, Error>) -> (ops: Option<Vec<PollableOp>>)
        ensures
            ops is None,
    {
        match result {
            Ok(_) => None,
            Err(_) => None,
        }
    }

    /// What a manager starts out with that is itself to be watched: its epoll
    /// instance, for something to read on it. `returned` is the system's
    /// answer to the request for a duplicate of that instance.
    pub fn init(&self, returned: i32, last_os_error: OsError) -> (ops: Option<Vec<PollableOp>>)
        requires
            returned >= 0,
        ensures
            ops matches Some(ops) && ops.len() == 1 && (ops[0] matches PollableOp::Register(data)
                && data.0.spec_fd() == self@.fd.spec_fd() && data.0.spec_dup_fd() == returned
                && data.1.spec_bits() == EventType::READ),
    {
        let fd = OwnedFD::from(self.fd.as_raw_fd(), returned, last_os_error).unwrap();
        assert(EventType::NONE | EventType::READ == EventType::READ) by (bit_vector);
        Some(vec![PollableOpBuilder::new(fd).readable().register()])
    }
}

} // verus!
