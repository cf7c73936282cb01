//! What holds of an event manager and of a chat server whatever they are
//! asked to do and however the system answers.
use crate::chat::{
    ClientView, ServerView, address_text, descriptors, ends_interest, greeting, has_client,
    is_first, said, stats_text,
};
use crate::event_manager::{Error, EventHandlerData, HandlerId, Step, error_text, ops_in};
use crate::pollable::{EventRegistrationData, EventType, OsError, OwnedFD, Pollable, PollableOp};
use crate::protocol::{
    AfterView, BatchView, CallView, Callback, Completion, ControlOp, ControlRequest,
    DispatchView, Event, ManagerView, StepView, callbacks_for, epoll_mask, event_data,
    event_source,
};
use crate::readiness::{all_named, err_bit, has_flags, in_bit, out_bit, rdhup_bit};
use crate::text::{decimal, signed_decimal};
use vstd::prelude::*;
use vstd::std_specs::cmp::PartialEqSpec;
use vstd::utf8::{decode_utf8, decode_utf8_encode_utf8, encode_utf8, valid_utf8};

pub mod operations;

verus! {

/// The descriptor that an operation is about.
pub open spec fn subject(op: PollableOp) -> Pollable {
    match op {
        PollableOp::Register(data) => data.0,
        PollableOp::Unregister(data) => data.0,
        PollableOp::Update(data) => data.0,
    }
}

/// An operation bears on the entry of its own descriptor alone, and never on
/// the epoll instance.
pub proof fn operations_are_independent(
    manager: ManagerView,
    op: PollableOp,
    handler: HandlerId,
    other: i32,
)
    requires
        other != subject(op).spec_fd(),
    ensures
        manager.applied(op, handler).fd == manager.fd,
        manager.applied(op, handler).handlers.contains_key(other)
            == manager.handlers.contains_key(other),
        manager.applied(op, handler).handlers[other] == manager.handlers[other],
{
}

/// A descriptor that is being watched cannot be registered again, by whatever
/// handler and for whatever interest.
pub proof fn registration_is_exclusive(
    manager: ManagerView,
    data: EventRegistrationData,
    handler: HandlerId,
    again: EventRegistrationData,
)
    requires
        again.0.spec_fd() == data.0.spec_fd(),
    ensures
        manager.applied(PollableOp::Register(data), handler).request_for(
            PollableOp::Register(again),
        ) == Err::<ControlRequest, Error>(Error::AlreadyExists),
{
}

/// After a registration the descriptor is watched by that handler for that
/// interest, and can be updated and unregistered.
pub proof fn registration_takes_effect(
    manager: ManagerView,
    data: EventRegistrationData,
    handler: HandlerId,
    interest: EventType,
)
    ensures
        ({
            let after = manager.applied(PollableOp::Register(data), handler);
            &&& after.watches(data.0)
            &&& after.handlers[data.0.spec_fd()] == (EventHandlerData { data, handler })
            &&& after.request_for(PollableOp::Update((data.0, interest))) is Ok
            &&& after.request_for(PollableOp::Unregister((data.0, interest))) is Ok
        }),
{
}

/// After it has been unregistered a descriptor is unknown: it can be neither
/// updated nor unregistered, and it can be registered again.
pub proof fn unregistration_takes_effect(
    manager: ManagerView,
    data: EventRegistrationData,
    handler: HandlerId,
    interest: EventType,
)
    ensures
        ({
            let after = manager.applied(PollableOp::Unregister(data), handler);
            &&& !after.watches(data.0)
            &&& after.request_for(PollableOp::Update((data.0, interest))) == Err::<
                ControlRequest,
                Error,
            >(Error::PollableNotFound(data.0))
            &&& after.request_for(PollableOp::Unregister((data.0, interest))) == Err::<
                ControlRequest,
                Error,
            >(Error::PollableNotFound(data.0))
            &&& after.request_for(PollableOp::Register((data.0, interest))) is Ok
        }),
{
}

/// To unregister a descriptor undoes its registration.
pub proof fn unregister_undoes_register(
    manager: ManagerView,
    data: EventRegistrationData,
    handler: HandlerId,
    interest: EventType,
)
    requires
        !manager.watches(data.0),
    ensures
        manager.applied(PollableOp::Register(data), handler).applied(
            PollableOp::Unregister((data.0, interest)),
            handler,
        ) == manager,
{
    let undone = manager.applied(PollableOp::Register(data), handler).applied(
        PollableOp::Unregister((data.0, interest)),
        handler,
    );
    assert(undone.handlers =~= manager.handlers);
}

/// An update changes what epoll polls for, and nothing else.
pub proof fn update_keeps_entries(
    manager: ManagerView,
    data: EventRegistrationData,
    handler: HandlerId,
)
    ensures
        manager.applied(PollableOp::Update(data), handler) == manager,
{
}

/// Where an operation is refused, epoll is asked for nothing and the manager
/// stays as it was.
pub proof fn refusal_changes_nothing(
    manager: ManagerView,
    handler: HandlerId,
    ops: Seq<PollableOp>,
    after: AfterView,
    error: Error,
)
    requires
        ops.len() > 0,
        manager.request_for(ops[0]) == Err::<ControlRequest, Error>(error),
    ensures
        manager.start(handler, ops, after) == (manager, StepView::Done(Err(error))),
{
}

/// Entries stay under the numbers of their own descriptors, whatever is asked
/// and however epoll answers.
pub proof fn entries_stay_keyed(
    manager: ManagerView,
    handler: HandlerId,
    ops: Seq<PollableOp>,
    after: AfterView,
    batch: BatchView,
    outcome: Result<(), OsError>,
)
    requires
        manager.keyed(),
    ensures
        manager.start(handler, ops, after).0.keyed(),
        manager.controlled(batch, outcome).0.keyed(),
{
}

impl ManagerView {
    /// The manager once several operations of a handler have been carried out,
    /// one after the other.
    pub open spec fn applied_all(self, ops: Seq<PollableOp>, handler: HandlerId) -> ManagerView
        decreases ops.len(),
    {
        if ops.len() == 0 {
            self
        } else {
            self.applied(ops[0], handler).applied_all(ops.skip(1), handler)
        }
    }

    /// Whether none of the first `n` operations is refused when its turn
    /// comes.
    pub open spec fn accepts(self, ops: Seq<PollableOp>, handler: HandlerId, n: int) -> bool {
        forall|i: int|
            0 <= i < n ==> #[trigger] self.applied_all(ops.take(i), handler).request_for(
                ops[i],
            ) is Ok
    }
}

/// Where a manager gets to when epoll answers its requests with `outcomes`, in
/// order. It stops where something other than epoll's answer is needed.
pub open spec fn drive(
    state: (ManagerView, StepView),
    outcomes: Seq<Result<(), OsError>>,
) -> (ManagerView, StepView)
    decreases outcomes.len(),
{
    if outcomes.len() == 0 {
        state
    } else {
        match state.1 {
            StepView::Control(_, batch) => drive(
                state.0.controlled(batch, outcomes[0]),
                outcomes.skip(1),
            ),
            _ => state,
        }
    }
}

/// As many answers as are favourable.
pub open spec fn successes(n: nat) -> Seq<Result<(), OsError>> {
    Seq::new(n, |i: int| Ok(()))
}

/// Operations are carried out one after the other, in order: after `n`
/// favourable answers the first `n` have taken effect, and the run goes on as
/// one of the others alone would.
pub proof fn operations_run_in_order(
    manager: ManagerView,
    handler: HandlerId,
    ops: Seq<PollableOp>,
    after: AfterView,
    n: nat,
)
    requires
        n <= ops.len(),
        manager.accepts(ops, handler, n as int),
    ensures
        drive(manager.start(handler, ops, after), successes(n)) == manager.applied_all(
            ops.take(n as int),
            handler,
        ).start(handler, ops.skip(n as int), after),
    decreases n,
{
    if n == 0 {
        assert(ops.skip(0) =~= ops);
    } else {
        let next = manager.applied(ops[0], handler);
        let rest = ops.skip(1);
        assert(ops.take(0) =~= Seq::empty());
        assert(manager.applied_all(ops.take(0), handler).request_for(ops[0]) is Ok);
        assert forall|i: int| 0 <= i < n - 1 implies #[trigger] next.applied_all(
            rest.take(i),
            handler,
        ).request_for(rest[i]) is Ok by {
            assert(ops.take(i + 1).skip(1) =~= rest.take(i));
            assert(ops.take(i + 1)[0] == ops[0]);
            assert(manager.applied_all(ops.take(i + 1), handler).request_for(ops[i + 1]) is Ok);
        }
        operations_run_in_order(next, handler, rest, after, (n - 1) as nat);
        assert(successes(n).skip(1) =~= successes((n - 1) as nat));
        assert(ops.take(n as int).skip(1) =~= rest.take(n - 1));
        assert(rest.skip(n - 1) =~= ops.skip(n as int));
    }
}

/// When no operation is refused and epoll does all it is asked for, all
/// operations take effect.
pub proof fn accepted_operations_all_take_effect(
    manager: ManagerView,
    handler: HandlerId,
    ops: Seq<PollableOp>,
)
    requires
        manager.accepts(ops, handler, ops.len() as int),
    ensures
        drive(manager.start(handler, ops, AfterView::Return), successes(ops.len())) == (
            manager.applied_all(ops, handler),
            StepView::Done(Ok(Completion::Updated)),
        ),
{
    operations_run_in_order(manager, handler, ops, AfterView::Return, ops.len());
    assert(ops.take(ops.len() as int) =~= ops);
}

/// The first operation that is refused ends the run. Those before it have
/// taken effect, and neither it nor those after it have.
pub proof fn first_refusal_ends_the_run(
    manager: ManagerView,
    handler: HandlerId,
    ops: Seq<PollableOp>,
    after: AfterView,
    n: nat,
    error: Error,
)
    requires
        n < ops.len(),
        manager.accepts(ops, handler, n as int),
        manager.applied_all(ops.take(n as int), handler).request_for(ops[n as int]) == Err::<
            ControlRequest,
            Error,
        >(error),
    ensures
        drive(manager.start(handler, ops, after), successes(n)) == (
            manager.applied_all(ops.take(n as int), handler),
            StepView::Done(Err(error)),
        ),
{
    operations_run_in_order(manager, handler, ops, after, n);
    assert(ops.skip(n as int)[0] == ops[n as int]);
}

/// The first failure of epoll ends the run. The operations before it have
/// taken effect; of the one that failed only this much has, that an entry
/// which was to go is gone; those after it have not.
pub proof fn first_failure_ends_the_run(
    manager: ManagerView,
    handler: HandlerId,
    ops: Seq<PollableOp>,
    after: AfterView,
    n: nat,
    error: OsError,
)
    requires
        n < ops.len(),
        manager.accepts(ops, handler, n as int + 1),
    ensures
        drive(manager.start(handler, ops, after), successes(n).push(Err(error))) == (
            manager.applied_all(ops.take(n as int), handler).asked(ops[n as int]),
            StepView::Done(Err(Error::Poll(error))),
        ),
{
    let start = manager.start(handler, ops, after);
    let middle = manager.applied_all(ops.take(n as int), handler);
    operations_run_in_order(manager, handler, ops, after, n);
    drive_splits(start, successes(n), seq![Err(error)]);
    assert(successes(n) + seq![Err(error)] =~= successes(n).push(Err(error)));
    assert(middle.request_for(ops[n as int]) is Ok);
    assert(ops.skip(n as int)[0] == ops[n as int]);
    let failed = drive(start, successes(n));
    assert(failed == middle.start(handler, ops.skip(n as int), after));
    assert(drive(failed, seq![Err(error)]) == (
        middle.asked(ops[n as int]),
        StepView::Done(Err(Error::Poll(error))),
    )) by {
        reveal_with_fuel(drive, 2);
    }
}

/// Answers can be given in two goes.
proof fn drive_splits(
    state: (ManagerView, StepView),
    first: Seq<Result<(), OsError>>,
    second: Seq<Result<(), OsError>>,
)
    ensures
        drive(state, first + second) == drive(drive(state, first), second),
    decreases first.len(),
{
    if first.len() == 0 {
        assert(first + second =~= second);
    } else {
        match state.1 {
            StepView::Control(_, batch) => {
                drive_splits(state.0.controlled(batch, first[0]), first.skip(1), second);
                assert((first + second).skip(1) =~= first.skip(1) + second);
            },
            _ => {},
        }
    }
}

/// A descriptor that is not watched can be registered. Epoll is then asked to
/// poll its duplicate, under its own number, for all of the interest and for
/// nothing else; nothing is watched that was not before epoll has answered.
pub proof fn registration_asks_for_the_interest(
    manager: ManagerView,
    handler: HandlerId,
    data: EventRegistrationData,
    rest: Seq<PollableOp>,
    after: AfterView,
)
    requires
        !manager.handlers.contains_key(data.0.spec_fd()),
    ensures
        ({
            let ops = seq![PollableOp::Register(data)] + rest;
            let (asked, step) = manager.start(handler, ops, after);
            &&& asked.fd == manager.fd
            &&& asked.handlers == manager.handlers
            &&& step matches StepView::Control(request, batch) && {
                &&& request.op == ControlOp::Add
                &&& request.epfd == manager.fd.spec_fd()
                &&& request.fd == data.0.spec_dup_fd()
                &&& request.event.data == data.0.spec_fd() as u64
                &&& (request.event.events & 0x1 != 0) == (data.1.spec_bits() & 0b001 != 0)
                &&& (request.event.events & 0x4 != 0) == (data.1.spec_bits() & 0b010 != 0)
                &&& (request.event.events & 0x2000 != 0) == (data.1.spec_bits() & 0b100 != 0)
                &&& request.event.events & !0x2005u32 == 0
                &&& batch.handler == handler
                &&& batch.ops == ops
                &&& batch.after == after
            }
        }),
{
    mask_is_the_interest(data.1);
}

/// A descriptor that is watched can be updated. Epoll is then asked to poll its
/// duplicate, under its own number, for all of the new interest and for nothing
/// else.
pub proof fn update_asks_for_the_interest(
    manager: ManagerView,
    handler: HandlerId,
    data: EventRegistrationData,
    rest: Seq<PollableOp>,
    after: AfterView,
)
    requires
        manager.handlers.contains_key(data.0.spec_fd()),
    ensures
        ({
            let ops = seq![PollableOp::Update(data)] + rest;
            let (asked, step) = manager.start(handler, ops, after);
            &&& asked.fd == manager.fd
            &&& asked.handlers == manager.handlers
            &&& step matches StepView::Control(request, batch) && {
                &&& request.op == ControlOp::Modify
                &&& request.epfd == manager.fd.spec_fd()
                &&& request.fd == data.0.spec_dup_fd()
                &&& request.event.data == data.0.spec_fd() as u64
                &&& (request.event.events & 0x1 != 0) == (data.1.spec_bits() & 0b001 != 0)
                &&& (request.event.events & 0x4 != 0) == (data.1.spec_bits() & 0b010 != 0)
                &&& (request.event.events & 0x2000 != 0) == (data.1.spec_bits() & 0b100 != 0)
                &&& request.event.events & !0x2005u32 == 0
                &&& batch.handler == handler
                &&& batch.ops == ops
                &&& batch.after == after
            }
        }),
{
    mask_is_the_interest(data.1);
}

/// A descriptor that is watched can be unregistered. It is watched no longer
/// once epoll has been asked to poll its duplicate no longer.
pub proof fn unregistration_asks_for_nothing_more(
    manager: ManagerView,
    handler: HandlerId,
    data: EventRegistrationData,
    rest: Seq<PollableOp>,
    after: AfterView,
)
    requires
        manager.handlers.contains_key(data.0.spec_fd()),
    ensures
        ({
            let ops = seq![PollableOp::Unregister(data)] + rest;
            let (asked, step) = manager.start(handler, ops, after);
            &&& asked.fd == manager.fd
            &&& asked.handlers == manager.handlers.remove(data.0.spec_fd())
            &&& step matches StepView::Control(request, batch) && {
                &&& request.op == ControlOp::Delete
                &&& request.epfd == manager.fd.spec_fd()
                &&& request.fd == data.0.spec_dup_fd()
                &&& request.event.events == 0
                &&& request.event.data == 0
                &&& batch.handler == handler
                &&& batch.ops == ops
                &&& batch.after == after
            }
        }),
{
}

/// A descriptor that is watched is not registered, and one that is not is
/// neither updated nor unregistered. The error says which it was, epoll is
/// asked for nothing, and everything stays as it was.
pub proof fn impossible_operations_are_refused(
    manager: ManagerView,
    handler: HandlerId,
    data: EventRegistrationData,
    rest: Seq<PollableOp>,
    after: AfterView,
)
    ensures
        manager.handlers.contains_key(data.0.spec_fd()) ==> manager.start(
            handler,
            seq![PollableOp::Register(data)] + rest,
            after,
        ) == (manager, StepView::Done(Err(Error::AlreadyExists))),
        !manager.handlers.contains_key(data.0.spec_fd()) ==> manager.start(
            handler,
            seq![PollableOp::Update(data)] + rest,
            after,
        ) == (manager, StepView::Done(Err(Error::PollableNotFound(data.0)))),
        !manager.handlers.contains_key(data.0.spec_fd()) ==> manager.start(
            handler,
            seq![PollableOp::Unregister(data)] + rest,
            after,
        ) == (manager, StepView::Done(Err(Error::PollableNotFound(data.0)))),
{
}

/// An operation is carried out if and only if it can be: a registration if the
/// descriptor is not watched, and any other if it is.
pub proof fn possible_operations_are_not_refused(manager: ManagerView, op: PollableOp)
    ensures
        manager.request_for(op) is Ok == (manager.handlers.contains_key(subject(op).spec_fd())
            != (op is Register)),
{
}

/// What comes of a single operation that can be carried out. If epoll does what
/// it is asked for, a registered descriptor is watched by the handler, an
/// updated one as before, and an unregistered one no longer, and all others as
/// before. If epoll fails, its error is reported, and only the unregistered
/// descriptor is watched no longer.
pub proof fn single_operation_takes_effect(
    manager: ManagerView,
    handler: HandlerId,
    data: EventRegistrationData,
    error: OsError,
)
    ensures
        !manager.handlers.contains_key(data.0.spec_fd()) ==> ({
            let asked = manager.start(
                handler,
                seq![PollableOp::Register(data)],
                AfterView::Return,
            );
            let (done, step) = drive(asked, seq![Ok(())]);
            let (failed, failure) = drive(asked, seq![Err(error)]);
            &&& done.fd == manager.fd
            &&& done.handlers == manager.handlers.insert(
                data.0.spec_fd(),
                EventHandlerData { data, handler },
            )
            &&& step == StepView::Done(Ok(Completion::Updated))
            &&& failed == manager
            &&& failure == StepView::Done(Err(Error::Poll(error)))
        }),
        manager.handlers.contains_key(data.0.spec_fd()) ==> ({
            let asked = manager.start(handler, seq![PollableOp::Update(data)], AfterView::Return);
            let (done, step) = drive(asked, seq![Ok(())]);
            let (failed, failure) = drive(asked, seq![Err(error)]);
            &&& done == manager
            &&& step == StepView::Done(Ok(Completion::Updated))
            &&& failed == manager
            &&& failure == StepView::Done(Err(Error::Poll(error)))
        }),
        manager.handlers.contains_key(data.0.spec_fd()) ==> ({
            let asked = manager.start(
                handler,
                seq![PollableOp::Unregister(data)],
                AfterView::Return,
            );
            let (done, step) = drive(asked, seq![Ok(())]);
            let (failed, failure) = drive(asked, seq![Err(error)]);
            &&& done.fd == manager.fd
            &&& done.handlers == manager.handlers.remove(data.0.spec_fd())
            &&& step == StepView::Done(Ok(Completion::Updated))
            &&& failed.fd == manager.fd
            &&& failed.handlers == manager.handlers.remove(data.0.spec_fd())
            &&& failure == StepView::Done(Err(Error::Poll(error)))
        }),
{
    reveal_with_fuel(drive, 2);
    assert(seq![PollableOp::Register(data)].skip(1) =~= Seq::empty());
    assert(seq![PollableOp::Update(data)].skip(1) =~= Seq::empty());
    assert(seq![PollableOp::Unregister(data)].skip(1) =~= Seq::empty());
}

/// A wait is on the manager's own epoll instance, lasts exactly as long as was
/// asked for, and takes at most a hundred events.
pub proof fn waits_last_as_long_as_asked(manager: ManagerView, milliseconds: i32)
    ensures
        manager.wait(milliseconds).timeout == milliseconds,
        manager.wait(milliseconds).epfd == manager.fd.spec_fd(),
        manager.wait(milliseconds).max_events == 100,
{
}

/// A step shows what it holds.
pub proof fn steps_show_what_they_hold(step: Step)
    ensures
        step matches Step::Control(request, pending) ==> step@ == StepView::Control(
            request,
            pending@,
        ),
        step matches Step::Wait(request) ==> step@ == StepView::Wait(request),
        step matches Step::Acquire(pending) ==> step@ == StepView::Acquire(pending@),
        step matches Step::Call(pending) ==> step@ == StepView::Call(pending@),
        step matches Step::Done(result) ==> step@ == StepView::Done(result),
{
}

/// An answer is taken as a whole, and no answer is no operations.
pub proof fn answers_are_taken_whole(ops: Vec<PollableOp>)
    ensures
        ops_in(None).len() == 0,
        ops_in(Some(ops)).len() == ops.len(),
        forall|i: int| 0 <= i < ops.len() ==> #[trigger] ops_in(Some(ops))[i] == ops[i],
{
}

/// The number that epoll reports stands for the very descriptor that it was
/// given for, also where that is negative.
pub proof fn event_data_round_trip(fd: i32)
    ensures
        event_source(event_data(fd)) == fd,
{
    assert((fd as u64) as i32 == fd) by (bit_vector);
}

/// Two descriptors never share a number.
pub proof fn event_data_is_distinct(a: i32, b: i32)
    ensures
        event_data(a) == event_data(b) ==> a == b,
{
    event_data_round_trip(a);
    event_data_round_trip(b);
}

/// What epoll is asked for has a name, is exactly what the event type asks
/// for, and is never a report of failures, which come unasked.
pub proof fn mask_is_faithful(event_type: EventType)
    ensures
        all_named(epoll_mask(event_type)),
        has_flags(epoll_mask(event_type), in_bit()) == event_type.asks_read(),
        has_flags(epoll_mask(event_type), out_bit()) == event_type.asks_write(),
        has_flags(epoll_mask(event_type), rdhup_bit()) == event_type.asks_close(),
        !has_flags(epoll_mask(event_type), err_bit()),
{
    let r = event_type.asks_read();
    let w = event_type.asks_write();
    let c = event_type.asks_close();
    let m = epoll_mask(event_type);
    assert(m == (if r { 1u32 } else { 0u32 }) | (if w { 4u32 } else { 0u32 }) | (if c {
        0x2000u32
    } else {
        0u32
    }));
    assert(m & !0xf000_201fu32 == 0 && (m & 1 == 1) == r && (m & 4 == 4) == w && (m & 0x2000
        == 0x2000) == c && m & 8 != 8) by (bit_vector)
        requires
            m == (if r { 1u32 } else { 0u32 }) | (if w { 4u32 } else { 0u32 }) | (if c {
                0x2000u32
            } else {
                0u32
            }),
    ;
}

/// Each kind of readiness that a handler is told of has a bit of its own.
pub proof fn bits_are_those_of_epoll()
    ensures
        in_bit() == 1u32,
        out_bit() == 4u32,
        err_bit() == 8u32,
        rdhup_bit() == 0x2000u32,
{
}

/// Flags are contained in others if and only if none of them is missing there.
pub proof fn flags_are_contained_if_none_is_missing(flags: u32, flag: u32)
    ensures
        has_flags(flags, flag) == (flag & !flags == 0),
{
    assert((flags & flag == flag) == (flag & !flags == 0)) by (bit_vector);
}

/// Bits have a name if and only if they add nothing to those that have: the
/// lowest five, the fourteenth, and the highest four.
pub proof fn named_bits_are_those_of_epoll(bits: u32)
    ensures
        all_named(bits) == (bits | 0xf000_201fu32 == 0xf000_201fu32),
{
    assert((bits & !0xf000_201fu32 == 0) == (bits | 0xf000_201fu32 == 0xf000_201fu32))
        by (bit_vector);
}

/// Of the bits of an event type, the lowest asks for data to read, the next
/// for room to write, and the third for the other side's closing.
pub proof fn event_types_ask_by_their_bits(event_type: EventType)
    ensures
        event_type.asks_read() == (event_type.spec_bits() & 0b001 != 0),
        event_type.asks_write() == (event_type.spec_bits() & 0b010 != 0),
        event_type.asks_close() == (event_type.spec_bits() & 0b100 != 0),
{
    let x = event_type.spec_bits();
    assert((x & 1 == 1) == (x & 1 != 0) && (x & 2 == 2) == (x & 2 != 0) && (x & 4 == 4) == (x & 4
        != 0)) by (bit_vector);
}

/// A set that is put together from two asks for what either of them asks for.
pub proof fn interests_add_up(a: EventType, b: EventType, both: EventType)
    requires
        both.spec_bits() == a.spec_bits() | b.spec_bits(),
    ensures
        both.asks_read() == (a.asks_read() || b.asks_read()),
        both.asks_write() == (a.asks_write() || b.asks_write()),
        both.asks_close() == (a.asks_close() || b.asks_close()),
{
    let x = a.spec_bits();
    let y = b.spec_bits();
    let z = both.spec_bits();
    assert((z & 1 == 1) == (x & 1 == 1 || y & 1 == 1) && (z & 2 == 2) == (x & 2 == 2 || y & 2 == 2)
        && (z & 4 == 4) == (x & 4 == 4 || y & 4 == 4)) by (bit_vector)
        requires
            z == x | y,
    ;
}

/// Epoll is asked for input, output and the other side's closing if and only
/// if the event type has the bit for reading, writing and closing, and for
/// nothing else.
pub proof fn mask_is_the_interest(event_type: EventType)
    ensures
        (epoll_mask(event_type) & 0x1 != 0) == (event_type.spec_bits() & 0b001 != 0),
        (epoll_mask(event_type) & 0x4 != 0) == (event_type.spec_bits() & 0b010 != 0),
        (epoll_mask(event_type) & 0x2000 != 0) == (event_type.spec_bits() & 0b100 != 0),
        epoll_mask(event_type) & !0x2005u32 == 0,
{
    event_types_ask_by_their_bits(event_type);
    let r = event_type.asks_read();
    let w = event_type.asks_write();
    let c = event_type.asks_close();
    let m = epoll_mask(event_type);
    assert((m & 0x1 != 0) == r && (m & 0x4 != 0) == w && (m & 0x2000 != 0) == c && m & !0x2005u32
        == 0) by (bit_vector)
        requires
            m == (if r { 1u32 } else { 0u32 }) | (if w { 4u32 } else { 0u32 }) | (if c {
                0x2000u32
            } else {
                0u32
            }),
    ;
}

/// The number that goes with a descriptor is its own, extended by its sign;
/// of a number that is reported, the lower half counts.
pub proof fn event_data_is_the_number(fd: i32, data: u64)
    ensures
        fd >= 0 ==> event_data(fd) == fd,
        fd < 0 ==> event_data(fd) == fd + 0x1_0000_0000_0000_0000,
        event_source(data) == event_source(data & 0xffff_ffff),
        data <= 0x7fff_ffff ==> event_source(data) == data,
{
    assert((fd >= 0 ==> fd as u64 == fd) && (fd < 0 ==> fd as u64 == fd
        + 0x1_0000_0000_0000_0000)) by (bit_vector);
    assert(data as i32 == (data & 0xffff_ffff) as i32 && (data <= 0x7fff_ffff ==> data as i32
        == data)) by (bit_vector);
}

/// Different event types are asked for differently.
pub proof fn mask_is_distinct(a: EventType, b: EventType)
    requires
        a.valid(),
        b.valid(),
        epoll_mask(a) == epoll_mask(b),
    ensures
        a.spec_bits() == b.spec_bits(),
{
    mask_is_faithful(a);
    mask_is_faithful(b);
    let x = a.spec_bits();
    let y = b.spec_bits();
    assert(x == y) by (bit_vector)
        requires
            x <= 7,
            y <= 7,
            (x & 1 == 1) == (y & 1 == 1),
            (x & 2 == 2) == (y & 2 == 2),
            (x & 4 == 4) == (y & 4 == 4),
    ;
}

/// If an error occurs on a descriptor then only that is told, whatever other
/// bits are set.
pub proof fn error_is_told_alone(events: u32)
    requires
        has_flags(events, err_bit()),
    ensures
        callbacks_for(events) == seq![Callback::Error],
{
}

/// The place of a call among those that an event can lead to.
pub open spec fn place(callback: Callback) -> int {
    match callback {
        Callback::Read => 0,
        Callback::Write => 1,
        Callback::Close => 2,
        Callback::Error => 3,
    }
}

/// If no error occurs then each of reading, writing and closing is told if
/// and only if its bit is set, once, and in this order.
pub proof fn each_readiness_is_told_once(events: u32)
    requires
        !has_flags(events, err_bit()),
    ensures
        callbacks_for(events).contains(Callback::Read) == has_flags(events, in_bit()),
        callbacks_for(events).contains(Callback::Write) == has_flags(events, out_bit()),
        callbacks_for(events).contains(Callback::Close) == has_flags(events, rdhup_bit()),
        !callbacks_for(events).contains(Callback::Error),
        forall|i: int, j: int|
            0 <= i < j < callbacks_for(events).len() ==> place(callbacks_for(events)[i]) < place(
                callbacks_for(events)[j],
            ),
{
    let told = callbacks_for(events);
    let r = has_flags(events, in_bit());
    let w = has_flags(events, out_bit());
    let c = has_flags(events, rdhup_bit());
    let i = if r {
        1int
    } else {
        0int
    };
    let j = if w {
        i + 1
    } else {
        i
    };
    assert(r ==> told[0] == Callback::Read);
    assert(w ==> told[i] == Callback::Write);
    assert(c ==> told[j] == Callback::Close);
    assert(told.len() == j + (if c {
        1int
    } else {
        0int
    }));
}

/// A handler that is told of no more than it asked for is told of all of it,
/// and of nothing else.
pub proof fn asked_for_is_told(event_type: EventType)
    ensures
        ({
            let told = callbacks_for(epoll_mask(event_type));
            &&& told.contains(Callback::Read) == event_type.asks_read()
            &&& told.contains(Callback::Write) == event_type.asks_write()
            &&& told.contains(Callback::Close) == event_type.asks_close()
            &&& !told.contains(Callback::Error)
        }),
{
    mask_is_faithful(event_type);
    each_readiness_is_told_once(epoll_mask(event_type));
}

/// Events are seen to in order: the next one is the first that goes to a
/// handler, and those before it are passed over.
pub proof fn next_event_is_the_first(
    manager: ManagerView,
    total: usize,
    rest: Seq<Event>,
    i: int,
)
    requires
        0 <= i < rest.len(),
        manager.dispatches(rest[i]),
        forall|j: int| 0 <= j < i ==> !manager.dispatches(#[trigger] rest[j]),
    ensures
        manager.next_event(total, rest) == StepView::Acquire(
            DispatchView {
                entry: manager.handlers[event_source(rest[i].data)],
                events: rest[i].events,
                total,
                rest: rest.skip(i + 1),
            },
        ),
    decreases i,
{
    if i > 0 {
        let shorter = rest.skip(1);
        assert(!manager.dispatches(rest[0]));
        assert forall|j: int| 0 <= j < i - 1 implies !manager.dispatches(#[trigger] shorter[j]) by {
            assert(shorter[j] == rest[j + 1]);
        }
        next_event_is_the_first(manager, total, shorter, i - 1);
        assert(shorter.skip(i) =~= rest.skip(i + 1));
    }
}

/// When none of the events that are left goes to a handler, a run is over. It
/// reports how many events there were in all.
pub proof fn no_event_is_left(manager: ManagerView, total: usize, rest: Seq<Event>)
    requires
        forall|j: int| 0 <= j < rest.len() ==> !manager.dispatches(#[trigger] rest[j]),
    ensures
        manager.next_event(total, rest) == StepView::Done(Ok(Completion::Processed(total))),
    decreases rest.len(),
{
    if rest.len() > 0 {
        let shorter = rest.skip(1);
        assert(!manager.dispatches(rest[0]));
        assert forall|j: int| 0 <= j < shorter.len() implies !manager.dispatches(
            #[trigger] shorter[j],
        ) by {
            assert(shorter[j] == rest[j + 1]);
        }
        no_event_is_left(manager, total, shorter);
    }
}

/// An event goes to the handler that watches the descriptor whose number was
/// reported, with the bits that were reported, if all of these have a name. Any
/// other event is passed over. When there are no more, the run ends with the
/// count of all events.
pub proof fn event_goes_to_whoever_watches(
    manager: ManagerView,
    total: usize,
    event: Event,
    rest: Seq<Event>,
)
    ensures
        manager.next_event(total, seq![event] + rest) == (if event.events | 0xf000_201fu32
            == 0xf000_201fu32 && manager.handlers.contains_key(event.data as i32) {
            StepView::Acquire(
                DispatchView {
                    entry: manager.handlers[event.data as i32],
                    events: event.events,
                    total,
                    rest,
                },
            )
        } else {
            manager.next_event(total, rest)
        }),
        manager.next_event(total, Seq::empty()) == StepView::Done(
            Ok(Completion::Processed(total)),
        ),
{
    named_bits_are_those_of_epoll(event.events);
    assert((seq![event] + rest).skip(1) =~= rest);
}

/// An event whose handler does not exist any more is passed over: what comes
/// next is what would have come if it had not been reported.
pub proof fn event_without_handler_is_passed_over(
    manager: ManagerView,
    total: usize,
    event: Event,
    rest: Seq<Event>,
    dispatch: DispatchView,
)
    requires
        manager.next_event(total, seq![event] + rest) == StepView::Acquire(dispatch),
        dispatch.rest == rest,
    ensures
        manager.gone(dispatch) == manager.next_event(total, rest),
{
    dispatch_is_watched(manager, total, seq![event] + rest, dispatch);
}

/// An event on a descriptor that has been registered goes to the handler that
/// registered it, with the bits that were reported.
pub proof fn event_reaches_its_handler(
    manager: ManagerView,
    data: EventRegistrationData,
    handler: HandlerId,
    events: u32,
    total: usize,
    rest: Seq<Event>,
)
    requires
        all_named(events),
    ensures
        ({
            let after = manager.applied(PollableOp::Register(data), handler);
            let event = Event { events, data: event_data(data.0.spec_fd()) };
            after.next_event(total, seq![event] + rest) == StepView::Acquire(
                DispatchView {
                    entry: EventHandlerData { data, handler },
                    events,
                    total,
                    rest,
                },
            )
        }),
{
    let event = Event { events, data: event_data(data.0.spec_fd()) };
    event_data_round_trip(data.0.spec_fd());
    assert((seq![event] + rest).skip(1) =~= rest);
}

/// An event on a descriptor that has been unregistered goes to nobody.
pub proof fn event_reaches_nobody(
    manager: ManagerView,
    data: EventRegistrationData,
    handler: HandlerId,
    events: u32,
    total: usize,
    rest: Seq<Event>,
)
    ensures
        ({
            let after = manager.applied(PollableOp::Unregister(data), handler);
            let event = Event { events, data: event_data(data.0.spec_fd()) };
            after.next_event(total, seq![event] + rest) == after.next_event(total, rest)
        }),
{
    let event = Event { events, data: event_data(data.0.spec_fd()) };
    event_data_round_trip(data.0.spec_fd());
    assert((seq![event] + rest).skip(1) =~= rest);
}

/// Where an event gets to when its handler answers the calls that are due with
/// `replies`, in order.
pub open spec fn converse(
    state: (ManagerView, StepView),
    replies: Seq<Seq<PollableOp>>,
) -> (ManagerView, StepView)
    decreases replies.len(),
{
    if replies.len() == 0 {
        state
    } else {
        match state.1 {
            StepView::Call(call) => converse(state.0.answered(call, replies[0]), replies.skip(1)),
            _ => state,
        }
    }
}

/// The operations that a handler answers with are carried out for it once it
/// has answered all calls, in the order in which it gave them.
pub proof fn answers_are_gathered(
    manager: ManagerView,
    dispatch: DispatchView,
    replies: Seq<Seq<PollableOp>>,
)
    requires
        replies.len() == callbacks_for(dispatch.events).len(),
    ensures
        converse(manager.acquired(dispatch), replies) == manager.start(
            dispatch.entry.handler,
            replies.flatten(),
            AfterView::Events { total: dispatch.total, rest: dispatch.rest },
        ),
{
    let call = CallView {
        entry: dispatch.entry,
        callbacks: callbacks_for(dispatch.events),
        ops: Seq::empty(),
        total: dispatch.total,
        rest: dispatch.rest,
    };
    conversation_gathers(manager, call, replies);
    assert(call.ops + replies.flatten() =~= replies.flatten());
}

/// A handler is told of an event by exactly the calls that the reported bits
/// stand for: of a failure alone, if there is one, and otherwise of reading,
/// writing and closing, in this order, each if and only if its bit is set.
/// Whatever it has answered so far, after as many answers the next of these
/// calls is due, on the descriptor that was reported; and when all have been
/// answered no call is due, and all that it answered with is carried out.
pub proof fn calls_are_those_of_the_bits(
    manager: ManagerView,
    dispatch: DispatchView,
    replies: Seq<Seq<PollableOp>>,
)
    ensures
        ({
            let failed = dispatch.events & 0x8 != 0;
            let reads: int = if dispatch.events & 0x1 != 0 {
                1
            } else {
                0
            };
            let writes: int = if dispatch.events & 0x4 != 0 {
                1
            } else {
                0
            };
            let closes: int = if dispatch.events & 0x2000 != 0 {
                1
            } else {
                0
            };
            let due: int = if failed {
                1
            } else {
                reads + writes + closes
            };
            let answered = replies.len();
            let (now, step) = converse(manager.acquired(dispatch), replies);
            &&& step is Call == (answered < due)
            &&& step matches StepView::Call(call) ==> {
                &&& now == manager
                &&& call.callbacks.len() == due - answered
                &&& call.callbacks[0] == (if failed {
                    Callback::Error
                } else if answered < reads {
                    Callback::Read
                } else if answered < reads + writes {
                    Callback::Write
                } else {
                    Callback::Close
                })
                &&& call.entry == dispatch.entry
                &&& call.ops == replies.flatten()
                &&& call.total == dispatch.total
                &&& call.rest == dispatch.rest
            }
            &&& answered >= due ==> (now, step) == manager.start(
                dispatch.entry.handler,
                replies.take(due).flatten(),
                AfterView::Events { total: dispatch.total, rest: dispatch.rest },
            )
        }),
{
    let events = dispatch.events;
    let call = CallView {
        entry: dispatch.entry,
        callbacks: callbacks_for(events),
        ops: Seq::empty(),
        total: dispatch.total,
        rest: dispatch.rest,
    };
    assert((events & 1 == 1) == (events & 1 != 0) && (events & 4 == 4) == (events & 4 != 0) && (
    events & 8 == 8) == (events & 8 != 0) && (events & 0x2000 == 0x2000) == (events & 0x2000 != 0))
        by (bit_vector);
    assert(call.ops + replies.flatten() =~= replies.flatten());
    let due = call.callbacks.len();
    if replies.len() < due {
        conversation_goes_on(manager, call, replies);
    } else {
        let heard = replies.take(due as int);
        conversation_gathers(manager, call, heard);
        assert(call.ops + heard.flatten() =~= heard.flatten());
        assert(heard + replies.skip(due as int) =~= replies);
        converse_splits(manager.ask(call), heard, replies.skip(due as int));
        no_control_without_operations(
            manager,
            AfterView::Events { total: call.total, rest: call.rest },
        );
    }
}

/// As long as not all calls have been answered the next one is due.
proof fn conversation_goes_on(
    manager: ManagerView,
    call: CallView,
    replies: Seq<Seq<PollableOp>>,
)
    requires
        replies.len() < call.callbacks.len(),
    ensures
        converse(manager.ask(call), replies) == (
            manager,
            StepView::Call(
                CallView {
                    callbacks: call.callbacks.skip(replies.len() as int),
                    ops: call.ops + replies.flatten(),
                    ..call
                },
            ),
        ),
    decreases replies.len(),
{
    if replies.len() == 0 {
        assert(call.callbacks.skip(0) =~= call.callbacks);
        assert(call.ops + replies.flatten() =~= call.ops);
    } else {
        let next = CallView {
            callbacks: call.callbacks.skip(1),
            ops: call.ops + replies[0],
            ..call
        };
        conversation_goes_on(manager, next, replies.skip(1));
        assert(replies.skip(1) =~= replies.drop_first());
        assert(next.ops + replies.drop_first().flatten() =~= call.ops + replies.flatten());
        assert(next.callbacks.skip(replies.len() - 1) =~= call.callbacks.skip(
            replies.len() as int,
        ));
    }
}

/// A handler's answers can be given in two goes.
proof fn converse_splits(
    state: (ManagerView, StepView),
    first: Seq<Seq<PollableOp>>,
    second: Seq<Seq<PollableOp>>,
)
    ensures
        converse(state, first + second) == converse(converse(state, first), second),
    decreases first.len(),
{
    if first.len() == 0 {
        assert(first + second =~= second);
    } else if let StepView::Call(call) = state.1 {
        converse_splits(state.0.answered(call, first[0]), first.skip(1), second);
        assert((first + second).skip(1) =~= first.skip(1) + second);
    }
}

/// Where no operation that a handler answers with is refused and epoll does
/// all it is asked for, all of them take effect, and the next event is due.
pub proof fn event_is_seen_through(
    manager: ManagerView,
    dispatch: DispatchView,
    replies: Seq<Seq<PollableOp>>,
)
    requires
        replies.len() == callbacks_for(dispatch.events).len(),
        manager.accepts(
            replies.flatten(),
            dispatch.entry.handler,
            replies.flatten().len() as int,
        ),
    ensures
        ({
            let ops = replies.flatten();
            let after = manager.applied_all(ops, dispatch.entry.handler);
            drive(converse(manager.acquired(dispatch), replies), successes(ops.len())) == (
                after,
                after.next_event(dispatch.total, dispatch.rest),
            )
        }),
{
    let ops = replies.flatten();
    answers_are_gathered(manager, dispatch, replies);
    operations_run_in_order(
        manager,
        dispatch.entry.handler,
        ops,
        AfterView::Events { total: dispatch.total, rest: dispatch.rest },
        ops.len(),
    );
    assert(ops.take(ops.len() as int) =~= ops);
}

/// What a conversation gathers is added to what there was before it.
proof fn conversation_gathers(
    manager: ManagerView,
    call: CallView,
    replies: Seq<Seq<PollableOp>>,
)
    requires
        replies.len() == call.callbacks.len(),
    ensures
        converse(manager.ask(call), replies) == manager.start(
            call.entry.handler,
            call.ops + replies.flatten(),
            AfterView::Events { total: call.total, rest: call.rest },
        ),
    decreases replies.len(),
{
    if replies.len() == 0 {
        assert(call.ops + replies.flatten() =~= call.ops);
    } else {
        let next = CallView {
            callbacks: call.callbacks.skip(1),
            ops: call.ops + replies[0],
            ..call
        };
        conversation_gathers(manager, next, replies.skip(1));
        assert(replies.skip(1) =~= replies.drop_first());
        assert(next.ops + replies.drop_first().flatten() =~= call.ops + replies.flatten());
    }
}

/// A handler that answers nothing has nothing carried out: the next event is
/// due.
pub proof fn silence_changes_nothing(manager: ManagerView, dispatch: DispatchView)
    ensures
        converse(
            manager.acquired(dispatch),
            Seq::new(callbacks_for(dispatch.events).len(), |i: int| Seq::<PollableOp>::empty()),
        ) == (manager, manager.next_event(dispatch.total, dispatch.rest)),
{
    let replies = Seq::new(
        callbacks_for(dispatch.events).len(),
        |i: int| Seq::<PollableOp>::empty(),
    );
    answers_are_gathered(manager, dispatch, replies);
    nothing_flattens(replies);
}

/// Nothing comes of nothing.
proof fn nothing_flattens(replies: Seq<Seq<PollableOp>>)
    requires
        forall|i: int| 0 <= i < replies.len() ==> (#[trigger] replies[i]).len() == 0,
    ensures
        replies.flatten().len() == 0,
    decreases replies.len(),
{
    if replies.len() > 0 {
        assert forall|i: int| 0 <= i < replies.drop_first().len() implies (
        #[trigger] replies.drop_first()[i]).len() == 0 by {
            assert(replies.drop_first()[i] == replies[i + 1]);
        }
        nothing_flattens(replies.drop_first());
    }
}

/// A descriptor whose handler cannot be reached is no longer watched, and
/// epoll is asked to poll it no longer. Once that is done the next event is
/// due; if it fails, the run ends there.
pub proof fn unreachable_handler_is_dropped(
    manager: ManagerView,
    total: usize,
    rest: Seq<Event>,
    dispatch: DispatchView,
    error: OsError,
)
    requires
        manager.keyed(),
        manager.next_event(total, rest) == StepView::Acquire(dispatch),
    ensures
        ({
            let busy = manager.busy(dispatch);
            &&& busy.0.fd == manager.fd
            &&& busy.0.handlers == manager.handlers.remove(dispatch.entry.data.0.spec_fd())
            &&& !busy.0.watches(dispatch.entry.data.0)
            &&& busy.1 matches StepView::Control(request, batch) && request.op == ControlOp::Delete
                && request.epfd == manager.fd.spec_fd() && request.fd
                == dispatch.entry.data.0.spec_dup_fd()
            &&& drive(busy, successes(1)) == (
                busy.0,
                busy.0.next_event(dispatch.total, dispatch.rest),
            )
            &&& drive(busy, seq![Err(error)]) == (
                busy.0,
                StepView::Done(Err(Error::Poll(error))),
            )
        }),
{
    dispatch_is_watched(manager, total, rest, dispatch);
    let busy = manager.busy(dispatch);
    let ops = seq![PollableOp::Unregister(dispatch.entry.data)];
    assert(ops.skip(1) =~= Seq::empty());
    assert(successes(1) =~= seq![Ok(())]);
    reveal_with_fuel(drive, 2);
}

/// An event goes to an entry of the manager, and what comes after it is the
/// end of what there was.
proof fn dispatch_is_watched(
    manager: ManagerView,
    total: usize,
    rest: Seq<Event>,
    dispatch: DispatchView,
)
    requires
        manager.next_event(total, rest) == StepView::Acquire(dispatch),
    ensures
        dispatch.total == total,
        dispatch.rest.len() < rest.len(),
        dispatch.rest == rest.skip(rest.len() - dispatch.rest.len()),
        all_named(dispatch.events),
        exists|id: i32| #[trigger]
            manager.handlers.contains_key(id) && manager.handlers[id] == dispatch.entry,
    decreases rest.len(),
{
    if rest.len() > 0 && !manager.dispatches(rest[0]) {
        dispatch_is_watched(manager, total, rest.skip(1), dispatch);
        assert(rest.skip(1).skip(rest.skip(1).len() - dispatch.rest.len()) =~= rest.skip(
            rest.len() - dispatch.rest.len(),
        ));
    }
}

/// How many events are still to be seen to.
pub open spec fn events_left(step: StepView) -> nat {
    match step {
        StepView::Control(_, batch) => match batch.after {
            AfterView::Return => 0,
            AfterView::Events { rest, .. } => rest.len(),
        },
        StepView::Wait(_) => 0,
        StepView::Acquire(dispatch) => dispatch.rest.len() + 1,
        StepView::Call(call) => call.rest.len(),
        StepView::Done(_) => 0,
    }
}

/// No event is seen to twice: whatever becomes of one, only those after it are
/// left.
pub proof fn events_are_seen_to_once(manager: ManagerView, dispatch: DispatchView)
    ensures
        events_left(manager.gone(dispatch)) < events_left(StepView::Acquire(dispatch)),
        events_left(manager.busy(dispatch).1) < events_left(StepView::Acquire(dispatch)),
        events_left(manager.acquired(dispatch).1) < events_left(StepView::Acquire(dispatch)),
{
    next_event_shortens(manager, dispatch.total, dispatch.rest);
    next_event_shortens(manager.busy(dispatch).0, dispatch.total, dispatch.rest);
}

/// The next event is one of those that are left.
proof fn next_event_shortens(manager: ManagerView, total: usize, rest: Seq<Event>)
    ensures
        events_left(manager.next_event(total, rest)) <= rest.len(),
    decreases rest.len(),
{
    if rest.len() > 0 {
        next_event_shortens(manager, total, rest.skip(1));
    }
}

/// A handler's answer brings no event back, and leaves fewer calls to make.
pub proof fn handler_answers_make_progress(
    manager: ManagerView,
    call: CallView,
    ops: Seq<PollableOp>,
)
    requires
        call.callbacks.len() > 0,
    ensures
        events_left(manager.answered(call, ops).1) <= events_left(StepView::Call(call)),
        manager.answered(call, ops).1 matches StepView::Call(next) ==> next.callbacks.len()
            < call.callbacks.len(),
{
    next_event_shortens(manager, call.total, call.rest);
    no_control_without_operations(
        manager,
        AfterView::Events { total: call.total, rest: call.rest },
    );
}

/// Epoll's answer brings no event back, and leaves fewer operations to carry
/// out.
pub proof fn epoll_answers_make_progress(
    manager: ManagerView,
    request: ControlRequest,
    batch: BatchView,
    outcome: Result<(), OsError>,
)
    requires
        batch.ops.len() > 0,
    ensures
        events_left(manager.controlled(batch, outcome).1) <= events_left(
            StepView::Control(request, batch),
        ),
        manager.controlled(batch, outcome).1 matches StepView::Control(_, next) ==> next.ops.len()
            < batch.ops.len(),
{
    if let AfterView::Events { total, rest } = batch.after {
        next_event_shortens(manager.confirmed(batch.ops[0], batch.handler), total, rest);
    }
    no_control_without_operations(manager.confirmed(batch.ops[0], batch.handler), batch.after);
}

/// When a run of operations is over, epoll is asked for nothing.
proof fn no_control_without_operations(manager: ManagerView, after: AfterView)
    ensures
        !(manager.resume(after) is Control),
        !(manager.resume(after) is Call),
    decreases (match after {
        AfterView::Return => 0,
        AfterView::Events { rest, .. } => rest.len(),
    }),
{
    if let AfterView::Events { total, rest } = after {
        if rest.len() > 0 {
            no_control_without_operations(
                manager,
                AfterView::Events { total, rest: rest.skip(1) },
            );
        }
    }
}

/// What becomes of an event that goes to a handler, and how epoll answers what
/// it is asked for then.
#[verifier::ext_equal]
pub enum Reception {
    /// The handler does not exist any more.
    Gone,
    /// The handler cannot be reached.
    Busy(Result<(), OsError>),
    /// The handler answers the calls that are due with these operations.
    Told { replies: Seq<Seq<PollableOp>>, outcomes: Seq<Result<(), OsError>> },
}

/// The operations that an event for `entry` leads to.
pub open spec fn ops_of(entry: EventHandlerData, reception: Reception) -> Seq<PollableOp> {
    match reception {
        Reception::Gone => Seq::empty(),
        Reception::Busy(_) => seq![PollableOp::Unregister(entry.data)],
        Reception::Told { replies, .. } => replies.flatten(),
    }
}

impl ManagerView {
    /// The manager once all operations have taken effect that an event for
    /// `entry` leads to.
    pub open spec fn received(self, entry: EventHandlerData, reception: Reception) -> ManagerView {
        self.applied_all(ops_of(entry, reception), entry.handler)
    }

    /// Whether an event is received in this way with an answer to each call,
    /// with no operation being refused, and with epoll doing all it is asked
    /// for.
    pub open spec fn can_receive(self, event: Event, reception: Reception) -> bool {
        match reception {
            Reception::Gone => true,
            Reception::Busy(outcome) => outcome == Ok::<(), OsError>(()),
            Reception::Told { replies, outcomes } => {
                &&& replies.len() == callbacks_for(event.events).len()
                &&& self.accepts(
                    replies.flatten(),
                    self.handlers[event_source(event.data)].handler,
                    replies.flatten().len() as int,
                )
                &&& outcomes == successes(replies.flatten().len())
            },
        }
    }

    /// Whether an event that is received in this way comes to grief with its
    /// `n`-th operation, the first that does: it is refused, or epoll fails.
    pub open spec fn fails_at(
        self,
        event: Event,
        reception: Reception,
        n: nat,
        error: Error,
    ) -> bool {
        match reception {
            Reception::Gone => false,
            Reception::Busy(outcome) => n == 0 && (outcome matches Err(os_error) && error
                == Error::Poll(os_error)),
            Reception::Told { replies, outcomes } => {
                let ops = replies.flatten();
                let handler = self.handlers[event_source(event.data)].handler;
                &&& replies.len() == callbacks_for(event.events).len()
                &&& n < ops.len()
                &&& self.accepts(ops, handler, n as int)
                &&& match self.applied_all(ops.take(n as int), handler).request_for(
                    ops[n as int],
                ) {
                    Ok(_) => error matches Error::Poll(os_error) && outcomes == successes(n).push(
                        Err(os_error),
                    ),
                    Err(refusal) => error == refusal && outcomes == successes(n),
                }
            },
        }
    }

    /// The manager once an event for `entry` has come to grief with its `n`-th
    /// operation: those before it have taken effect, and of it only this much
    /// has, that an entry which was to go is gone if epoll was asked.
    pub open spec fn stopped_at(
        self,
        entry: EventHandlerData,
        reception: Reception,
        n: nat,
    ) -> ManagerView {
        let ops = ops_of(entry, reception);
        let done = self.applied_all(ops.take(n as int), entry.handler);
        if done.request_for(ops[n as int]) is Ok {
            done.asked(ops[n as int])
        } else {
            done
        }
    }

    /// The manager when the turn of the `i`-th of these events comes. An event
    /// that goes to no handler leaves it as it is.
    pub open spec fn at_turn(
        self,
        events: Seq<Event>,
        receptions: Seq<Reception>,
        i: int,
    ) -> ManagerView
        decreases i,
    {
        if i <= 0 {
            self
        } else {
            let before = self.at_turn(events, receptions, i - 1);
            if before.dispatches(events[i - 1]) {
                before.received(
                    before.handlers[event_source(events[i - 1].data)],
                    receptions[i - 1],
                )
            } else {
                before
            }
        }
    }

    /// The turn of the `i`-th of these events, if it goes to a handler then.
    pub open spec fn turn(
        self,
        events: Seq<Event>,
        receptions: Seq<Reception>,
        i: int,
    ) -> DispatchView {
        DispatchView {
            entry: self.at_turn(events, receptions, i).handlers[event_source(events[i].data)],
            events: events[i].events,
            total: events.len() as usize,
            rest: events.skip(i + 1),
        }
    }

    /// The turns of the first `n` of these events, in order: one for each that
    /// goes to a handler when its turn comes.
    pub open spec fn turns_of_first(
        self,
        events: Seq<Event>,
        receptions: Seq<Reception>,
        n: int,
    ) -> Seq<DispatchView>
        decreases n,
    {
        if n <= 0 {
            Seq::empty()
        } else if self.at_turn(events, receptions, n - 1).dispatches(events[n - 1]) {
            self.turns_of_first(events, receptions, n - 1).push(
                self.turn(events, receptions, n - 1),
            )
        } else {
            self.turns_of_first(events, receptions, n - 1)
        }
    }

    /// Whether each of the first `n` events is received without coming to
    /// grief when its turn comes.
    pub open spec fn can_receive_first(
        self,
        events: Seq<Event>,
        receptions: Seq<Reception>,
        n: int,
    ) -> bool {
        forall|i: int|
            0 <= i < n && (#[trigger] self.at_turn(events, receptions, i)).dispatches(events[i])
                ==> self.at_turn(events, receptions, i).can_receive(events[i], receptions[i])
    }

    /// A manager and its step when the turn of the `i`-th of these events
    /// comes.
    pub open spec fn state_at(
        self,
        events: Seq<Event>,
        receptions: Seq<Reception>,
        i: int,
    ) -> (ManagerView, StepView) {
        let now = self.at_turn(events, receptions, i);
        (now, now.next_event(events.len() as usize, events.skip(i)))
    }
}

/// Where a manager gets to with an event that is received in this way.
pub open spec fn seen_to(
    manager: ManagerView,
    dispatch: DispatchView,
    reception: Reception,
) -> (ManagerView, StepView) {
    match reception {
        Reception::Gone => (manager, manager.gone(dispatch)),
        Reception::Busy(outcome) => drive(manager.busy(dispatch), seq![outcome]),
        Reception::Told { replies, outcomes } => drive(
            converse(manager.acquired(dispatch), replies),
            outcomes,
        ),
    }
}

/// How an event is received, by its place among all events of a run.
pub open spec fn reception_of(dispatch: DispatchView, receptions: Seq<Reception>) -> Reception {
    receptions[dispatch.total - dispatch.rest.len() - 1]
}

/// Where a run gets to whose events are received in these ways.
pub open spec fn run(
    state: (ManagerView, StepView),
    receptions: Seq<Reception>,
) -> (ManagerView, StepView)
    decreases events_left(state.1),
{
    match state.1 {
        StepView::Acquire(dispatch) => {
            proof {
                seeing_to_shortens(state.0, dispatch, reception_of(dispatch, receptions));
            }
            run(seen_to(state.0, dispatch, reception_of(dispatch, receptions)), receptions)
        },
        _ => state,
    }
}

/// The turns that a run takes whose events are received in these ways.
pub open spec fn turns(
    state: (ManagerView, StepView),
    receptions: Seq<Reception>,
) -> Seq<DispatchView>
    decreases events_left(state.1),
{
    match state.1 {
        StepView::Acquire(dispatch) => {
            proof {
                seeing_to_shortens(state.0, dispatch, reception_of(dispatch, receptions));
            }
            seq![dispatch] + turns(
                seen_to(state.0, dispatch, reception_of(dispatch, receptions)),
                receptions,
            )
        },
        _ => Seq::empty(),
    }
}

/// Each event of a batch is seen to once, in order. It has its turn if and
/// only if it goes to a handler as the manager is when that turn comes, and it
/// then goes to the handler that watches at that time. Where no event comes to
/// grief, the run ends with the count of the events.
pub proof fn batch_is_seen_to_in_order(
    manager: ManagerView,
    events: Seq<Event>,
    receptions: Seq<Reception>,
)
    requires
        manager.keyed(),
        events.len() <= usize::MAX,
        manager.can_receive_first(events, receptions, events.len() as int),
    ensures
        ({
            let total = events.len() as usize;
            let state = (manager, manager.next_event(total, events));
            &&& turns(state, receptions) == manager.turns_of_first(
                events,
                receptions,
                events.len() as int,
            )
            &&& run(state, receptions) == (
                manager.at_turn(events, receptions, events.len() as int),
                StepView::Done(Ok(Completion::Processed(total))),
            )
        }),
{
    let n = events.len() as int;
    batch_goes_on(manager, events, receptions, n);
    assert(events.skip(0) =~= events);
    assert(turns(manager.state_at(events, receptions, n), receptions) =~= Seq::empty());
    assert(manager.turns_of_first(events, receptions, n) + Seq::<DispatchView>::empty()
        =~= manager.turns_of_first(events, receptions, n));
}

/// The first event of a batch that comes to grief ends the run with its error.
/// The events up to it have had their turns, those before it have taken
/// effect, and so have its own operations before the one that was refused or
/// that epoll failed at. The events after it have no turn.
pub proof fn batch_ends_with_the_first_failure(
    manager: ManagerView,
    events: Seq<Event>,
    receptions: Seq<Reception>,
    i: int,
    n: nat,
    error: Error,
)
    requires
        manager.keyed(),
        events.len() <= usize::MAX,
        0 <= i < events.len(),
        manager.can_receive_first(events, receptions, i),
        manager.at_turn(events, receptions, i).dispatches(events[i]),
        manager.at_turn(events, receptions, i).fails_at(events[i], receptions[i], n, error),
    ensures
        ({
            let state = (manager, manager.next_event(events.len() as usize, events));
            &&& turns(state, receptions) == manager.turns_of_first(events, receptions, i + 1)
            &&& run(state, receptions) == (
                manager.at_turn(events, receptions, i).stopped_at(
                    manager.turn(events, receptions, i).entry,
                    receptions[i],
                    n,
                ),
                StepView::Done(Err(error)),
            )
        }),
{
    let total = events.len() as usize;
    let now = manager.at_turn(events, receptions, i);
    let dispatch = manager.turn(events, receptions, i);
    batch_goes_on(manager, events, receptions, i);
    assert(events.skip(0) =~= events);
    assert(events.skip(i).skip(1) =~= events.skip(i + 1));
    assert(now.next_event(total, events.skip(i)) == StepView::Acquire(dispatch));
    assert(reception_of(dispatch, receptions) == receptions[i]);
    turns_stay_keyed(manager, events, receptions, i);
    failure_ends_the_event(now, events.skip(i), dispatch, receptions[i], n, error);
    let end = seen_to(now, dispatch, receptions[i]);
    assert(turns(end, receptions) =~= Seq::empty());
    assert(turns(manager.state_at(events, receptions, i), receptions) =~= seq![dispatch]);
    assert(run(manager.state_at(events, receptions, i), receptions) == run(end, receptions));
    assert(manager.turns_of_first(events, receptions, i) + seq![dispatch]
        =~= manager.turns_of_first(events, receptions, i + 1));
}

/// A run whose first events come to no grief goes on from where these leave
/// it.
proof fn batch_goes_on(
    manager: ManagerView,
    events: Seq<Event>,
    receptions: Seq<Reception>,
    n: int,
)
    requires
        manager.keyed(),
        events.len() <= usize::MAX,
        0 <= n <= events.len(),
        manager.can_receive_first(events, receptions, n),
    ensures
        ({
            let first = manager.state_at(events, receptions, 0);
            let last = manager.state_at(events, receptions, n);
            &&& turns(first, receptions) == manager.turns_of_first(events, receptions, n)
                + turns(last, receptions)
            &&& run(first, receptions) == run(last, receptions)
        }),
    decreases n,
{
    let first = manager.state_at(events, receptions, 0);
    let last = manager.state_at(events, receptions, n);
    if n == 0 {
        assert(manager.turns_of_first(events, receptions, n) + turns(last, receptions)
            =~= turns(last, receptions));
    } else {
        let i = n - 1;
        let total = events.len() as usize;
        let now = manager.at_turn(events, receptions, i);
        let before = manager.turns_of_first(events, receptions, i);
        batch_goes_on(manager, events, receptions, i);
        assert(events.skip(i).skip(1) =~= events.skip(n));
        if now.dispatches(events[i]) {
            let dispatch = manager.turn(events, receptions, i);
            assert(now.next_event(total, events.skip(i)) == StepView::Acquire(dispatch));
            assert(reception_of(dispatch, receptions) == receptions[i]);
            turns_stay_keyed(manager, events, receptions, i);
            reception_takes_effect(now, events.skip(i), dispatch, receptions[i]);
            assert(seen_to(now, dispatch, receptions[i]) == last);
            assert(before + (seq![dispatch] + turns(last, receptions)) =~= before.push(dispatch)
                + turns(last, receptions));
        }
    }
}

/// What becomes of an event that is received without coming to grief.
proof fn reception_takes_effect(
    manager: ManagerView,
    rest: Seq<Event>,
    dispatch: DispatchView,
    reception: Reception,
)
    requires
        manager.keyed(),
        rest.len() > 0,
        manager.dispatches(rest[0]),
        manager.can_receive(rest[0], reception),
        manager.next_event(dispatch.total, rest) == StepView::Acquire(dispatch),
    ensures
        ({
            let after = manager.received(dispatch.entry, reception);
            seen_to(manager, dispatch, reception) == (
                after,
                after.next_event(dispatch.total, dispatch.rest),
            )
        }),
{
    match reception {
        Reception::Gone => {},
        Reception::Busy(outcome) => {
            unreachable_handler_is_dropped(
                manager,
                dispatch.total,
                rest,
                dispatch,
                OsError { code: 0 },
            );
            assert(seq![outcome] =~= successes(1));
            reveal_with_fuel(ManagerView::applied_all, 2);
        },
        Reception::Told { replies, .. } => {
            event_is_seen_through(manager, dispatch, replies);
        },
    }
}

/// What becomes of an event that comes to grief.
proof fn failure_ends_the_event(
    manager: ManagerView,
    rest: Seq<Event>,
    dispatch: DispatchView,
    reception: Reception,
    n: nat,
    error: Error,
)
    requires
        manager.keyed(),
        rest.len() > 0,
        manager.dispatches(rest[0]),
        manager.fails_at(rest[0], reception, n, error),
        manager.next_event(dispatch.total, rest) == StepView::Acquire(dispatch),
    ensures
        seen_to(manager, dispatch, reception) == (
            manager.stopped_at(dispatch.entry, reception, n),
            StepView::Done(Err(error)),
        ),
{
    let after = AfterView::Events { total: dispatch.total, rest: dispatch.rest };
    match reception {
        Reception::Gone => {},
        Reception::Busy(outcome) => {
            let os_error = outcome->Err_0;
            unreachable_handler_is_dropped(manager, dispatch.total, rest, dispatch, os_error);
            assert(seq![outcome] =~= seq![Err(os_error)]);
            assert(ops_of(dispatch.entry, reception).take(0) =~= Seq::empty());
        },
        Reception::Told { replies, outcomes } => {
            let ops = replies.flatten();
            let handler = dispatch.entry.handler;
            answers_are_gathered(manager, dispatch, replies);
            match manager.applied_all(ops.take(n as int), handler).request_for(ops[n as int]) {
                Ok(_) => {
                    first_failure_ends_the_run(
                        manager,
                        handler,
                        ops,
                        after,
                        n,
                        error->Poll_0,
                    );
                },
                Err(_) => {
                    first_refusal_ends_the_run(manager, handler, ops, after, n, error);
                },
            }
        },
    }
}

/// Entries are under their own numbers at each turn.
proof fn turns_stay_keyed(
    manager: ManagerView,
    events: Seq<Event>,
    receptions: Seq<Reception>,
    i: int,
)
    requires
        manager.keyed(),
    ensures
        manager.at_turn(events, receptions, i).keyed(),
    decreases i,
{
    if i > 0 {
        let before = manager.at_turn(events, receptions, i - 1);
        let entry = before.handlers[event_source(events[i - 1].data)];
        turns_stay_keyed(manager, events, receptions, i - 1);
        applied_stays_keyed(before, ops_of(entry, receptions[i - 1]), entry.handler);
    }
}

/// Operations leave entries under their own numbers.
proof fn applied_stays_keyed(manager: ManagerView, ops: Seq<PollableOp>, handler: HandlerId)
    requires
        manager.keyed(),
    ensures
        manager.applied_all(ops, handler).keyed(),
    decreases ops.len(),
{
    if ops.len() > 0 {
        applied_stays_keyed(manager.applied(ops[0], handler), ops.skip(1), handler);
    }
}

/// However an event is received, only those after it are left.
pub proof fn seeing_to_shortens(
    manager: ManagerView,
    dispatch: DispatchView,
    reception: Reception,
)
    ensures
        events_left(seen_to(manager, dispatch, reception).1) < events_left(
            StepView::Acquire(dispatch),
        ),
{
    events_are_seen_to_once(manager, dispatch);
    match reception {
        Reception::Gone => {},
        Reception::Busy(outcome) => {
            driving_shortens(manager.busy(dispatch), seq![outcome]);
        },
        Reception::Told { replies, outcomes } => {
            conversing_shortens(manager.acquired(dispatch), replies);
            driving_shortens(converse(manager.acquired(dispatch), replies), outcomes);
        },
    }
}

/// Epoll's answers bring no event back.
proof fn driving_shortens(
    state: (ManagerView, StepView),
    outcomes: Seq<Result<(), OsError>>,
)
    ensures
        events_left(drive(state, outcomes).1) <= events_left(state.1),
    decreases outcomes.len(),
{
    if outcomes.len() > 0 {
        if let StepView::Control(request, batch) = state.1 {
            let next = state.0.controlled(batch, outcomes[0]);
            if let AfterView::Events { total, rest } = batch.after {
                next_event_shortens(state.0.confirmed(batch.ops[0], batch.handler), total, rest);
            }
            driving_shortens(next, outcomes.skip(1));
        }
    }
}

/// A handler's answers bring no event back.
proof fn conversing_shortens(state: (ManagerView, StepView), replies: Seq<Seq<PollableOp>>)
    ensures
        events_left(converse(state, replies).1) <= events_left(state.1),
    decreases replies.len(),
{
    if replies.len() > 0 {
        if let StepView::Call(call) = state.1 {
            next_event_shortens(state.0, call.total, call.rest);
            conversing_shortens(state.0.answered(call, replies[0]), replies.skip(1));
        }
    }
}

/// Whether an operation registers the descriptor with this number.
pub open spec fn registers(op: PollableOp, fd: i32) -> bool {
    op is Register && subject(op).spec_fd() == fd
}

/// Whether an event for `entry` that is received in this way ends the interest
/// in the descriptor with this number: by the handler's answer, unless that
/// goes on to begin it again, or because the handler cannot be reached.
pub open spec fn drops(entry: EventHandlerData, reception: Reception, fd: i32) -> bool {
    exists|k: int| drops_at(ops_of(entry, reception), fd, k)
}

/// Whether the `k`-th operation is the last word on the descriptor with this
/// number, and unregisters it.
pub open spec fn drops_at(ops: Seq<PollableOp>, fd: i32, k: int) -> bool {
    &&& 0 <= k < ops.len()
    &&& ops[k] is Unregister
    &&& subject(ops[k]).spec_fd() == fd
    &&& forall|l: int| k < l < ops.len() ==> !registers(#[trigger] ops[l], fd)
}

/// Whether an event that is received in this way begins no interest in the
/// descriptor with this number.
pub open spec fn leaves_out(reception: Reception, fd: i32) -> bool {
    match reception {
        Reception::Told { replies, .. } => forall|l: int|
            0 <= l < replies.flatten().len() ==> !registers(#[trigger] replies.flatten()[l], fd),
        _ => true,
    }
}

/// An event is looked up as the handlers are when its turn comes: if its
/// descriptor was unregistered earlier in the batch, and not registered again
/// since, then nobody is told of it, whatever becomes of the events after it.
pub proof fn unregistered_in_a_batch_is_not_told(
    manager: ManagerView,
    events: Seq<Event>,
    receptions: Seq<Reception>,
    i: int,
    j: int,
)
    requires
        manager.keyed(),
        events.len() <= usize::MAX,
        0 <= i < j < events.len(),
        manager.can_receive_first(events, receptions, j),
        manager.at_turn(events, receptions, i).dispatches(events[i]),
        drops(
            manager.turn(events, receptions, i).entry,
            receptions[i],
            event_source(events[j].data),
        ),
        forall|k: int|
            i < k < j ==> leaves_out(#[trigger] receptions[k], event_source(events[j].data)),
    ensures
        !manager.at_turn(events, receptions, j).dispatches(events[j]),
        ({
            let state = (manager, manager.next_event(events.len() as usize, events));
            forall|t: int|
                0 <= t < turns(state, receptions).len() ==> (#[trigger] turns(
                    state,
                    receptions,
                )[t]).rest.len() != events.len() - j - 1
        }),
{
    let fd = event_source(events[j].data);
    let before = manager.at_turn(events, receptions, i);
    let entry = manager.turn(events, receptions, i).entry;
    let k = choose|k: int| drops_at(ops_of(entry, receptions[i]), fd, k);
    dropped_by_operations(before, ops_of(entry, receptions[i]), entry.handler, fd, k);
    assert(!manager.at_turn(events, receptions, i + 1).handlers.contains_key(fd));
    stays_dropped(manager, events, receptions, fd, i + 1, j);

    let now = manager.at_turn(events, receptions, j);
    let state = (manager, manager.next_event(events.len() as usize, events));
    let earlier = manager.turns_of_first(events, receptions, j);
    let later = turns(manager.state_at(events, receptions, j), receptions);
    batch_goes_on(manager, events, receptions, j);
    assert(events.skip(0) =~= events);
    assert(events.skip(j).skip(1) =~= events.skip(j + 1));
    earlier_turns_have_more_left(manager, events, receptions, j);
    next_event_shortens(now, events.len() as usize, events.skip(j + 1));
    turns_have_fewer_left(manager.state_at(events, receptions, j), receptions);
    assert forall|t: int| 0 <= t < turns(state, receptions).len() implies (#[trigger] turns(
        state,
        receptions,
    )[t]).rest.len() != events.len() - j - 1 by {
        if t < earlier.len() {
            assert(turns(state, receptions)[t] == earlier[t]);
        } else {
            assert(turns(state, receptions)[t] == later[t - earlier.len()]);
        }
    }
}

/// The turns of the first events have all others left.
proof fn earlier_turns_have_more_left(
    manager: ManagerView,
    events: Seq<Event>,
    receptions: Seq<Reception>,
    n: int,
)
    requires
        0 <= n <= events.len(),
    ensures
        forall|t: int|
            0 <= t < manager.turns_of_first(events, receptions, n).len() ==> (
            #[trigger] manager.turns_of_first(events, receptions, n)[t]).rest.len()
                >= events.len() - n,
    decreases n,
{
    if n > 0 {
        let before = manager.turns_of_first(events, receptions, n - 1);
        earlier_turns_have_more_left(manager, events, receptions, n - 1);
        assert forall|t: int|
            0 <= t < manager.turns_of_first(events, receptions, n).len() implies (
        #[trigger] manager.turns_of_first(events, receptions, n)[t]).rest.len() >= events.len()
            - n by {
            if t < before.len() {
                assert(manager.turns_of_first(events, receptions, n)[t] == before[t]);
            }
        }
    }
}

/// The turns of a run have fewer events left than the run.
proof fn turns_have_fewer_left(state: (ManagerView, StepView), receptions: Seq<Reception>)
    ensures
        forall|t: int|
            0 <= t < turns(state, receptions).len() ==> (#[trigger] turns(
                state,
                receptions,
            )[t]).rest.len() < events_left(state.1),
    decreases events_left(state.1),
{
    if let StepView::Acquire(dispatch) = state.1 {
        let next = seen_to(state.0, dispatch, reception_of(dispatch, receptions));
        seeing_to_shortens(state.0, dispatch, reception_of(dispatch, receptions));
        turns_have_fewer_left(next, receptions);
        assert forall|t: int| 0 <= t < turns(state, receptions).len() implies (#[trigger] turns(
            state,
            receptions,
        )[t]).rest.len() < events_left(state.1) by {
            if t > 0 {
                assert(turns(state, receptions)[t] == turns(next, receptions)[t - 1]);
            }
        }
    }
}

/// A descriptor that is not watched and that no event begins an interest in is
/// not watched later.
proof fn stays_dropped(
    manager: ManagerView,
    events: Seq<Event>,
    receptions: Seq<Reception>,
    fd: i32,
    from: int,
    to: int,
)
    requires
        0 <= from <= to,
        !manager.at_turn(events, receptions, from).handlers.contains_key(fd),
        forall|k: int| from <= k < to ==> leaves_out(#[trigger] receptions[k], fd),
    ensures
        !manager.at_turn(events, receptions, to).handlers.contains_key(fd),
    decreases to - from,
{
    if from < to {
        stays_dropped(manager, events, receptions, fd, from, to - 1);
        let before = manager.at_turn(events, receptions, to - 1);
        assert(leaves_out(receptions[to - 1], fd));
        let entry = before.handlers[event_source(events[to - 1].data)];
        left_out_by_operations(before, ops_of(entry, receptions[to - 1]), entry.handler, fd);
    }
}

/// Operations that do not register a descriptor do not have it watched.
proof fn left_out_by_operations(
    manager: ManagerView,
    ops: Seq<PollableOp>,
    handler: HandlerId,
    fd: i32,
)
    requires
        !manager.handlers.contains_key(fd),
        forall|l: int| 0 <= l < ops.len() ==> !registers(#[trigger] ops[l], fd),
    ensures
        !manager.applied_all(ops, handler).handlers.contains_key(fd),
    decreases ops.len(),
{
    if ops.len() > 0 {
        let rest = ops.skip(1);
        assert(!registers(ops[0], fd));
        assert forall|l: int| 0 <= l < rest.len() implies !registers(#[trigger] rest[l], fd) by {
            assert(rest[l] == ops[l + 1]);
        }
        left_out_by_operations(manager.applied(ops[0], handler), rest, handler, fd);
    }
}

/// Operations whose last word on a descriptor is that it be unregistered do
/// not leave it watched.
proof fn dropped_by_operations(
    manager: ManagerView,
    ops: Seq<PollableOp>,
    handler: HandlerId,
    fd: i32,
    k: int,
)
    requires
        drops_at(ops, fd, k),
    ensures
        !manager.applied_all(ops, handler).handlers.contains_key(fd),
    decreases ops.len(),
{
    let rest = ops.skip(1);
    let next = manager.applied(ops[0], handler);
    if k == 0 {
        assert forall|l: int| 0 <= l < rest.len() implies !registers(#[trigger] rest[l], fd) by {
            assert(rest[l] == ops[l + 1]);
        }
        left_out_by_operations(next, rest, handler, fd);
    } else {
        assert(rest[k - 1] == ops[k]);
        assert forall|l: int| k - 1 < l < rest.len() implies !registers(
            #[trigger] rest[l],
            fd,
        ) by {
            assert(rest[l] == ops[l + 1]);
        }
        dropped_by_operations(next, rest, handler, fd, k - 1);
    }
}

/// Whether a step belongs to a run that `total` events were reported to.
pub open spec fn counts(step: StepView, total: usize) -> bool {
    match step {
        StepView::Control(_, batch) => batch.after matches AfterView::Events { total: t, .. } && t
            == total,
        StepView::Wait(_) => false,
        StepView::Acquire(dispatch) => dispatch.total == total,
        StepView::Call(call) => call.total == total,
        StepView::Done(Ok(done)) => done == Completion::Processed(total),
        StepView::Done(Err(_)) => true,
    }
}

/// A run begins with the count of the events that were reported.
pub proof fn count_is_taken(manager: ManagerView, total: usize, rest: Seq<Event>)
    ensures
        counts(manager.next_event(total, rest), total),
    decreases rest.len(),
{
    if rest.len() > 0 {
        count_is_taken(manager, total, rest.skip(1));
    }
}

/// A run keeps that count, whatever becomes of each event, whatever handlers
/// answer and whatever epoll does. So if it ends well, it reports how many
/// events there were.
pub proof fn count_is_kept(
    manager: ManagerView,
    total: usize,
    dispatch: DispatchView,
    call: CallView,
    ops: Seq<PollableOp>,
    request: ControlRequest,
    batch: BatchView,
    outcome: Result<(), OsError>,
)
    ensures
        counts(StepView::Acquire(dispatch), total) ==> {
            &&& counts(manager.gone(dispatch), total)
            &&& counts(manager.busy(dispatch).1, total)
            &&& counts(manager.acquired(dispatch).1, total)
        },
        counts(StepView::Call(call), total) ==> counts(manager.answered(call, ops).1, total),
        counts(StepView::Control(request, batch), total) ==> counts(
            manager.controlled(batch, outcome).1,
            total,
        ),
{
    count_is_taken(manager, dispatch.total, dispatch.rest);
    count_is_taken(manager, call.total, call.rest);
    if let AfterView::Events { total, rest } = batch.after {
        count_is_taken(manager.confirmed(batch.ops[0], batch.handler), total, rest);
    }
}

/// The epoll instance of a manager stays the same throughout.
pub proof fn instance_is_kept(
    manager: ManagerView,
    handler: HandlerId,
    ops: Seq<PollableOp>,
    after: AfterView,
    batch: BatchView,
    outcome: Result<(), OsError>,
    dispatch: DispatchView,
    call: CallView,
)
    ensures
        manager.start(handler, ops, after).0.fd == manager.fd,
        manager.controlled(batch, outcome).0.fd == manager.fd,
        manager.busy(dispatch).0.fd == manager.fd,
        manager.acquired(dispatch).0.fd == manager.fd,
        manager.answered(call, ops).0.fd == manager.fd,
{
}

/// What an epoll instance polls, by the descriptors it was given, once it has
/// done what it was asked for.
pub open spec fn polled_after(polled: Map<i32, Event>, request: ControlRequest) -> Map<
    i32,
    Event,
> {
    match request.op {
        ControlOp::Add => polled.insert(request.fd, request.event),
        ControlOp::Modify => polled.insert(request.fd, request.event),
        ControlOp::Delete => polled.remove(request.fd),
    }
}

/// Whether everything that is watched is polled, under the number that leads
/// back to its entry.
pub open spec fn in_step(manager: ManagerView, polled: Map<i32, Event>) -> bool {
    forall|id: i32| #[trigger]
        manager.handlers.contains_key(id) ==> {
            let duplicate = manager.handlers[id].data.0.spec_dup_fd();
            polled.contains_key(duplicate) && event_source(polled[duplicate].data) == id
        }
}

/// What epoll polls once it has done what an operation needs: the duplicate of
/// a descriptor that was registered or updated, for all of the interest and
/// nothing else, under the number that leads back to it; that of one that was
/// unregistered no longer; and all others as before.
pub proof fn interest_is_what_is_polled(
    manager: ManagerView,
    polled: Map<i32, Event>,
    op: PollableOp,
    data: EventRegistrationData,
    other: i32,
)
    requires
        manager.request_for(op) is Ok,
        op == PollableOp::Register(data) || op == PollableOp::Update(data) || op
            == PollableOp::Unregister(data),
    ensures
        ({
            let now = polled_after(polled, manager.request_for(op)->Ok_0);
            let duplicate = data.0.spec_dup_fd();
            &&& op is Unregister ==> !now.contains_key(duplicate)
            &&& !(op is Unregister) ==> {
                &&& now.contains_key(duplicate)
                &&& now[duplicate].data as i32 == data.0.spec_fd()
                &&& (now[duplicate].events & 0x1 != 0) == (data.1.spec_bits() & 0b001 != 0)
                &&& (now[duplicate].events & 0x4 != 0) == (data.1.spec_bits() & 0b010 != 0)
                &&& (now[duplicate].events & 0x2000 != 0) == (data.1.spec_bits() & 0b100 != 0)
                &&& now[duplicate].events & !0x2005u32 == 0
            }
            &&& other != duplicate ==> now.contains_key(other) == polled.contains_key(other)
                && now[other] == polled[other]
        }),
{
    mask_is_the_interest(data.1);
    event_data_round_trip(data.0.spec_fd());
}

/// If everything that is watched is polled, then it still is after an
/// operation that epoll carries out, and also if epoll fails to. Of the
/// operation this is needed: its duplicate is the one that the descriptor is
/// watched by, if it is watched, and that of no other.
pub proof fn operations_keep_in_step(
    manager: ManagerView,
    polled: Map<i32, Event>,
    op: PollableOp,
    handler: HandlerId,
)
    requires
        in_step(manager, polled),
        manager.request_for(op) is Ok,
        forall|id: i32| #[trigger]
            manager.handlers.contains_key(id) ==> (manager.handlers[id].data.0.spec_dup_fd()
                == subject(op).spec_dup_fd() <==> id == subject(op).spec_fd()),
    ensures
        in_step(manager.applied(op, handler), polled_after(polled, manager.request_for(op)->Ok_0)),
        in_step(manager.asked(op), polled),
{
    event_data_round_trip(subject(op).spec_fd());
    let after = manager.applied(op, handler);
    assert forall|id: i32| #[trigger] after.handlers.contains_key(id) implies ({
        let duplicate = after.handlers[id].data.0.spec_dup_fd();
        let now = polled_after(polled, manager.request_for(op)->Ok_0);
        now.contains_key(duplicate) && event_source(now[duplicate].data) == id
    }) by {
        if id != subject(op).spec_fd() {
            assert(manager.handlers.contains_key(id));
        }
    }
    assert forall|id: i32| #[trigger] manager.asked(op).handlers.contains_key(id) implies ({
        let duplicate = manager.asked(op).handlers[id].data.0.spec_dup_fd();
        polled.contains_key(duplicate) && event_source(polled[duplicate].data) == id
    }) by {
        assert(manager.handlers.contains_key(id));
    }
}

/// Whether no two clients share a descriptor.
pub open spec fn distinct_clients(clients: Seq<ClientView>) -> bool {
    forall|i: int, j: int|
        0 <= i < j < clients.len() ==> (#[trigger] clients[i]).fd != (#[trigger] clients[j]).fd
}

/// The first client with a descriptor is found if and only if there is one,
/// and there is only one such client.
pub proof fn client_is_found(clients: Seq<ClientView>, fd: i32, i: int, j: int)
    ensures
        has_client(clients, fd) == (exists|k: int| is_first(clients, fd, k)),
        is_first(clients, fd, i) && is_first(clients, fd, j) ==> i == j,
{
    if has_client(clients, fd) {
        let k = choose|k: int| 0 <= k < clients.len() && (#[trigger] clients[k]).fd == fd;
        first_is_found(clients, fd, k);
    }
}

/// Where there is a client with a descriptor, there is a first one.
proof fn first_is_found(clients: Seq<ClientView>, fd: i32, k: int)
    requires
        0 <= k < clients.len(),
        clients[k].fd == fd,
    ensures
        exists|i: int| is_first(clients, fd, i),
    decreases k,
{
    if forall|j: int| 0 <= j < k ==> (#[trigger] clients[j]).fd != fd {
        assert(is_first(clients, fd, k));
    } else {
        let j = choose|j: int| 0 <= j < k && (#[trigger] clients[j]).fd == fd;
        first_is_found(clients, fd, j);
    }
}

/// A client that has connected under a new descriptor is the one that this
/// descriptor leads to, and it leaves the others their own descriptors.
pub proof fn newcomer_is_found(clients: Seq<ClientView>, newcomer: ClientView)
    requires
        distinct_clients(clients),
        !has_client(clients, newcomer.fd),
    ensures
        is_first(clients.push(newcomer), newcomer.fd, clients.len() as int),
        distinct_clients(clients.push(newcomer)),
        forall|fd: i32, i: int| #[trigger]
            is_first(clients, fd, i) ==> is_first(clients.push(newcomer), fd, i),
{
    let after = clients.push(newcomer);
    assert forall|i: int, j: int| 0 <= i < j < after.len() implies (#[trigger] after[i]).fd != (
    #[trigger] after[j]).fd by {
        assert(after[i] == clients[i]);
    }
    assert forall|fd: i32, i: int| #[trigger] is_first(clients, fd, i) implies is_first(
        after,
        fd,
        i,
    ) by {
        assert forall|j: int| 0 <= j < i implies (#[trigger] after[j]).fd != fd by {
            assert(after[j] == clients[j]);
        }
    }
    assert forall|j: int| 0 <= j < clients.len() implies (#[trigger] after[j]).fd
        != newcomer.fd by {
        assert(after[j] == clients[j]);
    }
}

/// After a client has left, its descriptor leads to nobody, and all others are
/// still there.
pub proof fn leaver_is_gone(clients: Seq<ClientView>, fd: i32, i: int)
    requires
        distinct_clients(clients),
        is_first(clients, fd, i),
    ensures
        !has_client(clients.remove(i), fd),
        distinct_clients(clients.remove(i)),
        forall|other: i32|
            other != fd ==> #[trigger] has_client(clients.remove(i), other) == has_client(
                clients,
                other,
            ),
{
    let after = clients.remove(i);
    assert forall|j: int| 0 <= j < after.len() implies (#[trigger] after[j]).fd != fd by {
        if j < i {
            assert(after[j] == clients[j]);
        } else {
            assert(after[j] == clients[j + 1]);
        }
    }
    assert forall|j: int, k: int| 0 <= j < k < after.len() implies (#[trigger] after[j]).fd != (
    #[trigger] after[k]).fd by {
        let p = if j < i {
            j
        } else {
            j + 1
        };
        let q = if k < i {
            k
        } else {
            k + 1
        };
        assert(after[j] == clients[p]);
        assert(after[k] == clients[q]);
    }
    assert forall|other: i32| other != fd implies #[trigger] has_client(after, other)
        == has_client(clients, other) by {
        if has_client(after, other) {
            let j = choose|j: int| 0 <= j < after.len() && (#[trigger] after[j]).fd == other;
            let p = if j < i {
                j
            } else {
                j + 1
            };
            assert(clients[p].fd == other);
        }
        if has_client(clients, other) {
            let p = choose|p: int| 0 <= p < clients.len() && (#[trigger] clients[p]).fd == other;
            let j = if p < i {
                p
            } else {
                p - 1
            };
            assert(after[j].fd == other);
        }
    }
}

/// A client that connects and leaves again leaves the others as they were.
pub proof fn leaving_undoes_connecting(clients: Seq<ClientView>, newcomer: ClientView, i: int)
    requires
        !has_client(clients, newcomer.fd),
        is_first(clients.push(newcomer), newcomer.fd, i),
    ensures
        clients.push(newcomer).remove(i) == clients,
{
    let after = clients.push(newcomer);
    if i < clients.len() {
        assert(clients[i].fd == after[i].fd);
    }
    assert(after.remove(i) =~= clients);
}

/// What a client says goes out once for each client, itself among them, and is
/// counted once for each; what it sent is counted once.
pub proof fn every_client_is_told(server: ServerView, client: int, count: int, text: Seq<char>)
    requires
        0 <= client < server.clients.len(),
        count >= 0,
        server.has_room(client, count, text),
    ensures
        descriptors(server.clients).len() == server.clients.len(),
        descriptors(server.clients).contains(server.clients[client].fd),
        server.relayed(client, count, text).clients == server.clients,
        server.relayed(client, count, text).rx == server.rx + count,
        server.relayed(client, count, text).tx == server.tx + descriptors(server.clients).len()
            * encode_utf8(said(server.clients[client].addr, text)).len(),
{
    assert(descriptors(server.clients)[client] == server.clients[client].fd);
}

/// Each client has its descriptor in its own place among those that a message
/// goes to, and there are no others.
pub proof fn recipients_are_the_clients(clients: Seq<ClientView>)
    ensures
        descriptors(clients).len() == clients.len(),
        forall|i: int|
            0 <= i < clients.len() ==> #[trigger] descriptors(clients)[i] == clients[i].fd,
{
}

/// A descriptor leads to the earliest client that has it, and to nobody if none
/// has.
pub proof fn descriptor_leads_to_the_earliest(clients: Seq<ClientView>, fd: i32, i: int)
    ensures
        has_client(clients, fd) == descriptors(clients).contains(fd),
        0 <= i < clients.len() ==> is_first(clients, fd, i) == (clients[i].fd == fd
            && !descriptors(clients).take(i).contains(fd)),
        is_first(clients, fd, i) ==> 0 <= i < clients.len(),
{
    let all = descriptors(clients);
    if has_client(clients, fd) {
        let k = choose|k: int| 0 <= k < clients.len() && (#[trigger] clients[k]).fd == fd;
        assert(all[k] == fd);
    }
    if all.contains(fd) {
        let k = choose|k: int| 0 <= k < all.len() && all[k] == fd;
        assert(clients[k].fd == fd);
    }
    if 0 <= i < clients.len() {
        let earlier = all.take(i);
        if is_first(clients, fd, i) && earlier.contains(fd) {
            let k = choose|k: int| 0 <= k < earlier.len() && earlier[k] == fd;
            assert(clients[k].fd == fd);
        }
        if !earlier.contains(fd) {
            assert forall|j: int| 0 <= j < i implies (#[trigger] clients[j]).fd != fd by {
                assert(earlier[j] == clients[j].fd);
            }
        }
    }
}

/// A message begins with the address of the client who said it, ends with what
/// was said, and has one word and two spaces in between.
pub proof fn message_is_put_together(addr: Seq<char>, text: Seq<char>)
    ensures
        said(addr, text).len() == addr.len() + 6 + text.len(),
        said(addr, text).take(addr.len() as int) == addr,
        said(addr, text).subrange(addr.len() as int, addr.len() + 6int) == seq![
            ' ',
            's',
            'a',
            'i',
            'd',
            ' ',
        ],
        said(addr, text).skip(addr.len() + 6int) == text,
{
    reveal_strlit(" said ");
    let message = said(addr, text);
    assert(message.take(addr.len() as int) =~= addr);
    assert(message.subrange(addr.len() as int, addr.len() + 6int) =~= seq![
        ' ',
        's',
        'a',
        'i',
        'd',
        ' ',
    ]);
    assert(message.skip(addr.len() + 6int) =~= text);
}

/// A message takes six bytes more than the address and what was said do by
/// themselves.
pub proof fn message_length_in_bytes(addr: Seq<char>, text: Seq<char>)
    ensures
        encode_utf8(said(addr, text)).len() == encode_utf8(addr).len() + 6 + encode_utf8(
            text,
        ).len(),
{
    reveal_strlit(" said ");
    encoding_splits(addr + " said "@, text);
    encoding_splits(addr, " said "@);
    reveal_with_fuel(encode_utf8, 7);
}

/// Texts can be encoded one after the other.
proof fn encoding_splits(first: Seq<char>, second: Seq<char>)
    ensures
        encode_utf8(first + second) == encode_utf8(first) + encode_utf8(second),
    decreases first.len(),
{
    if first.len() == 0 {
        assert(first + second =~= second);
    } else {
        encoding_splits(first.drop_first(), second);
        assert((first + second).drop_first() =~= first.drop_first() + second);
    }
    assert(encode_utf8(first + second) =~= encode_utf8(first) + encode_utf8(second));
}

/// There is room for what a client has sent if and only if neither count would
/// grow beyond 64 bits: that of what was received by the bytes of it, and that
/// of what was sent by the bytes of the message, once for each client.
pub proof fn room_is_there_if_the_counts_fit(
    server: ServerView,
    client: int,
    count: int,
    text: Seq<char>,
)
    ensures
        server.has_room(client, count, text) == (server.rx + count <= 0xffff_ffff_ffff_ffff
            && server.tx + server.clients.len() * (encode_utf8(server.clients[client].addr).len()
            + 6 + encode_utf8(text).len()) <= 0xffff_ffff_ffff_ffff),
{
    message_length_in_bytes(server.clients[client].addr, text);
}

/// What is passed on is counted in full, if there is room for it: what was
/// received once, and the message once for each client. All else stays as it
/// was.
pub proof fn counts_grow_by_what_is_passed_on(
    server: ServerView,
    client: int,
    count: int,
    text: Seq<char>,
)
    requires
        count >= 0,
        server.rx + count <= 0xffff_ffff_ffff_ffff,
        server.tx + server.clients.len() * (encode_utf8(server.clients[client].addr).len() + 6
            + encode_utf8(text).len()) <= 0xffff_ffff_ffff_ffff,
    ensures
        server.relayed(client, count, text).rx == server.rx + count,
        server.relayed(client, count, text).tx == server.tx + server.clients.len() * (encode_utf8(
            server.clients[client].addr,
        ).len() + 6 + encode_utf8(text).len()),
        server.relayed(client, count, text).clients == server.clients,
        server.relayed(client, count, text).listener == server.listener,
{
    message_length_in_bytes(server.clients[client].addr, text);
}

/// Text that is sent as UTF-8 is passed on by the very bytes that were sent,
/// after those of the address and of the word in between.
pub proof fn valid_text_is_passed_on_by_its_bytes(addr: Seq<char>, data: Seq<u8>)
    requires
        valid_utf8(data),
    ensures
        encode_utf8(said(addr, decode_utf8(data))).len() == encode_utf8(addr).len() + 6
            + data.len(),
        encode_utf8(said(addr, decode_utf8(data))).skip(encode_utf8(addr).len() + 6int) == data,
{
    let text = decode_utf8(data);
    let message = encode_utf8(said(addr, text));
    decode_utf8_encode_utf8(data);
    message_length_in_bytes(addr, text);
    encoding_splits(addr + " said "@, text);
    assert(message.skip(encode_utf8(addr).len() + 6int) =~= data);
}

/// A greeting names whom it greets.
pub proof fn greeting_names_the_client(addr: Seq<char>)
    ensures
        greeting(addr).len() == addr.len() + 42,
        greeting(addr).take(8) == "Welcome "@,
        greeting(addr).subrange(8, addr.len() + 8int) == addr,
        greeting(addr).skip(addr.len() + 8int) == " to the example Polly chatserver\r\n"@,
{
    reveal_strlit("Welcome ");
    reveal_strlit(" to the example Polly chatserver\r\n");
    assert(greeting(addr).take(8) =~= "Welcome "@);
    assert(greeting(addr).subrange(8, addr.len() + 8int) =~= addr);
    assert(greeting(addr).skip(addr.len() + 8int) =~= " to the example Polly chatserver\r\n"@);
}

/// The operations that follow when a client has left take its descriptor, and
/// no other, off a manager that watches it.
pub proof fn departure_ends_the_interest(
    manager: ManagerView,
    handler: HandlerId,
    ops: Seq<PollableOp>,
    source: Pollable,
)
    requires
        ends_interest(ops, source),
        manager.handlers.contains_key(source.spec_fd()),
    ensures
        ({
            let asked = manager.start(handler, ops, AfterView::Return);
            let (done, step) = drive(asked, seq![Ok(())]);
            &&& asked.1 matches StepView::Control(request, _) && request.op == ControlOp::Delete
                && request.fd == source.spec_dup_fd() && request.epfd == manager.fd.spec_fd()
            &&& done.fd == manager.fd
            &&& done.handlers == manager.handlers.remove(source.spec_fd())
            &&& step == StepView::Done(Ok(Completion::Updated))
        }),
{
    let data = ops[0]->Unregister_0;
    assert(ops =~= seq![PollableOp::Unregister(data)]);
    single_operation_takes_effect(manager, handler, data, OsError { code: 0 });
}

/// The number that a text of decimal digits stands for.
pub open spec fn number_of(text: Seq<char>) -> int
    decreases text.len(),
{
    if text.len() == 0 {
        0
    } else {
        10 * number_of(text.drop_last()) + (text.last() as int - '0' as int)
    }
}

/// A number in decimal reads back as that number. It consists of digits alone,
/// and does not begin with a zero unless that is all.
pub proof fn decimal_reads_back(n: nat)
    ensures
        number_of(decimal(n)) == n,
        decimal(n).len() > 0,
        decimal(n)[0] == '0' ==> n == 0 && decimal(n).len() == 1,
        forall|i: int| 0 <= i < decimal(n).len() ==> '0' <= #[trigger] decimal(n)[i] <= '9',
    decreases n,
{
    let text = decimal(n);
    if n < 10 {
        assert(text.drop_last() =~= Seq::empty());
        assert(number_of(text.drop_last()) == 0);
    } else {
        decimal_reads_back(n / 10);
        assert(text.drop_last() =~= decimal(n / 10));
        assert(text[0] == decimal(n / 10)[0]);
        assert forall|i: int| 0 <= i < text.len() implies '0' <= #[trigger] text[i] <= '9' by {
            if i < text.len() - 1 {
                assert(text[i] == decimal(n / 10)[i]);
            }
        }
    }
}

/// A negative number has a sign before its digits, and no other has one.
pub proof fn signed_decimal_reads_back(n: int)
    ensures
        n < 0 ==> signed_decimal(n)[0] == '-' && number_of(signed_decimal(n).skip(1)) == -n,
        n >= 0 ==> signed_decimal(n)[0] != '-' && number_of(signed_decimal(n)) == n,
        n < 0 ==> signed_decimal(n).skip(1) == decimal((-n) as nat),
        n >= 0 ==> signed_decimal(n) == decimal(n as nat),
{
    if n < 0 {
        decimal_reads_back((-n) as nat);
        assert(signed_decimal(n).skip(1) =~= decimal((-n) as nat));
    } else {
        decimal_reads_back(n as nat);
    }
}

/// What a server reports reads back as its two counts, and a server listens on
/// the port that it is given, on the machine itself.
pub proof fn reports_read_back(rx: u64, tx: u64, port: u16)
    ensures
        ({
            let text = stats_text(rx, tx);
            let middle = 10int + decimal(rx as nat).len();
            &&& text.take(10) == "Total Rx: "@
            &&& number_of(text.subrange(10, middle)) == rx
            &&& text.subrange(middle, middle + 12) == ", total Tx: "@
            &&& number_of(text.skip(middle + 12)) == tx
        }),
        address_text(port).take(10) == "127.0.0.1:"@,
        number_of(address_text(port).skip(10)) == port,
{
    reveal_strlit("Total Rx: ");
    reveal_strlit(", total Tx: ");
    reveal_strlit("127.0.0.1:");
    decimal_reads_back(rx as nat);
    decimal_reads_back(tx as nat);
    decimal_reads_back(port as nat);
    let text = stats_text(rx, tx);
    let middle = 10int + decimal(rx as nat).len();
    assert(text.take(10) =~= "Total Rx: "@);
    assert(text.subrange(10, middle) =~= decimal(rx as nat));
    assert(text.subrange(middle, middle + 12) =~= ", total Tx: "@);
    assert(text.skip(middle + 12) =~= decimal(tx as nat));
    assert(address_text(port).take(10) =~= "127.0.0.1:"@);
    assert(address_text(port).skip(10) =~= decimal(port as nat));
}

/// The text of an error says which it is. That of a failed call to epoll ends
/// with the system's own words, and that of a descriptor that was not found
/// holds its number.
pub proof fn errors_say_what_they_are(os_error: Seq<char>, code: OsError, pollable: Pollable)
    ensures
        error_text(Error::EpollCreate, os_error) == "Unable to create epoll fd."@,
        error_text(Error::AlreadyExists, os_error)
            == "A handler for the specified pollable already exists"@,
        ({
            let text = error_text(Error::Poll(code), os_error);
            &&& text.take(25) == "Error during epoll call: "@
            &&& text.skip(25) == os_error
        }),
        ({
            let text = error_text(Error::PollableNotFound(pollable), os_error);
            let number = signed_decimal(pollable.spec_fd() as int);
            &&& text.len() == 37 + number.len() + 14
            &&& text.take(37) == "A handler for the specified pollable "@
            &&& text.subrange(37, 37int + number.len()) == number
            &&& text.skip(37int + number.len()) == " was not found"@
        }),
{
    reveal_strlit("Error during epoll call: ");
    reveal_strlit("A handler for the specified pollable ");
    reveal_strlit(" was not found");
    let failed = error_text(Error::Poll(code), os_error);
    assert(failed.take(25) =~= "Error during epoll call: "@);
    assert(failed.skip(25) =~= os_error);
    let missing = error_text(Error::PollableNotFound(pollable), os_error);
    let number = signed_decimal(pollable.spec_fd() as int);
    assert(missing.take(37) =~= "A handler for the specified pollable "@);
    assert(missing.subrange(37, 37int + number.len()) =~= number);
    assert(missing.skip(37int + number.len()) =~= " was not found"@);
}

/// Two descriptors are equal if and only if they are known by the same number.
pub proof fn equality_is_by_number(a: OwnedFD, b: OwnedFD)
    ensures
        OwnedFD::obeys_eq_spec(),
        a.eq_spec(&b) == (a.spec_fd() == b.spec_fd()),
{
}

} // verus!
