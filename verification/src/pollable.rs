//! Descriptors that can be polled, what they can be polled for, and the
//! operations that begin, change and end such an interest.
use crate::readiness::has_flags;
use crate::text::{push_signed_decimal, signed_decimal};
use std::rc::Rc;
use vstd::prelude::*;
use vstd::string::*;

verus! {

/// An error of the operating system, by its number.
#[derive(Clone, Copy, Debug, PartialEq, Eq, Structural)]
pub struct OsError {
    pub code: i32,
}

/// A set of kinds of readiness, one bit for each.
#[derive(Clone, Copy, Debug, PartialEq, Eq, PartialOrd, Ord, Hash, Structural)]
pub struct EventType {
    bits: u32,
}

impl EventType {
    pub const NONE: u32 = 0b00000000;

    pub const READ: u32 = 0b00000001;

    pub const WRITE: u32 = 0b00000010;

    pub const CLOSE: u32 = 0b00000100;

    /// The bits of the set.
    pub closed spec fn spec_bits(self) -> u32 {
        self.bits
    }

    /// No bit is set but those of the three kinds.
    pub open spec fn valid(self) -> bool {
        self.spec_bits() <= 7
    }

    /// Whether the set asks for data to read.
    pub open spec fn asks_read(self) -> bool {
        has_flags(self.spec_bits(), EventType::READ)
    }

    /// Whether the set asks for room to write.
    pub open spec fn asks_write(self) -> bool {
        has_flags(self.spec_bits(), EventType::WRITE)
    }

    /// Whether the set asks for the other side's closing.
    pub open spec fn asks_close(self) -> bool {
        has_flags(self.spec_bits(), EventType::CLOSE)
    }

    /// The empty set.
    pub fn none() -> (r: EventType)
        ensures
            r.spec_bits() == EventType::NONE,
    {
        EventType { bits: EventType::NONE }
    }

    /// The set that asks for data to read.
    pub fn read() -> (r: EventType)
        ensures
            r.spec_bits() == EventType::READ,
    {
        EventType { bits: EventType::READ }
    }

    /// The set that asks for room to write.
    pub fn write() -> (r: EventType)
        ensures
            r.spec_bits() == EventType::WRITE,
    {
        EventType { bits: EventType::WRITE }
    }

    /// The set that asks for the other side's closing.
    pub fn close() -> (r: EventType)
        ensures
            r.spec_bits() == EventType::CLOSE,
    {
        EventType { bits: EventType::CLOSE }
    }

    /// The bits of the set.
    pub fn bits(&self) -> (bits: u32)
        ensures
            bits == self.spec_bits(),
    {
        self.bits
    }

    /// Whether every kind in `other` is in the set.
    pub fn contains(&self, other: EventType) -> (r: bool)
        ensures
            r == has_flags(self.spec_bits(), other.spec_bits()),
    {
        crate::readiness::contains(self.bits, other.bits)
    }

    /// The kinds in either of two sets.
    pub fn union(self, other: EventType) -> (r: EventType)
        ensures
            r.spec_bits() == self.spec_bits() | other.spec_bits(),
            self.valid() && other.valid() ==> r.valid(),
    {
        proof {
            let a = self.bits;
            let b = other.bits;
            assert(a <= 7 && b <= 7 ==> a | b <= 7) by (bit_vector);
        }
        EventType { bits: self.bits | other.bits }
    }

    /// Whether the set asks for data to read.
    pub fn readable(&self) -> (r: bool)
        ensures
            r == self.asks_read(),
    {
        self.contains(EventType::read())
    }

    /// Whether the set asks for room to write.
    pub fn writeable(&self) -> (r: bool)
        ensures
            r == self.asks_write(),
    {
        self.contains(EventType::write())
    }

    /// Whether the set asks for the other side's closing.
    pub fn closed(&self) -> (r: bool)
        ensures
            r == self.asks_close(),
    {
        self.contains(EventType::close())
    }
}

impl Default for EventType {
    fn default() -> (r: EventType)
        ensures
            r.spec_bits() == EventType::NONE,
    {
        EventType::none()
    }
}

/// A descriptor to watch: the one that a handler knows it by, and a duplicate
/// of it that is polled in its place.
///
/// The duplicate stays open when the original is closed, so that it can still
/// be taken off an epoll instance then.
#[derive(Clone, Debug)]
pub struct OwnedFD {
    fd: i32,
    dup_fd: i32,
}

impl Default for OwnedFD {
    fn default() -> (r: OwnedFD)
        ensures
            r.spec_fd() == 0,
            r.spec_dup_fd() == 0,
    {
        OwnedFD { fd: 0, dup_fd: 0 }
    }
}

impl PartialEq for OwnedFD {
    /// Two descriptors are equal if they are known by the same number.
    fn eq(&self, other: &OwnedFD) -> (r: bool) {
        self.fd == other.fd
    }
}

impl vstd::std_specs::cmp::PartialEqSpecImpl for OwnedFD {
    open spec fn obeys_eq_spec() -> bool {
        true
    }

    open spec fn eq_spec(&self, other: &OwnedFD) -> bool {
        self.spec_fd() == other.spec_fd()
    }
}

impl std::ops::Deref for OwnedFD {
    type Target = i32;

    /// The number of the descriptor that identifies this one.
    fn deref(&self) -> (r: &i32)
        ensures
            *r == self.spec_fd(),
    {
        &self.fd
    }
}

/// A descriptor to watch, shared by all who refer to it.
pub type Pollable = Rc<OwnedFD>;

/// A descriptor to watch, and what to watch it for.
pub type EventRegistrationData = (Pollable, EventType);

/// `Rc::clone`: one more reference to the same descriptor.
#[verifier::external_body]
pub(crate) fn share(pollable: &Pollable) -> (r: Pollable)
    ensures
        r == *pollable,
{
    pollable.clone()
}

impl OwnedFD {
    /// The descriptor that identifies this one.
    pub closed spec fn spec_fd(&self) -> i32 {
        self.fd
    }

    /// The duplicate that is polled.
    pub closed spec fn spec_dup_fd(&self) -> i32 {
        self.dup_fd
    }

    /// What the system's answer to a request for a duplicate amounts to: a
    /// descriptor, unless it is negative.
    fn dup(returned: i32, last_os_error: OsError) -> (r: Result<i32, OsError>)
        ensures
            r == (if returned < 0 {
                Err::<i32, OsError>(last_os_error)
            } else {
                Ok(returned)
            }),
    {
        if returned < 0 {
            Err(last_os_error)
        } else {
            Ok(returned)
        }
    }

    /// The descriptor `rawfd`, for which the system was asked for a duplicate
    /// and gave the answer `returned`. The error that it last reported counts
    /// only if that answer is negative.
    pub fn from_unowned(rawfd: i32, returned: i32, last_os_error: OsError) -> (r: Result<
        Pollable,
        OsError,
    >)
        ensures
            match r {
                Ok(pollable) => returned >= 0 && pollable.spec_fd() == rawfd
                    && pollable.spec_dup_fd() == returned,
                Err(error) => returned < 0 && error == last_os_error,
            },
    {
        match OwnedFD::dup(returned, last_os_error) {
            Ok(dup_fd) => Ok(Rc::new(OwnedFD { fd: rawfd, dup_fd })),
            Err(error) => Err(error),
        }
    }

    /// The descriptor of something that goes on using it, by the same rule as
    /// [`OwnedFD::from_unowned`].
    pub fn from(rawfd: i32, returned: i32, last_os_error: OsError) -> (r: Result<
        Pollable,
        OsError,
    >)
        ensures
            match r {
                Ok(pollable) => returned >= 0 && pollable.spec_fd() == rawfd
                    && pollable.spec_dup_fd() == returned,
                Err(error) => returned < 0 && error == last_os_error,
            },
    {
        match OwnedFD::dup(returned, last_os_error) {
            Ok(dup_fd) => Ok(Rc::new(OwnedFD { fd: rawfd, dup_fd })),
            Err(error) => Err(error),
        }
    }

    /// The descriptor that identifies this one.
    pub fn as_raw_fd(&self) -> (fd: i32)
        ensures
            fd == self.spec_fd(),
    {
        self.fd
    }

    /// The duplicate that is polled.
    pub fn dup_fd(&self) -> (fd: i32)
        ensures
            fd == self.spec_dup_fd(),
    {
        self.dup_fd
    }

    /// The number of the descriptor, in decimal.
    pub fn display(&self) -> (text: String)
        ensures
            text@ == signed_decimal(self.spec_fd() as int),
    {
        let mut text = String::new();
        push_signed_decimal(&mut text, self.fd);
        assert(text@ =~= signed_decimal(self.fd as int));
        text
    }
}

/// What a handler asks to be done with a descriptor.
#[derive(PartialEq)]
pub enum PollableOp {
    /// Watch it, and tell the handler.
    Register(EventRegistrationData),
    /// Watch it no longer.
    Unregister(EventRegistrationData),
    /// Watch it for something else.
    Update(EventRegistrationData),
}

/// Puts an operation together: a descriptor, then what to watch it for, then
/// what to do.
pub struct PollableOpBuilder {
    fd: Pollable,
    event_mask: EventType,
}

impl PollableOpBuilder {
    /// The descriptor that the operation will be about.
    pub closed spec fn spec_fd(self) -> Pollable {
        self.fd
    }

    /// What has been asked for so far.
    pub closed spec fn spec_event_mask(self) -> EventType {
        self.event_mask
    }

    /// An operation on `fd` that asks for nothing yet.
    pub fn new(fd: Pollable) -> (r: PollableOpBuilder)
        ensures
            r.spec_fd() == fd,
            r.spec_event_mask().spec_bits() == EventType::NONE,
    {
        PollableOpBuilder { fd, event_mask: EventType::none() }
    }

    /// Asks for data to read.
    pub fn readable<'a>(&'a mut self) -> (r: &'a mut PollableOpBuilder)
        ensures
            r.spec_fd() == old(self).spec_fd(),
            r.spec_event_mask().spec_bits() == old(self).spec_event_mask().spec_bits()
                | EventType::READ,
            old(self).spec_event_mask().valid() ==> r.spec_event_mask().valid(),
            *final(self) == *final(r),
    {
        self.event_mask = self.event_mask.union(EventType::read());
        self
    }

    /// Asks for room to write.
    pub fn writeable<'a>(&'a mut self) -> (r: &'a mut PollableOpBuilder)
        ensures
            r.spec_fd() == old(self).spec_fd(),
            r.spec_event_mask().spec_bits() == old(self).spec_event_mask().spec_bits()
                | EventType::WRITE,
            old(self).spec_event_mask().valid() ==> r.spec_event_mask().valid(),
            *final(self) == *final(r),
    {
        self.event_mask = self.event_mask.union(EventType::write());
        self
    }

    /// Asks for the other side's closing.
    pub fn closeable<'a>(&'a mut self) -> (r: &'a mut PollableOpBuilder)
        ensures
            r.spec_fd() == old(self).spec_fd(),
            r.spec_event_mask().spec_bits() == old(self).spec_event_mask().spec_bits()
                | EventType::CLOSE,
            old(self).spec_event_mask().valid() ==> r.spec_event_mask().valid(),
            *final(self) == *final(r),
    {
        self.event_mask = self.event_mask.union(EventType::close());
        self
    }

    /// The operation that begins the interest.
    pub fn register(&self) -> (op: PollableOp)
        ensures
            op == PollableOp::Register((self.spec_fd(), self.spec_event_mask())),
    {
        PollableOp::Register((share(&self.fd), self.event_mask))
    }

    /// The operation that ends the interest.
    pub fn unregister(&self) -> (op: PollableOp)
        ensures
            op == PollableOp::Unregister((self.spec_fd(), self.spec_event_mask())),
    {
        PollableOp::Unregister((share(&self.fd), self.event_mask))
    }

    /// The operation that changes the interest.
    pub fn update(&self) -> (op: PollableOp)
        ensures
            op == PollableOp::Update((self.spec_fd(), self.spec_event_mask())),
    {
        PollableOp::Update((share(&self.fd), self.event_mask))
    }
}

} // verus!
