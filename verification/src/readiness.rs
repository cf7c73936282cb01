//! The bits by which epoll names what a descriptor is ready for.
use vstd::prelude::*;

verus! {

/// A descriptor has something to read.
pub open spec fn in_bit() -> u32 {
    0x1
}

/// A descriptor can be written to.
pub open spec fn out_bit() -> u32 {
    0x4
}

/// A descriptor has failed.
pub open spec fn err_bit() -> u32 {
    0x8
}

/// The other side of a stream has closed it, or its writing half.
pub open spec fn rdhup_bit() -> u32 {
    0x2000
}

/// Every bit that has a name: besides the four above, urgent data (`0x2`),
/// hang-up (`0x10`), and the four highest bits, which ask for exclusive,
/// wake-up, one-shot and edge-triggered reports.
pub open spec fn named_bits() -> u32 {
    0xf000_201f
}

/// Whether every bit of `flag` is set in `flags`.
pub open spec fn has_flags(flags: u32, flag: u32) -> bool {
    flags & flag == flag
}

/// Whether every bit that is set has a name.
pub open spec fn all_named(bits: u32) -> bool {
    bits & !named_bits() == 0
}

/// Whether every bit of `flag` is set in `flags`.
pub fn contains(flags: u32, flag: u32) -> (r: bool)
    ensures
        r == has_flags(flags, flag),
{
    flags & flag == flag
}

/// `epoll::Events::EPOLLIN`, by its bits: bit 0.
#[verifier::external_body]
pub(crate) fn epollin() -> (bits: u32)
    ensures
        bits == in_bit(),
{
    epoll::Events::EPOLLIN.bits()
}

/// `epoll::Events::EPOLLOUT`, by its bits: bit 2.
#[verifier::external_body]
pub(crate) fn epollout() -> (bits: u32)
    ensures
        bits == out_bit(),
{
    epoll::Events::EPOLLOUT.bits()
}

/// `epoll::Events::EPOLLERR`, by its bits: bit 3.
#[verifier::external_body]
pub(crate) fn epollerr() -> (bits: u32)
    ensures
        bits == err_bit(),
{
    epoll::Events::EPOLLERR.bits()
}

/// `epoll::Events::EPOLLRDHUP`, by its bits: bit 13.
#[verifier::external_body]
pub(crate) fn epollrdhup() -> (bits: u32)
    ensures
        bits == rdhup_bit(),
{
    epoll::Events::EPOLLRDHUP.bits()
}

/// `epoll::Events::from_bits`: the set with exactly these bits, given back by
/// its bits, or nothing where a bit is set that has no name.
#[verifier::external_body]
pub(crate) fn events_from_bits(bits: u32) -> (events: Option<u32>)
    ensures
        events == (if all_named(bits) {
            Some(bits)
        } else {
            None::<u32>
        }),
{
    match epoll::Events::from_bits(bits) {
        Some(events) => Some(events.bits()),
        None => None,
    }
}

} // verus!
