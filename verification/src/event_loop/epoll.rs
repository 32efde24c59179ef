//! The flags of `epoll` events, and what comes of waiting for them.

use vstd::prelude::*;
use vstd::string::*;

use crate::text;

verus! {

/// There is something to read.
pub const EPOLLIN: u32 = 0x1;

/// Something can be written.
pub const EPOLLOUT: u32 = 0x4;

/// The descriptor is in error.
pub const EPOLLERR: u32 = 0x8;

/// Both ends have hung up.
pub const EPOLLHUP: u32 = 0x10;

/// The other end writes no more.
pub const EPOLLRDHUP: u32 = 0x2000;

/// Whether a flag, which is one bit, is among an event's flags.
pub open spec fn has_flag(events: u32, flag: u32) -> bool {
    events & flag == flag
}

/// Whether the connection is at its end, by an event's flags.
pub open spec fn ended(events: u32) -> bool {
    has_flag(events, EPOLLERR) || has_flag(events, EPOLLHUP) || has_flag(events, EPOLLRDHUP)
}

/// Whether there is something to read.
pub fn is_readable(events: u32) -> (r: bool)
    ensures
        r == has_flag(events, EPOLLIN),
{
    assert(events & 0x1 != 0 <==> events & 0x1 == 0x1) by (bit_vector);
    events & EPOLLIN != 0
}

/// Whether something can be written.
pub fn is_writable(events: u32) -> (r: bool)
    ensures
        r == has_flag(events, EPOLLOUT),
{
    assert(events & 0x4 != 0 <==> events & 0x4 == 0x4) by (bit_vector);
    events & EPOLLOUT != 0
}

/// Whether the connection is at its end: in error, or hung up on at either end.
pub fn is_closed(events: u32) -> (r: bool)
    ensures
        r == ended(events),
{
    assert(events & (0x8u32 | 0x10u32 | 0x2000u32) != 0 <==> (events & 0x8 == 0x8 || events & 0x10 == 0x10
        || events & 0x2000 == 0x2000)) by (bit_vector);
    events & (EPOLLERR | EPOLLHUP | EPOLLRDHUP) != 0
}

/// The flags to wait for: those asked for, and in any case that the other end
/// writes no more.
pub fn interest(events: u32) -> (r: u32)
    ensures
        r == events | EPOLLRDHUP,
        has_flag(r, EPOLLRDHUP),
{
    assert((events | 0x2000) & 0x2000 == 0x2000) by (bit_vector);
    events | EPOLLRDHUP
}

// ---------------------------------------------------------------------------
// Waiting
// ---------------------------------------------------------------------------

/// `errno` of an interrupted call.
pub const EINTR: i32 = 4;

/// What came of waiting for events.
#[derive(Debug, Clone, Copy, PartialEq, Eq, Structural)]
pub enum WaitResult {
    /// So many events are there; none where the time ran out.
    Events(usize),
    /// A signal came in between: wait again.
    Again,
    /// Waiting failed, with this `errno`.
    Failed(i32),
}

/// What came of waiting for events, by what `epoll_wait` returned and by
/// `errno`.
pub fn wait_result(n: i32, errno: i32) -> (r: WaitResult)
    ensures
        r == if n >= 0 {
            WaitResult::Events(n as usize)
        } else if errno == EINTR {
            WaitResult::Again
        } else {
            WaitResult::Failed(errno)
        },
{
    if n >= 0 {
        WaitResult::Events(n as usize)
    } else if errno == EINTR {
        WaitResult::Again
    } else {
        WaitResult::Failed(errno)
    }
}

// ---------------------------------------------------------------------------
// Errors
// ---------------------------------------------------------------------------

/// Why an operation on an `epoll` instance failed.
#[derive(Debug)]
pub enum EpollError {
    /// None could be made.
    CreateFailed(i32),
    /// A descriptor could not be added, changed or removed.
    CtlFailed { op: &'static str, fd: i32, errno: i32 },
    /// Events could not be waited for.
    WaitFailed(i32),
}

impl EpollError {
    /// The error as a sentence.
    pub fn message(&self) -> (r: String)
        ensures
            r@ == match self {
                EpollError::CreateFailed(e) => "epoll_create1 failed: errno "@ + text::signed(
                    *e as int,
                ),
                EpollError::CtlFailed { op, fd, errno } => "epoll_ctl("@ + op@ + ") fd="@
                    + text::signed(*fd as int) + " failed: errno "@ + text::signed(*errno as int),
                EpollError::WaitFailed(e) => "epoll_wait failed: errno "@ + text::signed(*e as int),
            },
    {
        match self {
            EpollError::CreateFailed(e) => text::joined(
                "epoll_create1 failed: errno ",
                text::signed_text(*e).as_str(),
            ),
            EpollError::CtlFailed { op, fd, errno } => {
                let mut s = text::joined("epoll_ctl(", op);
                s.append(") fd=");
                s.append(text::signed_text(*fd).as_str());
                s.append(" failed: errno ");
                s.append(text::signed_text(*errno).as_str());
                s
            },
            EpollError::WaitFailed(e) => text::joined(
                "epoll_wait failed: errno ",
                text::signed_text(*e).as_str(),
            ),
        }
    }
}

/// A connection has ended where one of the three bits that say so is set,
/// whatever the others are.
pub proof fn lemma_ended(events: u32)
    ensures
        ended(events) <==> events & 0x8 != 0 || events & 0x10 != 0 || events & 0x2000 != 0,
        has_flag(events, EPOLLIN) <==> events & 0x1 != 0,
        has_flag(events, EPOLLOUT) <==> events & 0x4 != 0,
{
    assert((events & 0x8 == 0x8 <==> events & 0x8 != 0) && (events & 0x10 == 0x10 <==> events & 0x10
        != 0) && (events & 0x2000 == 0x2000 <==> events & 0x2000 != 0) && (events & 0x1 == 0x1 <==>
        events & 0x1 != 0) && (events & 0x4 == 0x4 <==> events & 0x4 != 0)) by (bit_vector);
}

} // verus!
