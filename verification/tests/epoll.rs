//! The flags of events.

use localhost::event_loop::epoll::{
    interest, is_closed, is_readable, is_writable, wait_result, EpollError, WaitResult, EINTR,
    EPOLLERR, EPOLLHUP, EPOLLIN, EPOLLOUT, EPOLLRDHUP,
};
use localhost::http::response::writer::EAGAIN;

#[test]
fn flag_helpers_correctness() {
    assert!(is_readable(EPOLLIN as u32));
    assert!(!is_readable(EPOLLOUT as u32));
    assert!(is_writable(EPOLLOUT as u32));
    assert!(!is_writable(EPOLLIN as u32));
    assert!(is_closed(EPOLLERR as u32));
    assert!(is_closed(EPOLLHUP as u32));
    assert!(is_closed(EPOLLRDHUP as u32));
    assert!(!is_closed(EPOLLIN as u32));
}

#[test]
fn flags_are_those_of_the_system() {
    assert_eq!(EPOLLIN, libc::EPOLLIN as u32);
    assert_eq!(EPOLLOUT, libc::EPOLLOUT as u32);
    assert_eq!(EPOLLERR, libc::EPOLLERR as u32);
    assert_eq!(EPOLLHUP, libc::EPOLLHUP as u32);
    assert_eq!(EPOLLRDHUP, libc::EPOLLRDHUP as u32);
    assert_eq!(EAGAIN, libc::EAGAIN);
    assert_eq!(EAGAIN, libc::EWOULDBLOCK);
    assert_eq!(EINTR, libc::EINTR);
}

#[test]
fn half_close_is_always_watched() {
    assert!(is_closed(interest(0)));
    assert_eq!(interest(EPOLLIN), EPOLLIN | EPOLLRDHUP);
}

#[test]
fn waiting_goes_on_after_a_signal() {
    assert_eq!(wait_result(0, 0), WaitResult::Events(0));
    assert_eq!(wait_result(3, 0), WaitResult::Events(3));
    assert_eq!(wait_result(-1, EINTR), WaitResult::Again);
    assert_eq!(wait_result(-1, 9), WaitResult::Failed(9));
}

#[test]
fn epoll_error_messages() {
    assert_eq!(EpollError::CreateFailed(24).message(), "epoll_create1 failed: errno 24");
    assert_eq!(
        EpollError::CtlFailed { op: "ADD", fd: 5, errno: 17 }.message(),
        "epoll_ctl(ADD) fd=5 failed: errno 17"
    );
    assert_eq!(EpollError::WaitFailed(9).message(), "epoll_wait failed: errno 9");
}
