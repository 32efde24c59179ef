//! What to do about each event.
//!
//! The functions here change the state of connections and the registry, and say
//! which calls are to be made; the event loop makes them. No failure on one
//! connection touches another.

use vstd::prelude::*;
use vstd::string::*;
use vstd::utf8::encode_utf8;

use crate::cgi;
use crate::cgi::executor::CgiError;
use crate::cgi::io::{StdinOutcome, StdoutOutcome};
use crate::cgi::{CgiProcess, ProcessView};
use crate::config::types;
use crate::config::types::{Method, ServerConfig, ServerView};
use crate::event_loop::epoll;
use crate::event_loop::registry::{ListenerEntry, Registry, RegistryView};
use crate::http::request::body;
use crate::http::request::body::{BodyResult, ChunkedResult, ChunkedView};
use crate::http::request::parser;
use crate::http::request::parser::{HeadView, ParseResult};
use crate::http::request::types::{Request, RequestView, Version};
use crate::http::response::builder;
use crate::http::response::types::{
    lemma_set_reads_back, lemma_value_of_push, value_of, with_set, Response, ResponseView,
};
use crate::http::response::writer;
use crate::http::response::writer::{UtcTime, WriteResult, EAGAIN};
use crate::router::matcher;
use crate::server::connection::{ConnView, ConnectionPhase, ConnectionState, PeerAddr, PhaseView};
use crate::server::timeout;
use crate::server::timeout::TimeoutClass;
use crate::session::cookie;
use crate::session::cookie::CookieOptions;
use crate::text;

verus! {

/// How many events are taken at a time.
pub const MAX_EVENTS: usize = 128;

/// How long an event is waited for, in milliseconds: short enough that
/// connections that stand still are soon found.
pub const EPOLL_TIMEOUT_MS: i32 = 1_000;

/// How many connections there may be. It stays well under the usual limit on
/// descriptors.
pub const MAX_CONNECTIONS: usize = 512;

// ---------------------------------------------------------------------------
// Answers that need no making
// ---------------------------------------------------------------------------

/// The answer to a malformed request.
pub const HTTP_400: &'static str =
    "HTTP/1.1 400 Bad Request\r\nContent-Type: text/plain\r\nContent-Length: 11\r\nConnection: close\r\n\r\nBad Request";

/// The answer where there is nothing to answer with.
pub const HTTP_500: &'static str =
    "HTTP/1.1 500 Internal Server Error\r\nContent-Type: text/plain\r\nContent-Length: 21\r\nConnection: close\r\n\r\nInternal Server Error";

/// The answer where a script could not be started.
pub const HTTP_502: &'static str =
    "HTTP/1.1 502 Bad Gateway\r\nContent-Type: text/html; charset=utf-8\r\nContent-Length: 93\r\nConnection: close\r\n\r\n<html><head><title>502 Bad Gateway</title></head><body><h1>502 Bad Gateway</h1></body></html>";

/// The bytes of a text.
fn bytes_of(s: &str) -> (r: Vec<u8>)
    ensures
        r@ == encode_utf8(s@),
{
    vstd::slice::slice_to_vec(s.as_bytes())
}

/// A connection that is answered 400, and then closed: what follows a malformed
/// request cannot be told from it.
pub open spec fn refused(c: ConnView) -> ConnView {
    ConnView { keep_alive: false, ..c }.responding(encode_utf8(HTTP_400@))
}

/// Makes 400 ready to send, behind which the connection is closed.
fn refuse(conn: &mut ConnectionState)
    requires
        old(conn)@.wf(),
    ensures
        final(conn)@.wf(),
        final(conn)@ == refused(old(conn)@),
{
    conn.keep_alive = false;
    conn.set_response(bytes_of(HTTP_400));
}

// ---------------------------------------------------------------------------
// Events
// ---------------------------------------------------------------------------

/// What an event asks for.
#[derive(Debug, Clone, Copy, PartialEq, Eq, Structural)]
pub enum EventStep {
    /// Accept the connections that wait.
    Accept,
    /// See to a script's pipe.
    Script,
    /// Close the connection.
    Close,
    /// Read from the connection.
    Read,
    /// Write to the connection.
    Write,
    /// Do nothing.
    Ignore,
}

/// What an event asks for: a socket that listens has connections to accept, a
/// pipe belongs to a script, and a connection is closed, read or written, in
/// this order.
pub open spec fn event_step(r: RegistryView, fd: i32, events: u32) -> EventStep {
    if r.listeners.dom().contains(fd) {
        EventStep::Accept
    } else if r.cgi_fds.dom().contains(fd) {
        EventStep::Script
    } else if epoll::ended(events) {
        EventStep::Close
    } else if epoll::has_flag(events, epoll::EPOLLIN) {
        EventStep::Read
    } else if epoll::has_flag(events, epoll::EPOLLOUT) {
        EventStep::Write
    } else {
        EventStep::Ignore
    }
}

/// What an event asks for.
pub fn classify_event(registry: &Registry, fd: i32, events: u32) -> (r: EventStep)
    ensures
        r == event_step(registry@, fd, events),
{
    if registry.is_listener(fd) {
        EventStep::Accept
    } else if registry.is_cgi_fd(fd) {
        EventStep::Script
    } else if epoll::is_closed(events) {
        EventStep::Close
    } else if epoll::is_readable(events) {
        EventStep::Read
    } else if epoll::is_writable(events) {
        EventStep::Write
    } else {
        EventStep::Ignore
    }
}

// ---------------------------------------------------------------------------
// Accepting
// ---------------------------------------------------------------------------

/// The listener to accept one more connection from: none where the descriptor
/// is no listener, or where there are as many connections as there may be.
pub fn may_accept(registry: &Registry, listener_fd: i32) -> (r: Option<ListenerEntry>)
    ensures
        r == if registry@.listeners.dom().contains(listener_fd) && registry@.connections.len()
            < MAX_CONNECTIONS {
            Some(registry@.listeners[listener_fd])
        } else {
            None
        },
{
    match registry.listener(listener_fd) {
        Some(entry) => if registry.connection_count() >= MAX_CONNECTIONS {
            None
        } else {
            Some(*entry)
        },
        None => None,
    }
}

/// Registers a connection that a listener has accepted.
pub fn accept_new_connection(
    registry: &mut Registry,
    entry: ListenerEntry,
    fd: i32,
    peer: PeerAddr,
    now: u64,
)
    requires
        !old(registry)@.has(fd),
    ensures
        final(registry)@ == old(registry)@.with(fd, final(registry)@.connections[fd]),
        final(registry)@.connections[fd]@ == ConnView::fresh(
            fd,
            entry.server_id,
            entry.port,
            peer@,
            now,
        ),
        old(registry)@.wf() ==> final(registry)@.wf(),
{
    let state = ConnectionState::new(fd, entry.server_id, entry.port, peer, now);
    registry.register_connection(fd, state);
}

// ---------------------------------------------------------------------------
// Receiving
// ---------------------------------------------------------------------------

/// What came of reading from a connection.
#[derive(Debug, Clone, Copy, PartialEq, Eq, Structural)]
pub enum DrainResult {
    /// All that was there is read.
    Data,
    /// The client has closed its end.
    Closed,
    /// The connection cannot be read, with this `errno`.
    Error(i32),
}

/// A connection with bytes that came in on it. They go to what is being read: a
/// body, where one is, and otherwise the buffer.
pub open spec fn received(c: ConnView, bytes: Seq<u8>) -> ConnView {
    match c.phase {
        PhaseView::ReadingBody { expected, bytes_read } => ConnView {
            read_buf: c.read_buf + bytes,
            phase: PhaseView::ReadingBody {
                expected,
                bytes_read: (bytes_read + bytes.len()) as usize,
            },
            ..c
        },
        PhaseView::ReadingChunked { assembled } => ConnView {
            phase: PhaseView::ReadingChunked { assembled: assembled + bytes },
            ..c
        },
        _ => ConnView { read_buf: c.read_buf + bytes, ..c },
    }
}

/// Takes bytes that came in.
pub fn receive(conn: &mut ConnectionState, bytes: &[u8])
    requires
        old(conn)@.wf(),
    ensures
        final(conn)@.wf(),
        final(conn)@ == received(old(conn)@, bytes@),
{
    match &conn.phase {
        ConnectionPhase::ReadingBody { .. } => {
            conn.append_body_bytes(bytes);
        },
        ConnectionPhase::ReadingChunked { .. } => {
            conn.append_chunked_bytes(bytes);
        },
        _ => {
            text::extend(&mut conn.read_buf, bytes);
        },
    }
}

/// Takes what was read from a connection, by what `read` returned, the bytes it
/// gave, and `errno`. Reading goes on while there is no result.
pub fn drain_socket(conn: &mut ConnectionState, n: isize, data: &[u8], errno: i32) -> (r: Option<
    DrainResult,
>)
    requires
        old(conn)@.wf(),
        n <= data@.len(),
    ensures
        final(conn)@.wf(),
        r == if n > 0 {
            None::<DrainResult>
        } else if n == 0 {
            Some(DrainResult::Closed)
        } else if errno == EAGAIN {
            Some(DrainResult::Data)
        } else {
            Some(DrainResult::Error(errno))
        },
        final(conn)@ == if n > 0 {
            received(old(conn)@, data@.take(n as int))
        } else {
            old(conn)@
        },
{
    if n > 0 {
        assert(data@.take(n as int) =~= data@.subrange(0, n as int));
        receive(conn, &data[0..n as usize]);
        None
    } else if n == 0 {
        Some(DrainResult::Closed)
    } else if errno == EAGAIN {
        Some(DrainResult::Data)
    } else {
        Some(DrainResult::Error(errno))
    }
}

// ---------------------------------------------------------------------------
// From bytes to a request
// ---------------------------------------------------------------------------

/// What a connection does next.
#[derive(Debug)]
pub enum Transition {
    /// Waits for more bytes.
    NeedMoreData,
    /// Sends the response that is ready.
    ResponseReady,
    /// Is closed.
    Close,
    /// Has this request answered, by the server and the route at these places in
    /// the configuration; no route has the path where there is none.
    Dispatch { request: Request, server: usize, route: Option<usize> },
}

/// A [`Transition`] with a view of its request.
#[verifier::ext_equal]
pub enum TransitionView {
    NeedMoreData,
    ResponseReady,
    Close,
    Dispatch { request: RequestView, server: int, route: Option<int> },
}

/// The place of a route as a number.
pub open spec fn opt_index(o: Option<usize>) -> Option<int> {
    match o {
        Some(i) => Some(i as int),
        None => None,
    }
}

impl View for Transition {
    type V = TransitionView;

    open spec fn view(&self) -> TransitionView {
        match self {
            Transition::NeedMoreData => TransitionView::NeedMoreData,
            Transition::ResponseReady => TransitionView::ResponseReady,
            Transition::Close => TransitionView::Close,
            Transition::Dispatch { request, server, route } => TransitionView::Dispatch {
                request: request@,
                server: *server as int,
                route: opt_index(*route),
            },
        }
    }
}

/// A connection whose request is complete, and what it does next: the request
/// is handed over with its server and route. Without a configuration, or without
/// a request, the answer is 500.
pub open spec fn processed(c: ConnView, configs: Seq<ServerView>) -> (ConnView, TransitionView) {
    if configs.len() == 0 || c.request is None {
        (c.responding(encode_utf8(HTTP_500@)), TransitionView::ResponseReady)
    } else {
        let request = c.request->0;
        let server = matcher::selected(configs, request.host(), c.local_port);
        (
            ConnView { request: None, ..c },
            TransitionView::Dispatch {
                request,
                server,
                route: matcher::matched(configs[server].routes, request.path),
            },
        )
    }
}

/// A connection whose body is complete, and what it does next.
pub open spec fn completed(c: ConnView, bytes: Seq<u8>, configs: Seq<ServerView>) -> (
    ConnView,
    TransitionView,
) {
    processed(
        ConnView {
            request: match c.request {
                Some(r) => Some(RequestView { body: bytes, ..r }),
                None => None,
            },
            read_buf: Seq::empty(),
            phase: PhaseView::Processing,
            ..c
        },
        configs,
    )
}

/// A connection that reads a body of a given length, and what it does next.
pub open spec fn advanced_body(c: ConnView, expected: usize, configs: Seq<ServerView>) -> (
    ConnView,
    TransitionView,
) {
    if c.read_buf.len() < expected {
        (c, TransitionView::NeedMoreData)
    } else {
        completed(c, c.read_buf.take(expected as int), configs)
    }
}

/// A connection that reads a body in chunks, and what it does next.
pub open spec fn advanced_chunks(c: ConnView, assembled: Seq<u8>, configs: Seq<ServerView>) -> (
    ConnView,
    TransitionView,
) {
    match body::chunked_body(assembled) {
        ChunkedView::NeedsMore => (c, TransitionView::NeedMoreData),
        ChunkedView::Error(_) => (refused(c), TransitionView::ResponseReady),
        ChunkedView::Complete(bytes, _) => completed(c, bytes, configs),
    }
}

/// A connection that has the head of its request, and what it does next. `rest`
/// is what came in behind the head.
pub open spec fn advanced_head(
    c: ConnView,
    request: RequestView,
    rest: Seq<u8>,
    configs: Seq<ServerView>,
) -> (ConnView, TransitionView) {
    let known = ConnView { keep_alive: request.keep_alive(), request: Some(request), ..c };
    if request.chunked() {
        advanced_chunks(
            ConnView {
                read_buf: Seq::empty(),
                phase: PhaseView::ReadingChunked { assembled: rest },
                ..known
            },
            rest,
            configs,
        )
    } else if request.content_length() matches Some(n) && n > 0 {
        let expected = request.content_length()->0 as usize;
        advanced_body(
            ConnView {
                read_buf: rest,
                phase: PhaseView::ReadingBody { expected, bytes_read: rest.len() as usize },
                ..known
            },
            expected,
            configs,
        )
    } else {
        processed(
            ConnView { read_buf: Seq::empty(), phase: PhaseView::Processing, ..known },
            configs,
        )
    }
}

/// A connection after what it has read is looked at, and what it does next.
pub open spec fn advanced(c: ConnView, configs: Seq<ServerView>) -> (ConnView, TransitionView) {
    match c.phase {
        PhaseView::ReadingHeaders => match parser::parsed_head(c.read_buf) {
            HeadView::Incomplete => (c, TransitionView::NeedMoreData),
            HeadView::Error(_) => (refused(c), TransitionView::ResponseReady),
            HeadView::Complete(request, n) => advanced_head(
                c,
                request,
                c.read_buf.skip(n),
                configs,
            ),
        },
        PhaseView::ReadingBody { expected, .. } => advanced_body(c, expected, configs),
        PhaseView::ReadingChunked { assembled } => advanced_chunks(c, assembled, configs),
        _ => (c, TransitionView::Close),
    }
}

/// Hands over the request of a connection, with its server and route.
pub fn process_request(conn: &mut ConnectionState, configs: &[ServerConfig]) -> (r: Transition)
    requires
        old(conn)@.wf(),
    ensures
        final(conn)@.wf(),
        (final(conn)@, r@) == processed(old(conn)@, types::server_views(configs@)),
        r matches Transition::Dispatch { server, route, .. } ==> server < configs@.len() && (route
            matches Some(k) ==> k < configs@[server as int].routes@.len()),
{
    if configs.len() == 0 {
        conn.set_response(bytes_of(HTTP_500));
        return Transition::ResponseReady;
    }
    let mut taken: Option<Request> = None;
    std::mem::swap(&mut taken, &mut conn.request);
    let request = match taken {
        Some(r) => r,
        None => {
            conn.set_response(bytes_of(HTTP_500));
            return Transition::ResponseReady;
        },
    };
    let server: usize = matcher::server_index(request.host(), conn.local_port, configs);
    let route = matcher::route_index(request.path.as_str(), configs[server].routes.as_slice());
    Transition::Dispatch { request, server, route }
}

/// Looks at what a connection has read, and takes it as far as it goes: to the
/// body once the head is there, and to the answer once the request is.
pub fn advance_connection(conn: &mut ConnectionState, configs: &[ServerConfig]) -> (r: Transition)
    requires
        old(conn)@.wf(),
    ensures
        final(conn)@.wf(),
        (final(conn)@, r@) == advanced(old(conn)@, types::server_views(configs@)),
        r matches Transition::Dispatch { server, route, .. } ==> server < configs@.len() && (route
            matches Some(k) ==> k < configs@[server as int].routes@.len()),
{
    if let ConnectionPhase::ReadingHeaders = &conn.phase {
        match parser::parse_request_head(conn.read_buf.as_slice()) {
            ParseResult::Incomplete => {
                return Transition::NeedMoreData;
            },
            ParseResult::Error(_) => {
                refuse(conn);
                return Transition::ResponseReady;
            },
            ParseResult::Complete(request, consumed) => {
                let rest = vstd::slice::slice_to_vec(
                    &conn.read_buf.as_slice()[consumed..conn.read_buf.len()],
                );
                assert(rest@ =~= conn.read_buf@.skip(consumed as int));
                if request.is_chunked() {
                    conn.begin_reading_chunked(request, rest);
                } else {
                    let length = request.content_length();
                    match length {
                        Some(n) if n > 0 => {
                            conn.begin_reading_body(request, n, rest);
                        },
                        _ => {
                            conn.keep_alive = request.is_keep_alive();
                            conn.request = Some(request);
                            conn.read_buf.clear();
                            conn.phase = ConnectionPhase::Processing;
                            return process_request(conn, configs);
                        },
                    }
                }
            },
        }
    }
    if let ConnectionPhase::ReadingBody { expected, .. } = &conn.phase {
        let expected: usize = *expected;
        match body::read_body_unchunked(conn.read_buf.as_slice(), expected) {
            BodyResult::NeedsMore { .. } => Transition::NeedMoreData,
            BodyResult::Complete(bytes) => {
                conn.complete_body(bytes);
                process_request(conn, configs)
            },
        }
    } else if let ConnectionPhase::ReadingChunked { assembled } = &conn.phase {
        match body::read_body_chunked(assembled.as_slice()) {
            ChunkedResult::NeedsMore => Transition::NeedMoreData,
            ChunkedResult::Error(_) => {
                refuse(conn);
                Transition::ResponseReady
            },
            ChunkedResult::Complete(bytes, _) => {
                conn.complete_body(bytes);
                process_request(conn, configs)
            },
        }
    } else {
        Transition::Close
    }
}

/// Goes on with a connection that was read: notes that something happened, and
/// takes it as far as it goes. One that its client has closed, or that cannot be
/// read, is to be closed; of a connection that is not registered, there is
/// nothing to say.
pub fn read_from_connection(
    registry: &mut Registry,
    fd: i32,
    drained: DrainResult,
    configs: &[ServerConfig],
    now: u64,
) -> (r: Option<Transition>)
    requires
        old(registry)@.wf(),
    ensures
        final(registry)@.wf(),
        match r {
            None => !old(registry)@.connections.dom().contains(fd) && final(registry)@
                == old(registry)@,
            Some(t) => {
                let before = ConnView { last_activity: now, ..old(registry)@.connections[fd]@ };
                &&& old(registry)@.connections.dom().contains(fd)
                &&& final(registry)@ == old(registry)@.with(fd, final(registry)@.connections[fd])
                &&& (final(registry)@.connections[fd]@, t@) == if drained == DrainResult::Data {
                    advanced(before, types::server_views(configs@))
                } else {
                    (before, TransitionView::Close)
                }
                &&& t matches Transition::Dispatch { server, route, .. } ==> server < configs@.len()
                    && (route matches Some(k) ==> k < configs@[server as int].routes@.len())
            },
        },
{
    match registry.get_connection_mut(fd) {
        None => None,
        Some(conn) => {
            conn.touch(now);
            if let DrainResult::Data = drained {
                Some(advance_connection(conn, configs))
            } else {
                Some(Transition::Close)
            }
        },
    }
}

// ---------------------------------------------------------------------------
// From a request to a response
// ---------------------------------------------------------------------------

/// A response as it goes out on a connection: it says whether the connection is
/// closed behind it, and tells the client of a session that was made.
pub open spec fn outgoing(c: ConnView, r: ResponseView) -> ResponseView {
    let closing = if c.keep_alive {
        r.headers
    } else {
        with_set(r.headers, "Connection"@, "close"@)
    };
    ResponseView {
        headers: match c.pending_session_cookie {
            Some(id) => closing.push(
                (
                    "Set-Cookie"@,
                    cookie::set_cookie_text(cookie::SESSION_COOKIE@, id, cookie::default_options()),
                ),
            ),
            None => closing,
        },
        ..r
    }
}

/// A connection with a response to send. To `HEAD`, only the head is sent.
pub open spec fn responded(c: ConnView, head_only: bool, r: ResponseView, now: UtcTime) -> ConnView {
    ConnView { pending_session_cookie: None, ..c }.responding(
        if head_only {
            writer::head_bytes(outgoing(c, r), now)
        } else {
            writer::serialized(outgoing(c, r), now)
        },
    )
}

fn respond(conn: &mut ConnectionState, head_only: bool, response: Response, now: &UtcTime)
    requires
        old(conn)@.wf(),
        1900 + now.year <= i32::MAX,
    ensures
        final(conn)@.wf(),
        final(conn)@ == responded(old(conn)@, head_only, response@, *now),
{
    let mut resp = response;
    if !conn.keep_alive {
        resp.headers.set("Connection", "close");
    }
    if let Some(id) = &conn.pending_session_cookie {
        let value = cookie::set_cookie_header(
            cookie::SESSION_COOKIE,
            id.as_str(),
            &CookieOptions::default(),
        );
        resp.headers.append("Set-Cookie", value.as_str());
    }
    conn.pending_session_cookie = None;
    let bytes = if head_only {
        writer::serialize_head_response(&resp, now)
    } else {
        writer::serialize(&resp, now)
    };
    conn.set_response(bytes);
}

/// Makes the response to a request ready to send.
pub fn answer(conn: &mut ConnectionState, method: Method, response: Response, now: &UtcTime)
    requires
        old(conn)@.wf(),
        1900 + now.year <= i32::MAX,
    ensures
        final(conn)@.wf(),
        final(conn)@ == responded(old(conn)@, method == Method::Head, response@, *now),
{
    respond(conn, method == Method::Head, response, now);
}

/// Makes 404 ready to send, with what could be read of the custom page: the
/// answer where no route has the path.
pub fn answer_no_route(
    conn: &mut ConnectionState,
    method: Method,
    page: Option<&str>,
    now: &UtcTime,
)
    requires
        old(conn)@.wf(),
        1900 + now.year <= i32::MAX,
    ensures
        final(conn)@.wf(),
        final(conn)@ == responded(
            old(conn)@,
            method == Method::Head,
            builder::error_view(404, text::opt_str(page)),
            *now,
        ),
{
    respond(conn, method == Method::Head, builder::not_found(page), now);
}

// ---------------------------------------------------------------------------
// Scripts
// ---------------------------------------------------------------------------

/// What to do after a script was started, or was not.
#[derive(Debug, Clone, Copy, PartialEq, Eq, Structural)]
pub enum CgiStart {
    /// Watch the pipe from its output, and the one to its input where there is
    /// one; close the one that is given to be closed.
    Started { stdout_fd: i32, stdin_fd: Option<i32>, close: Option<i32> },
    /// Send the response that is ready.
    Failed,
}

/// Goes on with a connection whose script was started, or was not. A script with
/// nothing to read is told at once that its input ends.
pub fn start_cgi(conn: &mut ConnectionState, spawned: Result<CgiProcess, CgiError>) -> (r: CgiStart)
    requires
        old(conn)@.wf(),
        spawned matches Ok(p) ==> p.wf(),
    ensures
        final(conn)@.wf(),
        match spawned {
            Ok(p) => {
                let idle = p.body@.len() == 0;
                &&& r == (CgiStart::Started {
                    stdout_fd: p.stdout_fd,
                    stdin_fd: if idle {
                        None
                    } else {
                        p.stdin_fd
                    },
                    close: if idle {
                        p.stdin_fd
                    } else {
                        None
                    },
                })
                &&& final(conn)@ == (ConnView {
                    phase: PhaseView::AwaitingCgi { child_pid: p.pid, pipe_fd: p.stdout_fd },
                    cgi: Some(
                        if idle {
                            ProcessView { stdin_fd: None, ..p@ }
                        } else {
                            p@
                        },
                    ),
                    ..old(conn)@
                })
            },
            Err(_) => r == CgiStart::Failed && final(conn)@ == old(conn)@.responding(
                encode_utf8(HTTP_502@),
            ),
        },
{
    match spawned {
        Ok(p) => {
            let mut process = p;
            let mut close: Option<i32> = None;
            if process.body.len() == 0 {
                close = process.close_stdin();
            }
            let stdout_fd: i32 = process.stdout_fd;
            let stdin_fd: Option<i32> = process.stdin_fd;
            conn.phase =
            ConnectionPhase::AwaitingCgi { child_pid: process.pid, pipe_fd: stdout_fd };
            conn.cgi = Some(process);
            CgiStart::Started { stdout_fd, stdin_fd, close }
        },
        Err(_) => {
            conn.set_response(bytes_of(HTTP_502));
            CgiStart::Failed
        },
    }
}

/// What an event on a script's pipe asks for.
#[derive(Debug, Clone, Copy, PartialEq, Eq, Structural)]
pub enum CgiStep {
    /// Stop watching the pipe, and close it: nobody waits for it.
    Drop,
    /// Read the output of the script that answers this connection.
    Stdout { owner_fd: i32 },
    /// Write the input of the script that answers this connection.
    Stdin { owner_fd: i32 },
}

/// What an event on a script's pipe asks for.
pub open spec fn cgi_step(r: RegistryView, pipe_fd: i32) -> CgiStep {
    if !r.cgi_fds.dom().contains(pipe_fd) {
        CgiStep::Drop
    } else {
        let owner_fd = r.cgi_fds[pipe_fd];
        if !r.connections.dom().contains(owner_fd) {
            CgiStep::Drop
        } else {
            match r.connections[owner_fd]@.cgi {
                None => CgiStep::Drop,
                Some(p) => if p.stdout_fd == pipe_fd {
                    CgiStep::Stdout { owner_fd }
                } else {
                    CgiStep::Stdin { owner_fd }
                },
            }
        }
    }
}

/// What an event on a script's pipe asks for. A pipe that nobody waits for is
/// forgotten.
pub fn handle_cgi_event(registry: &mut Registry, pipe_fd: i32) -> (r: CgiStep)
    ensures
        r == cgi_step(old(registry)@, pipe_fd),
        final(registry)@ == if r == CgiStep::Drop {
            RegistryView { cgi_fds: old(registry)@.cgi_fds.remove(pipe_fd), ..old(registry)@ }
        } else {
            old(registry)@
        },
{
    let mut step = CgiStep::Drop;
    if let Some(owner_fd) = registry.cgi_owner(pipe_fd) {
        if let Some(conn) = registry.get_connection(owner_fd) {
            if let Some(process) = &conn.cgi {
                step =
                if process.stdout_fd == pipe_fd {
                    CgiStep::Stdout { owner_fd }
                } else {
                    CgiStep::Stdin { owner_fd }
                };
            }
        }
    }
    if let CgiStep::Drop = step {
        registry.unregister_cgi_fd(pipe_fd);
    }
    step
}

/// Whether a script's output is over, after what came of reading it.
#[derive(Debug, Clone, Copy, PartialEq, Eq, Structural)]
pub enum CgiEnd {
    /// It goes on.
    Open,
    /// It is over; `force_error` says that it could not be read.
    Over { force_error: bool },
}

/// Whether a script's output is over. Where nothing more can be read and the
/// script has hung up, it is.
pub fn handle_cgi_stdout(outcome: StdoutOutcome, events: u32) -> (r: CgiEnd)
    ensures
        r == match outcome {
            StdoutOutcome::Pending => if epoll::ended(events) {
                CgiEnd::Over { force_error: false }
            } else {
                CgiEnd::Open
            },
            StdoutOutcome::Eof => CgiEnd::Over { force_error: false },
            StdoutOutcome::Error => CgiEnd::Over { force_error: true },
        },
{
    match outcome {
        StdoutOutcome::Pending => if epoll::is_closed(events) {
            CgiEnd::Over { force_error: false }
        } else {
            CgiEnd::Open
        },
        StdoutOutcome::Eof => CgiEnd::Over { force_error: false },
        StdoutOutcome::Error => CgiEnd::Over { force_error: true },
    }
}

/// Whether the pipe to a script's input is done with, after what came of
/// writing it. It is then forgotten, and no longer to be watched.
pub fn handle_cgi_stdin(registry: &mut Registry, pipe_fd: i32, outcome: StdinOutcome) -> (r: bool)
    ensures
        r == (outcome == StdinOutcome::Finished || outcome == StdinOutcome::Broken),
        final(registry)@ == if r {
            RegistryView { cgi_fds: old(registry)@.cgi_fds.remove(pipe_fd), ..old(registry)@ }
        } else {
            old(registry)@
        },
{
    match outcome {
        StdinOutcome::Wrote | StdinOutcome::WouldBlock => false,
        StdinOutcome::Finished | StdinOutcome::Broken => {
            registry.unregister_cgi_fd(pipe_fd);
            true
        },
    }
}

/// What is left of a script when its connection has done with it: pipes to stop
/// watching and to close, and a process to wait for.
#[derive(Debug, Clone, Copy, PartialEq, Eq, Structural)]
pub struct Teardown {
    pub pid: i32,
    pub stdout_fd: i32,
    pub stdin_fd: Option<i32>,
}

/// The pipes of a connection's script.
pub open spec fn pipes(c: ConnView) -> Set<i32> {
    match c.cgi {
        None => Set::empty(),
        Some(p) => match p.stdin_fd {
            None => Set::empty().insert(p.stdout_fd),
            Some(fd) => Set::empty().insert(p.stdout_fd).insert(fd),
        },
    }
}

/// What is left of a connection's script.
pub open spec fn remains(c: ConnView) -> Option<Teardown> {
    match c.cgi {
        None => None,
        Some(p) => Some(
            Teardown { pid: p.pid, stdout_fd: p.stdout_fd, stdin_fd: p.stdin_fd },
        ),
    }
}

/// Takes the script from a connection, and forgets its pipes.
fn take_script(registry: &mut Registry, fd: i32) -> (r: Option<CgiProcess>)
    requires
        old(registry)@.wf(),
    ensures
        final(registry)@.wf(),
        final(registry)@.listeners == old(registry)@.listeners,
        match r {
            Some(p) => {
                let c = old(registry)@.connections[fd]@;
                &&& old(registry)@.connections.dom().contains(fd)
                &&& c.cgi == Some(p@)
                &&& final(registry)@ == (RegistryView {
                    cgi_fds: old(registry)@.cgi_fds.remove_keys(pipes(c)),
                    ..old(registry)@.with(fd, final(registry)@.connections[fd])
                })
                &&& final(registry)@.connections[fd]@ == (ConnView { cgi: None, ..c })
            },
            None => {
                &&& final(registry)@ == old(registry)@
                &&& old(registry)@.connections.dom().contains(fd)
                    ==> old(registry)@.connections[fd]@.cgi is None
            },
        },
{
    let ghost before = registry@;
    let mut taken: Option<CgiProcess> = None;
    match registry.get_connection_mut(fd) {
        None => {
            return None;
        },
        Some(conn) => {
            std::mem::swap(&mut taken, &mut conn.cgi);
        },
    }
    match taken {
        None => {
            assert(registry@.connections =~= before.connections);
            None
        },
        Some(process) => {
            let ghost c = before.connections[fd]@;
            registry.unregister_cgi_fd(process.stdout_fd);
            if let Some(stdin_fd) = process.stdin_fd {
                registry.unregister_cgi_fd(stdin_fd);
            }
            assert(registry@.cgi_fds =~= before.cgi_fds.remove_keys(pipes(c)));
            Some(process)
        },
    }
}

/// The response for what a script wrote: 502 where its output could not be read,
/// or is empty.
pub open spec fn script_answer(p: ProcessView, force_error: bool) -> ResponseView {
    if force_error || p.out_buf.len() == 0 {
        cgi::bad_gateway_view()
    } else {
        cgi::output_view(p.out_buf)
    }
}

/// Ends the script that answers a connection, and makes its response ready to
/// send. Says what is left of the script; nothing happens where the connection
/// has none.
pub fn finish_cgi(registry: &mut Registry, owner_fd: i32, force_error: bool, now: &UtcTime) -> (r:
    Option<Teardown>)
    requires
        old(registry)@.wf(),
        1900 + now.year <= i32::MAX,
    ensures
        final(registry)@.wf(),
        r == if old(registry)@.connections.dom().contains(owner_fd) {
            remains(old(registry)@.connections[owner_fd]@)
        } else {
            None
        },
        match r {
            None => final(registry)@ == old(registry)@,
            Some(_) => {
                let c = old(registry)@.connections[owner_fd]@;
                &&& final(registry)@ == (RegistryView {
                    cgi_fds: old(registry)@.cgi_fds.remove_keys(pipes(c)),
                    ..old(registry)@.with(owner_fd, final(registry)@.connections[owner_fd])
                })
                &&& final(registry)@.connections[owner_fd]@ == responded(
                    ConnView { cgi: None, ..c },
                    c.cgi->0.head_only,
                    script_answer(c.cgi->0, force_error),
                    *now,
                )
            },
        },
{
    let ghost before = registry@;
    let process = match take_script(registry, owner_fd) {
        Some(p) => p,
        None => {
            return None;
        },
    };
    let left = Teardown {
        pid: process.pid,
        stdout_fd: process.stdout_fd,
        stdin_fd: process.stdin_fd,
    };
    let head_only: bool = process.head_only;
    let response = if force_error || process.out_buf.len() == 0 {
        cgi::bad_gateway()
    } else {
        cgi::build_response(process.out_buf)
    };
    if let Some(conn) = registry.get_connection_mut(owner_fd) {
        respond(conn, head_only, response, now);
    }
    assert(registry@.connections =~= before.connections.insert(
        owner_fd,
        registry@.connections[owner_fd],
    ));
    Some(left)
}

// ---------------------------------------------------------------------------
// Sending
// ---------------------------------------------------------------------------

/// What came of writing a response.
#[derive(Debug, Clone, Copy, PartialEq, Eq, Structural)]
pub enum FlushResult {
    /// All is sent; `keep_alive` says whether the connection persists.
    Done { keep_alive: bool },
    /// More is to be sent.
    Partial,
    /// It cannot be sent, with this `errno`; -1 where there is no response.
    Error(i32),
}

/// From where on a response is still to be sent, if some of it is.
pub open spec fn unsent_from(c: ConnView) -> Option<usize> {
    match c.phase {
        PhaseView::WritingResponse { bytes_written } => if bytes_written < c.write_buf.len() {
            Some(bytes_written)
        } else {
            None
        },
        _ => None,
    }
}

/// From where on the response is still to be sent, if some of it is.
pub fn write_offset(conn: &ConnectionState) -> (r: Option<usize>)
    ensures
        r == unsent_from(conn@),
{
    match &conn.phase {
        ConnectionPhase::WritingResponse { bytes_written } => if *bytes_written
            < conn.write_buf.len() {
            Some(*bytes_written)
        } else {
            None
        },
        _ => None,
    }
}

/// A connection after a write, and what came of it.
pub open spec fn flushed(c: ConnView, written: WriteResult, now: u64) -> (ConnView, FlushResult) {
    match c.phase {
        PhaseView::WritingResponse { bytes_written } => {
            let done = FlushResult::Done { keep_alive: c.keep_alive };
            if bytes_written >= c.write_buf.len() {
                (c.finished(now), done)
            } else {
                match written {
                    WriteResult::BytesWritten(n) => {
                        let sent = ConnView {
                            phase: PhaseView::WritingResponse {
                                bytes_written: (bytes_written + n) as usize,
                            },
                            ..c
                        };
                        if bytes_written + n >= c.write_buf.len() {
                            (sent.finished(now), done)
                        } else {
                            (sent, FlushResult::Partial)
                        }
                    },
                    WriteResult::WouldBlock => (c, FlushResult::Partial),
                    WriteResult::Error(e) => (c, FlushResult::Error(e)),
                }
            }
        },
        _ => (c, FlushResult::Error((-1) as i32)),
    }
}

/// Whether a write can have taken what it says: no more than there was.
pub open spec fn write_fits(c: ConnView, written: WriteResult) -> bool {
    unsent_from(c) is Some && written is BytesWritten ==> unsent_from(c)->0
        + written->BytesWritten_0 <= c.write_buf.len()
}

/// Takes what came of writing a response: counts what is sent, and ends the
/// exchange once all is. Where nothing was left to send, `written` does not
/// count.
pub fn flush_write_buf(conn: &mut ConnectionState, written: WriteResult, now: u64) -> (r:
    FlushResult)
    requires
        old(conn)@.wf(),
        write_fits(old(conn)@, written),
    ensures
        final(conn)@.wf(),
        (final(conn)@, r) == flushed(old(conn)@, written, now),
{
    let total: usize = conn.write_buf.len();
    let offset: usize = match &conn.phase {
        ConnectionPhase::WritingResponse { bytes_written } => *bytes_written,
        _ => {
            return FlushResult::Error(-1);
        },
    };
    if offset >= total {
        let keep_alive = conn.finish(now);
        return FlushResult::Done { keep_alive };
    }
    match written {
        WriteResult::BytesWritten(n) => {
            conn.phase = ConnectionPhase::WritingResponse { bytes_written: offset + n };
            if offset + n >= total {
                let keep_alive = conn.finish(now);
                FlushResult::Done { keep_alive }
            } else {
                FlushResult::Partial
            }
        },
        WriteResult::WouldBlock => FlushResult::Partial,
        WriteResult::Error(e) => FlushResult::Error(e),
    }
}

/// Goes on with a connection that was written: counts what is sent, and notes
/// that something happened. Of a connection that is not registered, there is
/// nothing to say.
pub fn write_to_connection(registry: &mut Registry, fd: i32, written: WriteResult, now: u64) -> (r:
    Option<FlushResult>)
    requires
        old(registry)@.wf(),
        old(registry)@.connections.dom().contains(fd) ==> write_fits(
            old(registry)@.connections[fd]@,
            written,
        ),
    ensures
        final(registry)@.wf(),
        match r {
            None => !old(registry)@.connections.dom().contains(fd) && final(registry)@
                == old(registry)@,
            Some(f) => {
                let (sent, result) = flushed(old(registry)@.connections[fd]@, written, now);
                &&& old(registry)@.connections.dom().contains(fd)
                &&& f == result
                &&& final(registry)@ == old(registry)@.with(fd, final(registry)@.connections[fd])
                &&& final(registry)@.connections[fd]@ == (ConnView { last_activity: now, ..sent })
            },
        },
{
    match registry.get_connection_mut(fd) {
        None => None,
        Some(conn) => {
            let result = flush_write_buf(conn, written, now);
            conn.touch(now);
            Some(result)
        },
    }
}

// ---------------------------------------------------------------------------
// Closing
// ---------------------------------------------------------------------------

/// The registry after a connection is closed: it is forgotten, and so are the
/// pipes of its script.
pub open spec fn closed_one(r: RegistryView, fd: i32) -> RegistryView {
    if r.connections.dom().contains(fd) {
        RegistryView {
            cgi_fds: r.cgi_fds.remove_keys(pipes(r.connections[fd]@)),
            ..r.without(fd)
        }
    } else {
        r
    }
}

/// Closes a connection. Says what is left of its script, which is to be killed.
pub fn close_connection(registry: &mut Registry, fd: i32) -> (r: Option<Teardown>)
    requires
        old(registry)@.wf(),
    ensures
        final(registry)@.wf(),
        final(registry)@ == closed_one(old(registry)@, fd),
        r == if old(registry)@.connections.dom().contains(fd) {
            remains(old(registry)@.connections[fd]@)
        } else {
            None
        },
{
    let ghost before = registry@;
    let left = match take_script(registry, fd) {
        Some(p) => Some(Teardown { pid: p.pid, stdout_fd: p.stdout_fd, stdin_fd: p.stdin_fd }),
        None => None,
    };
    registry.remove(fd);
    proof {
        assert(registry@.connections =~= before.connections.remove(fd));
        if before.connections.dom().contains(fd) && before.connections[fd]@.cgi is None {
            assert(registry@.cgi_fds =~= before.cgi_fds.remove_keys(
                pipes(before.connections[fd]@),
            ));
        }
        if !before.connections.dom().contains(fd) {
            assert(registry@.connections =~= before.connections);
        }
    }
    left
}

// ---------------------------------------------------------------------------
// Timeouts
// ---------------------------------------------------------------------------

/// The answer that a connection gets because it stood still too long, if it did.
pub open spec fn expired(c: ConnView, headers: u64, now: u64) -> Option<TimeoutClass> {
    match timeout::limit(c.phase, headers) {
        None => None,
        Some((ms, class)) => if c.timed_out(ms, now) {
            Some(class)
        } else {
            None
        },
    }
}

/// A connection that was closed because it stood still too long: the answer to
/// send it, and what is left of its script, which is to be killed.
#[derive(Debug, Clone, Copy, PartialEq, Eq, Structural)]
pub struct Expired {
    pub fd: i32,
    pub class: TimeoutClass,
    pub script: Option<Teardown>,
}

/// The registry after the first `n` connections of a list are closed.
pub open spec fn closed_all(r: RegistryView, list: Seq<Expired>, n: int) -> RegistryView
    decreases n,
{
    if n <= 0 || n > list.len() {
        r
    } else {
        closed_one(closed_all(r, list, n - 1), list[n - 1].fd)
    }
}

/// The connections that stood still too long, each with the answer it gets.
fn find_expired(registry: &Registry, headers: u64, now: u64) -> (r: Vec<(i32, TimeoutClass)>)
    ensures
        forall|i: int|
            0 <= i < r@.len() ==> registry@.connections.dom().contains((#[trigger] r@[i]).0)
                && expired(registry@.connections[r@[i].0]@, headers, now) == Some(r@[i].1),
        forall|i: int, j: int| 0 <= i < j < r@.len() ==> r@[i].0 != r@[j].0,
        forall|fd: i32| #[trigger]
            registry@.connections.dom().contains(fd) && expired(
                registry@.connections[fd]@,
                headers,
                now,
            ) is Some ==> exists|i: int| 0 <= i < r@.len() && (#[trigger] r@[i]).0 == fd,
{
    let fds = registry.all_connection_fds();
    let mut found: Vec<(i32, TimeoutClass)> = Vec::new();
    let mut k: usize = 0;
    while k < fds.len()
        invariant
            k <= fds@.len(),
            fds@.no_duplicates(),
            fds@.to_set() == registry@.connections.dom(),
            forall|i: int|
                0 <= i < found@.len() ==> fds@.take(k as int).contains((#[trigger] found@[i]).0)
                    && registry@.connections.dom().contains(found@[i].0) && expired(
                    registry@.connections[found@[i].0]@,
                    headers,
                    now,
                ) == Some(found@[i].1),
            forall|i: int, j: int| 0 <= i < j < found@.len() ==> found@[i].0 != found@[j].0,
            forall|m: int|
                0 <= m < k && expired(
                    registry@.connections[#[trigger] fds@[m]]@,
                    headers,
                    now,
                ) is Some ==> exists|i: int| 0 <= i < found@.len() && (#[trigger] found@[i]).0
                    == fds@[m],
        decreases fds@.len() - k,
    {
        let fd: i32 = fds[k];
        let ghost before = found@;
        proof {
            assert(fds@.to_set().contains(fd));
            assert(fds@.take(k + 1)[k as int] == fd);
            assert forall|x: i32| fds@.take(k as int).contains(x) implies fds@.take(k + 1).contains(
                x,
            ) && x != fd by {
                let m = choose|m: int| 0 <= m < k && fds@.take(k as int)[m] == x;
                assert(fds@.take(k + 1)[m] == x);
                assert(fds@[m] == x);
            }
        }
        if let Some(conn) = registry.get_connection(fd) {
            if let Some((ms, class)) = timeout::timeout_for_phase(&conn.phase, headers) {
                if conn.is_timed_out(ms, now) {
                    found.push((fd, class));
                    assert(found@[before.len() as int].0 == fd);
                }
            }
        }
        proof {
            assert forall|m: int|
                0 <= m < k + 1 && expired(
                    registry@.connections[#[trigger] fds@[m]]@,
                    headers,
                    now,
                ) is Some implies exists|i: int|
                0 <= i < found@.len() && (#[trigger] found@[i]).0 == fds@[m] by {
                if m < k {
                    let i = choose|i: int| 0 <= i < before.len() && (#[trigger] before[i]).0 == fds@[m];
                    assert(found@[i] == before[i]);
                }
            }
        }
        k = k + 1;
    }
    proof {
        assert forall|fd: i32| #[trigger]
            registry@.connections.dom().contains(fd) && expired(
                registry@.connections[fd]@,
                headers,
                now,
            ) is Some implies exists|i: int| 0 <= i < found@.len() && (#[trigger] found@[i]).0
            == fd by {
            assert(fds@.to_set().contains(fd));
            let m = choose|m: int| 0 <= m < fds@.len() && fds@[m] == fd;
            assert(fds@[m] == fd);
        }
    }
    found
}

/// Closes the connections that stood still too long, and says which they were.
/// `headers` is the time for the head of a request.
pub fn check_timeouts(registry: &mut Registry, headers: u64, now: u64) -> (r: Vec<Expired>)
    requires
        old(registry)@.wf(),
    ensures
        final(registry)@.wf(),
        final(registry)@ == closed_all(old(registry)@, r@, r@.len() as int),
        forall|i: int|
            #![trigger r@[i]]
            0 <= i < r@.len() ==> {
                let c = old(registry)@.connections[r@[i].fd]@;
                &&& old(registry)@.connections.dom().contains(r@[i].fd)
                &&& expired(c, headers, now) == Some(r@[i].class)
                &&& r@[i].script == remains(c)
            },
        forall|i: int, j: int| 0 <= i < j < r@.len() ==> r@[i].fd != r@[j].fd,
        forall|fd: i32| #[trigger]
            old(registry)@.connections.dom().contains(fd) && expired(
                old(registry)@.connections[fd]@,
                headers,
                now,
            ) is Some ==> exists|i: int| 0 <= i < r@.len() && (#[trigger] r@[i]).fd == fd,
        forall|fd: i32| #[trigger]
            final(registry)@.connections.dom().contains(fd) <==> old(registry)@.connections.dom().contains(
                fd,
            ) && expired(old(registry)@.connections[fd]@, headers, now) is None,
        forall|fd: i32| #[trigger]
            final(registry)@.connections.dom().contains(fd) ==> final(registry)@.connections[fd]
                == old(registry)@.connections[fd],
{
    let ghost before = registry@;
    let found = find_expired(registry, headers, now);
    let mut closed: Vec<Expired> = Vec::new();
    let mut k: usize = 0;
    while k < found.len()
        invariant
            k <= found@.len(),
            closed@.len() == k,
            before.wf(),
            registry@.wf(),
            registry@ == closed_all(before, closed@, k as int),
            forall|i: int|
                0 <= i < found@.len() ==> before.connections.dom().contains((#[trigger] found@[i]).0)
                    && expired(before.connections[found@[i].0]@, headers, now) == Some(found@[i].1),
            forall|i: int, j: int| 0 <= i < j < found@.len() ==> found@[i].0 != found@[j].0,
            forall|i: int|
                #![trigger closed@[i]]
                0 <= i < k ==> closed@[i].fd == found@[i].0 && closed@[i].class == found@[i].1
                    && closed@[i].script == remains(before.connections[found@[i].0]@),
            forall|i: int|
                k <= i < found@.len() ==> registry@.connections.dom().contains(
                    (#[trigger] found@[i]).0,
                ) && registry@.connections[found@[i].0] == before.connections[found@[i].0],
        decreases found@.len() - k,
    {
        let (fd, class) = found[k];
        let ghost list = closed@;
        let script = close_connection(registry, fd);
        closed.push(Expired { fd, class, script });
        proof {
            lemma_closed_all_prefix(before, list, closed@, k as int);
        }
        k = k + 1;
    }
    proof {
        assert forall|fd: i32| #[trigger]
            before.connections.dom().contains(fd) && expired(
                before.connections[fd]@,
                headers,
                now,
            ) is Some implies exists|i: int| 0 <= i < closed@.len() && (#[trigger] closed@[i]).fd
            == fd by {
            let i = choose|i: int| 0 <= i < found@.len() && (#[trigger] found@[i]).0 == fd;
            assert(closed@[i].fd == fd);
        }
        lemma_closed_all(before, closed@, closed@.len() as int);
    }
    closed
}

proof fn lemma_closed_all_prefix(r: RegistryView, a: Seq<Expired>, b: Seq<Expired>, n: int)
    requires
        0 <= n <= a.len(),
        n <= b.len(),
        forall|i: int| 0 <= i < n ==> a[i] == b[i],
    ensures
        closed_all(r, a, n) == closed_all(r, b, n),
    decreases n,
{
    if n > 0 {
        lemma_closed_all_prefix(r, a, b, n - 1);
    }
}

// ---------------------------------------------------------------------------
// Laws
// ---------------------------------------------------------------------------

/// Closing the first `n` connections of a list takes exactly these away, and
/// leaves the others, and what listens, as they are.
pub proof fn lemma_closed_all(r: RegistryView, list: Seq<Expired>, n: int)
    requires
        0 <= n <= list.len(),
    ensures
        closed_all(r, list, n).listeners == r.listeners,
        forall|fd: i32| #[trigger]
            closed_all(r, list, n).connections.dom().contains(fd) <==> r.connections.dom().contains(
                fd,
            ) && forall|i: int| 0 <= i < n ==> (#[trigger] list[i]).fd != fd,
        forall|fd: i32| #[trigger]
            closed_all(r, list, n).connections.dom().contains(fd) ==> closed_all(
                r,
                list,
                n,
            ).connections[fd] == r.connections[fd],
    decreases n,
{
    if n > 0 {
        lemma_closed_all(r, list, n - 1);
        let last = list[n - 1].fd;
        assert forall|fd: i32| #[trigger]
            closed_all(r, list, n).connections.dom().contains(fd) <==> r.connections.dom().contains(
                fd,
            ) && forall|i: int| 0 <= i < n ==> (#[trigger] list[i]).fd != fd by {
            let before = closed_all(r, list, n - 1);
            if before.connections.dom().contains(fd) && fd != last {
                assert forall|i: int| 0 <= i < n implies (#[trigger] list[i]).fd != fd by {
                    if i == n - 1 {
                        assert(list[i].fd == last);
                    }
                }
            }
            if fd == last {
                assert(list[n - 1].fd == fd);
            }
        }
    }
}

/// A closed connection is gone, and no event on a pipe of its script goes to
/// it or to any other connection. All other connections stay as they are.
pub proof fn lemma_closed_one(r: RegistryView, fd: i32, other: i32, pipe: i32)
    ensures
        !closed_one(r, fd).connections.dom().contains(fd),
        r.connections.dom().contains(fd) && pipes(r.connections[fd]@).contains(pipe) ==> cgi_step(
            closed_one(r, fd),
            pipe,
        ) == CgiStep::Drop,
        other != fd && r.connections.dom().contains(other) ==> closed_one(
            r,
            fd,
        ).connections.dom().contains(other) && closed_one(r, fd).connections[other]
            == r.connections[other],
{
}

/// It does not matter in how many pieces a request comes in: where more is
/// waited for after the bytes `a`, what becomes of the connection with the bytes
/// `b` is what becomes of it where both come at once.
pub proof fn lemma_pieces(c: ConnView, a: Seq<u8>, b: Seq<u8>, configs: Seq<ServerView>)
    requires
        c.wf(),
        c.read_buf.len() + a.len() + b.len() <= usize::MAX,
        advanced(received(c, a), configs).1 == TransitionView::NeedMoreData,
    ensures
        advanced(received(advanced(received(c, a), configs).0, b), configs) == advanced(
            received(c, a + b),
            configs,
        ),
{
    match c.phase {
        PhaseView::ReadingHeaders => {
            let buf = c.read_buf + a;
            assert(buf + b =~= c.read_buf + (a + b));
            match parser::parsed_head(buf) {
                HeadView::Incomplete => {},
                HeadView::Error(_) => {},
                HeadView::Complete(request, n) => {
                    parser::lemma_head_stable(buf, b);
                    parser::lemma_head_consumed(buf);
                    assert((buf + b).skip(n) =~= buf.skip(n) + b);
                },
            }
        },
        PhaseView::ReadingBody { expected, bytes_read } => {
            assert(c.read_buf + a + b =~= c.read_buf + (a + b));
        },
        PhaseView::ReadingChunked { assembled } => {
            assert(assembled + a + b =~= assembled + (a + b));
        },
        _ => {},
    }
}

/// Pieces put together.
pub open spec fn whole_of(pieces: Seq<Seq<u8>>) -> Seq<u8>
    decreases pieces.len(),
{
    if pieces.len() == 0 {
        Seq::empty()
    } else {
        pieces[0] + whole_of(pieces.drop_first())
    }
}

/// A connection that pieces come in on, one after the other, as long as more is
/// waited for; and what it does next.
pub open spec fn fed(c: ConnView, pieces: Seq<Seq<u8>>, configs: Seq<ServerView>) -> (
    ConnView,
    TransitionView,
)
    decreases pieces.len(),
{
    if pieces.len() == 0 {
        (c, TransitionView::NeedMoreData)
    } else {
        let (next, t) = advanced(received(c, pieces[0]), configs);
        if t == TransitionView::NeedMoreData && pieces.len() > 1 {
            fed(next, pieces.drop_first(), configs)
        } else {
            (next, t)
        }
    }
}

proof fn lemma_still_waiting(c: ConnView, a: Seq<u8>, configs: Seq<ServerView>)
    requires
        c.wf(),
        c.read_buf.len() + a.len() <= usize::MAX,
        advanced(received(c, a), configs).1 == TransitionView::NeedMoreData,
    ensures
        advanced(received(c, a), configs).0.wf(),
        advanced(received(c, a), configs).0.read_buf.len() <= c.read_buf.len() + a.len(),
        advanced(received(c, a), configs).0.local_port == c.local_port,
{
    if c.phase is ReadingHeaders {
        parser::lemma_head_consumed(c.read_buf + a);
    }
}

/// Where more is waited for until the last of some pieces, it makes no
/// difference that they come one after the other.
pub proof fn lemma_fed(c: ConnView, pieces: Seq<Seq<u8>>, configs: Seq<ServerView>)
    requires
        c.wf(),
        pieces.len() > 0,
        c.read_buf.len() + whole_of(pieces).len() <= usize::MAX,
        forall|k: int|
            0 < k < pieces.len() ==> advanced(
                received(c, whole_of(#[trigger] pieces.take(k))),
                configs,
            ).1 == TransitionView::NeedMoreData,
    ensures
        fed(c, pieces, configs) == advanced(received(c, whole_of(pieces)), configs),
    decreases pieces.len(),
{
    let tail = pieces.drop_first();
    let first = pieces[0];
    if pieces.len() == 1 {
        assert(whole_of(tail) =~= Seq::empty());
        assert(whole_of(pieces) =~= first);
    } else {
        let one = pieces.take(1);
        assert(whole_of(one.drop_first()) =~= Seq::empty());
        assert(whole_of(one) =~= first);
        lemma_still_waiting(c, first, configs);
        let d = advanced(received(c, first), configs).0;
        assert forall|k: int| 0 < k < tail.len() implies advanced(
            received(d, whole_of(#[trigger] tail.take(k))),
            configs,
        ).1 == TransitionView::NeedMoreData by {
            let longer = pieces.take(k + 1);
            assert(longer.drop_first() =~= tail.take(k));
            assert(whole_of(longer) == first + whole_of(tail.take(k)));
            lemma_whole_of_take(tail, k);
            lemma_pieces(c, first, whole_of(tail.take(k)), configs);
        }
        lemma_fed(d, tail, configs);
        lemma_pieces(c, first, whole_of(tail), configs);
    }
}

/// The first pieces put together begin the whole, and are shorter where none of
/// the others is empty.
proof fn lemma_whole_of_take(pieces: Seq<Seq<u8>>, k: int)
    requires
        0 <= k <= pieces.len(),
    ensures
        whole_of(pieces.take(k)).len() <= whole_of(pieces).len(),
        whole_of(pieces.take(k)) == whole_of(pieces).take(
            whole_of(pieces.take(k)).len() as int,
        ),
        (forall|i: int| 0 <= i < pieces.len() ==> (#[trigger] pieces[i]).len() > 0) && k
            < pieces.len() ==> whole_of(pieces.take(k)).len() < whole_of(pieces).len(),
        (forall|i: int| 0 <= i < pieces.len() ==> (#[trigger] pieces[i]).len() > 0) && k > 0
            ==> whole_of(pieces.take(k)).len() > 0,
    decreases pieces.len(),
{
    let t = pieces.take(k);
    if k == 0 {
        assert(whole_of(t) =~= Seq::empty());
        assert(whole_of(pieces).take(0) =~= Seq::empty());
        if pieces.len() > 0 {
            assert(pieces[0].len() > 0 ==> whole_of(pieces).len() > 0);
        }
    } else {
        let tail = pieces.drop_first();
        assert(t.drop_first() =~= tail.take(k - 1));
        lemma_whole_of_take(tail, k - 1);
        assert(whole_of(t) =~= whole_of(pieces).take(whole_of(t).len() as int));
        if forall|i: int| 0 <= i < pieces.len() ==> (#[trigger] pieces[i]).len() > 0 {
            assert forall|i: int| 0 <= i < tail.len() implies (#[trigger] tail[i]).len() > 0 by {
                assert(tail[i] == pieces[i + 1]);
            }
        }
    }
}

/// Whether what a connection reads goes with the head of its request.
pub open spec fn reads_its_body(c: ConnView) -> bool {
    &&& c.phase matches PhaseView::ReadingBody { expected, .. } ==> c.request is Some
        && !c.request->0.chunked() && c.request->0.content_length() == Some(expected)
    &&& c.phase is ReadingChunked ==> c.request is Some && c.request->0.chunked()
}

/// A request is handed over with its whole body: as long as its head says, and
/// empty where its head says nothing. While more is waited for, what is read
/// goes on to go with the head.
pub proof fn lemma_whole_body(c: ConnView, configs: Seq<ServerView>)
    requires
        c.wf(),
        reads_its_body(c),
    ensures
        advanced(c, configs).1 matches TransitionView::Dispatch { request, .. } ==> {
            ||| request.chunked()
            ||| request.content_length() matches Some(n) && request.body.len() == n
            ||| request.content_length() is None && request.body.len() == 0
        },
        advanced(c, configs).1 == TransitionView::NeedMoreData ==> reads_its_body(
            advanced(c, configs).0,
        ),
{
    if c.phase is ReadingHeaders {
        parser::lemma_head_consumed(c.read_buf);
    }
}

/// The request that a head asks for, without a body.
pub open spec fn sent_request(
    m: Method,
    uri: Seq<char>,
    v: Version,
    headers: Seq<(Seq<char>, Seq<char>)>,
) -> RequestView {
    RequestView {
        method: m,
        path: parser::percent_text(parser::raw_path(uri)),
        query: parser::raw_query(uri),
        version: v,
        headers: parser::with_headers(Map::empty(), headers, 0),
        body: Seq::empty(),
    }
}

/// A request handed over to the server and the route that answer it.
pub open spec fn handed_over(
    request: RequestView,
    port: u16,
    configs: Seq<ServerView>,
) -> TransitionView {
    let server = matcher::selected(configs, request.host(), port);
    TransitionView::Dispatch {
        request,
        server,
        route: matcher::matched(configs[server].routes, request.path),
    }
}

/// Whether a head says how its body is sent: with its length, which may be left
/// out where it is zero, or in chunks.
pub open spec fn says_its_body(
    request: RequestView,
    chunks: Seq<Seq<u8>>,
    in_chunks: bool,
) -> bool {
    if in_chunks {
        request.chunked()
    } else {
        !request.chunked() && match request.content_length() {
            Some(n) => n == body::body_of(chunks).len(),
            None => body::body_of(chunks).len() == 0,
        }
    }
}

/// A request on the wire: its head, and its body, cut into chunks or as it is.
pub open spec fn sent_whole(head: Seq<u8>, chunks: Seq<Seq<u8>>, in_chunks: bool) -> Seq<u8> {
    if in_chunks {
        head + body::in_chunks(chunks)
    } else {
        head + body::body_of(chunks)
    }
}

/// A body whose chunks are complete is handed over with its head.
proof fn lemma_head_then_chunks(
    c: ConnView,
    request: RequestView,
    chunks: Seq<Seq<u8>>,
    configs: Seq<ServerView>,
)
    requires
        configs.len() > 0,
        request.chunked(),
        forall|i: int| 0 <= i < chunks.len() ==> 0 < (#[trigger] chunks[i]).len() <= usize::MAX,
    ensures
        advanced_head(c, request, body::in_chunks(chunks), configs).1 == handed_over(
            (RequestView { body: body::body_of(chunks), ..request }),
            c.local_port,
            configs,
        ),
{
    let sent = body::in_chunks(chunks);
    body::lemma_chunks_read_back(chunks, Seq::empty());
    assert(sent + Seq::<u8>::empty() =~= sent);
}

/// A body as long as its head says is handed over with its head.
proof fn lemma_head_then_body(
    c: ConnView,
    request: RequestView,
    bytes: Seq<u8>,
    configs: Seq<ServerView>,
)
    requires
        configs.len() > 0,
        !request.chunked(),
        request.body.len() == 0,
        match request.content_length() {
            Some(n) => n == bytes.len(),
            None => bytes.len() == 0,
        },
    ensures
        advanced_head(c, request, bytes, configs).1 == handed_over(
            (RequestView { body: bytes, ..request }),
            c.local_port,
            configs,
        ),
{
    assert(bytes.take(bytes.len() as int) =~= bytes);
    if bytes.len() == 0 {
        assert(bytes =~= request.body);
    }
}

/// What a client sends is what is answered: a request that comes in on a
/// connection with nothing before it is handed over with the method, path,
/// query, version, headers and body that were sent, whether the body comes with
/// its length or in chunks. Only the head has a limit.
pub proof fn lemma_request_handed_over(
    c: ConnView,
    m: Method,
    uri: Seq<char>,
    v: Version,
    headers: Seq<(Seq<char>, Seq<char>)>,
    chunks: Seq<Seq<u8>>,
    in_chunks: bool,
    configs: Seq<ServerView>,
)
    requires
        c.phase is ReadingHeaders,
        c.read_buf.len() == 0,
        configs.len() > 0,
        parser::sendable_uri(uri),
        !uri.contains('\r'),
        forall|i: int| 0 <= i < headers.len() ==> parser::sendable_header(#[trigger] headers[i]),
        forall|i: int| 0 <= i < chunks.len() ==> 0 < (#[trigger] chunks[i]).len() <= usize::MAX,
        parser::sent_head(m, uri, v, headers).len() <= parser::MAX_HEADER_BYTES,
        says_its_body(sent_request(m, uri, v, headers), chunks, in_chunks),
    ensures
        advanced(
            received(c, sent_whole(parser::sent_head(m, uri, v, headers), chunks, in_chunks)),
            configs,
        ).1 == handed_over(
            (RequestView {
                body: body::body_of(chunks),
                ..sent_request(m, uri, v, headers)
            }),
            c.local_port,
            configs,
        ),
{
    let head = parser::sent_head(m, uri, v, headers);
    let request = sent_request(m, uri, v, headers);
    let whole = sent_whole(head, chunks, in_chunks);
    let sent = whole.skip(head.len() as int);
    let d = received(c, whole);
    assert(c.read_buf + whole =~= whole);
    assert(whole =~= head + sent);
    parser::lemma_request_reads_back(m, uri, v, headers, sent);
    assert(advanced(d, configs) == advanced_head(d, request, sent, configs));
    if in_chunks {
        assert(sent =~= body::in_chunks(chunks));
        lemma_head_then_chunks(d, request, chunks, configs);
    } else {
        assert(sent =~= body::body_of(chunks));
        lemma_head_then_body(d, request, sent, configs);
    }
}

/// A request of which the last byte has not come is waited for.
#[verifier::rlimit(50)]
proof fn lemma_part_is_waited_for(
    c: ConnView,
    m: Method,
    uri: Seq<char>,
    v: Version,
    headers: Seq<(Seq<char>, Seq<char>)>,
    chunks: Seq<Seq<u8>>,
    in_chunks: bool,
    n: int,
    configs: Seq<ServerView>,
)
    requires
        c.phase is ReadingHeaders,
        c.read_buf.len() == 0,
        parser::sendable_uri(uri),
        !uri.contains('\r'),
        forall|i: int| 0 <= i < headers.len() ==> parser::sendable_header(#[trigger] headers[i]),
        forall|i: int| 0 <= i < chunks.len() ==> 0 < (#[trigger] chunks[i]).len() <= usize::MAX,
        parser::sent_head(m, uri, v, headers).len() <= parser::MAX_HEADER_BYTES,
        says_its_body(sent_request(m, uri, v, headers), chunks, in_chunks),
        0 <= n < sent_whole(parser::sent_head(m, uri, v, headers), chunks, in_chunks).len(),
    ensures
        advanced(
            received(
                c,
                sent_whole(parser::sent_head(m, uri, v, headers), chunks, in_chunks).take(n),
            ),
            configs,
        ).1 == TransitionView::NeedMoreData,
{
    let head = parser::sent_head(m, uri, v, headers);
    let whole = sent_whole(head, chunks, in_chunks);
    let sent = whole.skip(head.len() as int);
    let part = whole.take(n);
    assert(c.read_buf + part =~= part);
    assert(whole =~= head + sent);
    if n < head.len() {
        parser::lemma_request_reads_back(m, uri, v, headers, Seq::empty());
        assert(head + Seq::<u8>::empty() =~= head);
        assert(part + head.skip(n) =~= head);
        parser::lemma_head_stable(part, head.skip(n));
        parser::lemma_head_consumed(part);
    } else {
        let there = sent.take(n - head.len());
        assert(part =~= head + there);
        parser::lemma_request_reads_back(m, uri, v, headers, there);
        assert(part.skip(head.len() as int) =~= there);
        if in_chunks {
            assert(sent =~= body::in_chunks(chunks));
            body::lemma_chunks_read_back(chunks, Seq::empty());
            assert(sent + Seq::<u8>::empty() =~= sent);
            let more = sent.skip(n - head.len());
            assert(there + more =~= sent);
            body::lemma_chunked_stable(there, more);
            body::lemma_chunked_consumed(there);
        } else {
            assert(sent =~= body::body_of(chunks));
        }
    }
}

/// What a client sends is what is answered, in whatever pieces it comes: none of
/// them empty, a request is waited for until its last piece is there, and then
/// handed over as it was sent. Only the head has a limit.
pub proof fn lemma_request_in_pieces(
    c: ConnView,
    m: Method,
    uri: Seq<char>,
    v: Version,
    headers: Seq<(Seq<char>, Seq<char>)>,
    chunks: Seq<Seq<u8>>,
    in_chunks: bool,
    pieces: Seq<Seq<u8>>,
    configs: Seq<ServerView>,
)
    requires
        c.wf(),
        c.phase is ReadingHeaders,
        c.read_buf.len() == 0,
        configs.len() > 0,
        parser::sendable_uri(uri),
        !uri.contains('\r'),
        forall|i: int| 0 <= i < headers.len() ==> parser::sendable_header(#[trigger] headers[i]),
        forall|i: int| 0 <= i < chunks.len() ==> 0 < (#[trigger] chunks[i]).len() <= usize::MAX,
        parser::sent_head(m, uri, v, headers).len() <= parser::MAX_HEADER_BYTES,
        says_its_body(sent_request(m, uri, v, headers), chunks, in_chunks),
        whole_of(pieces) == sent_whole(parser::sent_head(m, uri, v, headers), chunks, in_chunks),
        whole_of(pieces).len() <= usize::MAX,
        forall|i: int| 0 <= i < pieces.len() ==> (#[trigger] pieces[i]).len() > 0,
    ensures
        fed(c, pieces, configs).1 == handed_over(
            (RequestView {
                body: body::body_of(chunks),
                ..sent_request(m, uri, v, headers)
            }),
            c.local_port,
            configs,
        ),
{
    lemma_request_handed_over(c, m, uri, v, headers, chunks, in_chunks, configs);
    assert(pieces.len() > 0) by {
        assert(parser::sent_head(m, uri, v, headers).len() >= 4);
    }
    assert forall|k: int| 0 < k < pieces.len() implies advanced(
        received(c, whole_of(#[trigger] pieces.take(k))),
        configs,
    ).1 == TransitionView::NeedMoreData by {
        lemma_whole_of_take(pieces, k);
        let n = whole_of(pieces.take(k)).len() as int;
        lemma_part_is_waited_for(c, m, uri, v, headers, chunks, in_chunks, n, configs);
    }
    lemma_fed(c, pieces, configs);
}

/// A connection that waits for more is still reading; one that has a response
/// ready is sending it from its first byte.
pub proof fn lemma_next_phase(c: ConnView, configs: Seq<ServerView>)
    ensures
        advanced(c, configs).1 == TransitionView::NeedMoreData ==> {
            let p = advanced(c, configs).0.phase;
            p is ReadingHeaders || p is ReadingBody || p is ReadingChunked
        },
        advanced(c, configs).1 == TransitionView::ResponseReady ==> advanced(c, configs).0.phase
            == (PhaseView::WritingResponse { bytes_written: 0 }),
        advanced(c, configs).1 is Dispatch ==> advanced(c, configs).0.phase
            == PhaseView::Processing && advanced(c, configs).0.request is None,
{
}

/// Whether a phase may come next after another: a request is read, and then
/// answered at once or by a script; the answer is sent; and then the connection
/// is done, or reads the next request. A phase may also go on.
pub open spec fn may_follow(from: PhaseView, to: PhaseView) -> bool {
    match from {
        PhaseView::ReadingHeaders => to is ReadingHeaders || to is ReadingBody
            || to is ReadingChunked || to is Processing || to is WritingResponse,
        PhaseView::ReadingBody { .. } => to is ReadingBody || to is Processing
            || to is WritingResponse,
        PhaseView::ReadingChunked { .. } => to is ReadingChunked || to is Processing
            || to is WritingResponse,
        PhaseView::Processing => to is Processing || to is AwaitingCgi || to is WritingResponse,
        PhaseView::AwaitingCgi { .. } => to is AwaitingCgi || to is WritingResponse,
        PhaseView::WritingResponse { .. } => to is WritingResponse || to is ReadingHeaders
            || to is Done,
        PhaseView::Done => to is Done,
    }
}

proof fn lemma_phase_with_body(c: ConnView, bytes: Seq<u8>, configs: Seq<ServerView>)
    ensures
        ({
            let p = completed(c, bytes, configs).0.phase;
            p is Processing || p is WritingResponse
        }),
{
}

proof fn lemma_phase_with_head(
    c: ConnView,
    request: RequestView,
    rest: Seq<u8>,
    configs: Seq<ServerView>,
)
    ensures
        may_follow(PhaseView::ReadingHeaders, advanced_head(c, request, rest, configs).0.phase),
{
}

proof fn lemma_advanced_phase(c: ConnView, configs: Seq<ServerView>)
    ensures
        may_follow(c.phase, advanced(c, configs).0.phase),
{
    match c.phase {
        PhaseView::ReadingHeaders => match parser::parsed_head(c.read_buf) {
            HeadView::Complete(request, n) => {
                lemma_phase_with_head(c, request, c.read_buf.skip(n), configs);
            },
            _ => {},
        },
        PhaseView::ReadingBody { expected, .. } => {
            lemma_phase_with_body(c, c.read_buf.take(expected as int), configs);
        },
        PhaseView::ReadingChunked { assembled } => {
            if let ChunkedView::Complete(bytes, _) = body::chunked_body(assembled) {
                lemma_phase_with_body(c, bytes, configs);
            }
        },
        _ => {},
    }
}

/// Connections go through their phases in order: whatever is received, read,
/// answered or sent. Nothing that comes in makes a connection leave its phase
/// until it is looked at, and only a connection that persists goes back to
/// reading.
pub proof fn lemma_phases(
    c: ConnView,
    bytes: Seq<u8>,
    configs: Seq<ServerView>,
    written: WriteResult,
    head_only: bool,
    r: ResponseView,
    now: u64,
    utc: UtcTime,
)
    ensures
        may_follow(c.phase, received(c, bytes).phase),
        may_follow(c.phase, advanced(c, configs).0.phase),
        may_follow(c.phase, flushed(c, written, now).0.phase),
        c.phase is Processing || c.phase is AwaitingCgi ==> may_follow(
            c.phase,
            responded(c, head_only, r, utc).phase,
        ),
        c.phase is WritingResponse && flushed(c, written, now).0.phase is ReadingHeaders
            ==> c.keep_alive,
{
    lemma_advanced_phase(c, configs);
}

/// No script runs for a request before it is handed over.
pub proof fn lemma_no_script_before(c: ConnView, bytes: Seq<u8>, configs: Seq<ServerView>)
    ensures
        received(c, bytes).cgi == c.cgi,
        advanced(c, configs).0.cgi == c.cgi,
{
    match c.phase {
        PhaseView::ReadingHeaders => match parser::parsed_head(c.read_buf) {
            HeadView::Complete(request, n) => {
                lemma_no_script_with_head(c, request, c.read_buf.skip(n), configs);
            },
            _ => {},
        },
        PhaseView::ReadingBody { expected, .. } => {
            lemma_no_script_with_body(c, c.read_buf.take(expected as int), configs);
        },
        PhaseView::ReadingChunked { assembled } => {
            if let ChunkedView::Complete(bytes, _) = body::chunked_body(assembled) {
                lemma_no_script_with_body(c, bytes, configs);
            }
        },
        _ => {},
    }
}

proof fn lemma_no_script_with_body(c: ConnView, bytes: Seq<u8>, configs: Seq<ServerView>)
    ensures
        completed(c, bytes, configs).0.cgi == c.cgi,
{
}

proof fn lemma_no_script_with_head(
    c: ConnView,
    request: RequestView,
    rest: Seq<u8>,
    configs: Seq<ServerView>,
)
    ensures
        advanced_head(c, request, rest, configs).0.cgi == c.cgi,
{
}

/// A connection that does not persist says so: the response that goes out has
/// the header `Connection` with the value `close`. One that persists leaves that
/// header as the response has it. Status and body are always those of the
/// response.
pub proof fn lemma_outgoing(c: ConnView, r: ResponseView)
    ensures
        !c.keep_alive ==> value_of(outgoing(c, r).headers, "Connection"@) == Some("close"@),
        c.keep_alive ==> value_of(outgoing(c, r).headers, "Connection"@) == value_of(
            r.headers,
            "Connection"@,
        ),
        outgoing(c, r).status == r.status,
        outgoing(c, r).body == r.body,
{
    let closing = if c.keep_alive {
        r.headers
    } else {
        with_set(r.headers, "Connection"@, "close"@)
    };
    if !c.keep_alive {
        lemma_set_reads_back(r.headers, "Connection"@, "close"@, "Connection"@);
    }
    if let Some(id) = c.pending_session_cookie {
        reveal_strlit("Connection");
        reveal_strlit("Set-Cookie");
        assert(text::lower("Connection"@)[0] == 'c');
        assert(text::lower("Set-Cookie"@)[0] == 's');
        lemma_value_of_push(
            closing,
            (
                "Set-Cookie"@,
                cookie::set_cookie_text(cookie::SESSION_COOKIE@, id, cookie::default_options()),
            ),
            "Connection"@,
        );
    }
}

/// A client that is told of a session is told of it once.
pub proof fn lemma_session_told_once(c: ConnView, head_only: bool, r: ResponseView, now: UtcTime)
    ensures
        responded(c, head_only, r, now).pending_session_cookie is None,
        c.pending_session_cookie is None && c.keep_alive ==> outgoing(c, r) == r,
{
}

/// Sending makes progress and ends: what is sent grows by what was written,
/// and the exchange ends exactly when nothing is left.
pub proof fn lemma_sending(c: ConnView, n: usize, now: u64)
    requires
        c.wf(),
        unsent_from(c) is Some,
        0 < n <= c.write_buf.len() - unsent_from(c)->0,
    ensures
        ({
            let (after, result) = flushed(c, WriteResult::BytesWritten(n), now);
            if unsent_from(c)->0 + n == c.write_buf.len() {
                &&& result == (FlushResult::Done { keep_alive: c.keep_alive })
                &&& unsent_from(after) is None
            } else {
                &&& result == FlushResult::Partial
                &&& after.write_buf == c.write_buf
                &&& unsent_from(after) == Some((unsent_from(c)->0 + n) as usize)
            }
        }),
{
}

/// The answers 400, 500 and 502 are a head and a body, and the body of each is as
/// long as its head says.
pub proof fn lemma_canned_answers()
    ensures
        HTTP_400@ == "HTTP/1.1 400 Bad Request\r\nContent-Type: text/plain\r\nContent-Length: 11\r\nConnection: close\r\n\r\n"@
            + "Bad Request"@,
        encode_utf8("Bad Request"@).len() == 11,
        HTTP_500@ == "HTTP/1.1 500 Internal Server Error\r\nContent-Type: text/plain\r\nContent-Length: 21\r\nConnection: close\r\n\r\n"@
            + "Internal Server Error"@,
        encode_utf8("Internal Server Error"@).len() == 21,
        HTTP_502@ == "HTTP/1.1 502 Bad Gateway\r\nContent-Type: text/html; charset=utf-8\r\nContent-Length: 93\r\nConnection: close\r\n\r\n"@
            + "<html><head><title>502 Bad Gateway</title></head><body><h1>502 Bad Gateway</h1></body></html>"@,
        encode_utf8("<html><head><title>502 Bad Gateway</title></head><body><h1>502 Bad Gateway</h1></body></html>"@).len() == 93,
{
    reveal_strlit(
        "HTTP/1.1 400 Bad Request\r\nContent-Type: text/plain\r\nContent-Length: 11\r\nConnection: close\r\n\r\nBad Request",
    );
    reveal_strlit(
        "HTTP/1.1 400 Bad Request\r\nContent-Type: text/plain\r\nContent-Length: 11\r\nConnection: close\r\n\r\n",
    );
    reveal_strlit("Bad Request");
    assert(HTTP_400@
        =~= "HTTP/1.1 400 Bad Request\r\nContent-Type: text/plain\r\nContent-Length: 11\r\nConnection: close\r\n\r\n"@
        + "Bad Request"@);
    vstd::utf8::is_ascii_chars_encode_utf8("Bad Request"@);
    reveal_strlit(
        "HTTP/1.1 500 Internal Server Error\r\nContent-Type: text/plain\r\nContent-Length: 21\r\nConnection: close\r\n\r\nInternal Server Error",
    );
    reveal_strlit(
        "HTTP/1.1 500 Internal Server Error\r\nContent-Type: text/plain\r\nContent-Length: 21\r\nConnection: close\r\n\r\n",
    );
    reveal_strlit("Internal Server Error");
    assert(HTTP_500@
        =~= "HTTP/1.1 500 Internal Server Error\r\nContent-Type: text/plain\r\nContent-Length: 21\r\nConnection: close\r\n\r\n"@
        + "Internal Server Error"@);
    vstd::utf8::is_ascii_chars_encode_utf8("Internal Server Error"@);
    reveal_strlit(
        "HTTP/1.1 502 Bad Gateway\r\nContent-Type: text/html; charset=utf-8\r\nContent-Length: 93\r\nConnection: close\r\n\r\n<html><head><title>502 Bad Gateway</title></head><body><h1>502 Bad Gateway</h1></body></html>",
    );
    reveal_strlit(
        "HTTP/1.1 502 Bad Gateway\r\nContent-Type: text/html; charset=utf-8\r\nContent-Length: 93\r\nConnection: close\r\n\r\n",
    );
    reveal_strlit("<html><head><title>502 Bad Gateway</title></head><body><h1>502 Bad Gateway</h1></body></html>");
    assert(HTTP_502@
        =~= "HTTP/1.1 502 Bad Gateway\r\nContent-Type: text/html; charset=utf-8\r\nContent-Length: 93\r\nConnection: close\r\n\r\n"@
        + "<html><head><title>502 Bad Gateway</title></head><body><h1>502 Bad Gateway</h1></body></html>"@);
    vstd::utf8::is_ascii_chars_encode_utf8("<html><head><title>502 Bad Gateway</title></head><body><h1>502 Bad Gateway</h1></body></html>"@);
}

/// A connection is closed behind the answer to a malformed request, whether its
/// head or its chunks are malformed, and whatever it was to do before.
pub proof fn lemma_refused_closes(c: ConnView, configs: Seq<ServerView>, now: u64)
    ensures
        c.phase is ReadingHeaders && parser::parsed_head(c.read_buf) is Error ==> advanced(
            c,
            configs,
        ) == (refused(c), TransitionView::ResponseReady),
        c.phase matches PhaseView::ReadingChunked { assembled } && body::chunked_body(
            assembled,
        ) is Error ==> advanced(c, configs) == (refused(c), TransitionView::ResponseReady),
        refused(c).finished(now).phase is Done,
{
}

/// An event is for the listening socket or the script's pipe that it is on,
/// whatever it says; on a connection, an end goes before data to be read, and that
/// before room to write.
pub proof fn lemma_events(r: RegistryView, fd: i32, events: u32)
    ensures
        r.listeners.dom().contains(fd) ==> event_step(r, fd, events) == EventStep::Accept,
        !r.listeners.dom().contains(fd) && r.cgi_fds.dom().contains(fd) ==> event_step(
            r,
            fd,
            events,
        ) == EventStep::Script,
        !r.listeners.dom().contains(fd) && !r.cgi_fds.dom().contains(fd) ==> {
            let over = events & 0x8 != 0 || events & 0x10 != 0 || events & 0x2000 != 0;
            let data = events & 0x1 != 0;
            let room = events & 0x4 != 0;
            &&& over ==> event_step(r, fd, events) == EventStep::Close
            &&& !over && data ==> event_step(r, fd, events) == EventStep::Read
            &&& !over && !data && room ==> event_step(r, fd, events) == EventStep::Write
            &&& !over && !data && !room ==> event_step(r, fd, events) == EventStep::Ignore
        },
{
    epoll::lemma_ended(events);
}

/// Bytes that come in stand behind those that are there, and nothing else of the
/// connection changes.
pub proof fn lemma_received(c: ConnView, bytes: Seq<u8>)
    ensures
        c.phase is ReadingHeaders ==> received(c, bytes) == (ConnView {
            read_buf: c.read_buf + bytes,
            ..c
        }),
        c.phase is ReadingBody && c.wf() && c.read_buf.len() + bytes.len() <= usize::MAX ==> {
            &&& received(c, bytes).read_buf == c.read_buf + bytes
            &&& received(c, bytes).wf()
            &&& received(c, bytes).phase is ReadingBody
            &&& received(c, bytes).phase->expected == c.phase->expected
        },
        c.phase matches PhaseView::ReadingChunked { assembled } ==> received(c, bytes) == (ConnView {
            phase: PhaseView::ReadingChunked { assembled: assembled + bytes },
            ..c
        }),
        received(c, bytes) == (ConnView {
            read_buf: received(c, bytes).read_buf,
            phase: received(c, bytes).phase,
            ..c
        }),
{
}

/// A malformed request is answered with 400 and ends the connection; a request
/// that no server is configured for is answered with 500.
pub proof fn lemma_answered_at_once(c: ConnView, configs: Seq<ServerView>)
    ensures
        refused(c).write_buf == encode_utf8(HTTP_400@),
        refused(c).phase == (PhaseView::WritingResponse { bytes_written: 0 }),
        !refused(c).keep_alive,
        refused(c).fd == c.fd && refused(c).cgi == c.cgi && refused(c).request == c.request,
        configs.len() == 0 || c.request is None ==> processed(c, configs) == (
            ConnView {
                write_buf: encode_utf8(HTTP_500@),
                phase: PhaseView::WritingResponse { bytes_written: 0 },
                ..c
            },
            TransitionView::ResponseReady,
        ),
{
}

/// A connection persists behind a request as the request asks for, as soon as its
/// head is there.
pub proof fn lemma_persistence(c: ConnView, configs: Seq<ServerView>)
    requires
        c.phase is ReadingHeaders,
        parser::parsed_head(c.read_buf) is Complete,
    ensures
        ({
            let request = parser::parsed_head(c.read_buf)->Complete_0;
            let (after, t) = advanced(c, configs);
            &&& t == TransitionView::NeedMoreData || t is Dispatch ==> after.keep_alive
                == request.keep_alive()
            &&& t == TransitionView::NeedMoreData ==> after.request == Some(request)
        }),
{
}

/// What is sent is the response as it is, but that one behind which the
/// connection ends says so, and that the client is told of a session that was
/// made for it.
pub proof fn lemma_added_headers(c: ConnView, r: ResponseView, id: Seq<char>)
    ensures
        c.keep_alive && c.pending_session_cookie is None ==> outgoing(c, r) == r,
        c.keep_alive && c.pending_session_cookie == Some(id) ==> outgoing(c, r).headers
            == r.headers.push(
            ("Set-Cookie"@, "SID="@ + id + "; Path=/; Max-Age=3600; HttpOnly; SameSite=Lax"@),
        ),
        !c.keep_alive && c.pending_session_cookie is None ==> outgoing(c, r).headers == with_set(
            r.headers,
            "Connection"@,
            "close"@,
        ),
        !c.keep_alive && c.pending_session_cookie == Some(id) ==> outgoing(c, r).headers
            == with_set(r.headers, "Connection"@, "close"@).push(
            ("Set-Cookie"@, "SID="@ + id + "; Path=/; Max-Age=3600; HttpOnly; SameSite=Lax"@),
        ),
{
    let o = cookie::default_options();
    cookie::lemma_set_cookie("SID"@, id, o);
    reveal_strlit("SID=");
    reveal_strlit("SID");
    reveal_strlit("; Path=");
    reveal_strlit("/");
    reveal_strlit("; Max-Age=");
    reveal_strlit("; HttpOnly");
    reveal_strlit("; SameSite=");
    reveal_strlit("Lax");
    reveal_strlit("; Path=/; Max-Age=3600; HttpOnly; SameSite=Lax");
    reveal_with_fuel(text::decimal, 5);
    assert(text::decimal(3600) =~= seq!['3', '6', '0', '0']);
    assert("SID"@ + seq!['='] =~= "SID="@);
    let tail = "; Path="@ + "/"@ + "; Max-Age="@ + seq!['3', '6', '0', '0'] + "; HttpOnly"@
        + "; SameSite="@ + "Lax"@;
    assert(tail =~= "; Path=/; Max-Age=3600; HttpOnly; SameSite=Lax"@);
    assert(cookie::set_cookie_text("SID"@, id, o) =~= "SID="@ + id + tail);
}

/// To `HEAD` the head of the response is sent, and to other methods all of it;
/// and it is sent from its first byte.
pub proof fn lemma_sent(c: ConnView, r: ResponseView, now: UtcTime)
    ensures
        responded(c, true, r, now).write_buf == writer::head_bytes(outgoing(c, r), now),
        responded(c, false, r, now).write_buf == writer::serialized(outgoing(c, r), now),
        responded(c, false, r, now).phase == (PhaseView::WritingResponse { bytes_written: 0 }),
        responded(c, true, r, now).phase == (PhaseView::WritingResponse { bytes_written: 0 }),
        responded(c, false, r, now).keep_alive == c.keep_alive,
        responded(c, true, r, now).keep_alive == c.keep_alive,
{
}

/// A pipe is seen to for the connection whose script it belongs to: the script's
/// output is read where it is that, and its input is written where it is not. A
/// pipe without a connection, or whose connection has no script, is dropped.
pub proof fn lemma_pipe_seen_to(r: RegistryView, pipe: i32)
    ensures
        !r.cgi_fds.dom().contains(pipe) ==> cgi_step(r, pipe) == CgiStep::Drop,
        r.cgi_fds.dom().contains(pipe) ==> {
            let owner_fd = r.cgi_fds[pipe];
            let c = r.connections[owner_fd]@;
            &&& !r.connections.dom().contains(owner_fd) ==> cgi_step(r, pipe) == CgiStep::Drop
            &&& r.connections.dom().contains(owner_fd) && c.cgi is None ==> cgi_step(r, pipe)
                == CgiStep::Drop
            &&& r.connections.dom().contains(owner_fd) && c.cgi is Some && c.cgi->0.stdout_fd
                == pipe ==> cgi_step(r, pipe) == (CgiStep::Stdout { owner_fd })
            &&& r.connections.dom().contains(owner_fd) && c.cgi is Some && c.cgi->0.stdout_fd
                != pipe ==> cgi_step(r, pipe) == (CgiStep::Stdin { owner_fd })
        },
{
}

/// A script is answered for by what it printed; one that printed nothing, or whose
/// output could not be read, is answered with 502.
pub proof fn lemma_script_answer(p: ProcessView, r: ResponseView)
    ensures
        script_answer(p, true).status == 502,
        p.out_buf.len() == 0 ==> script_answer(p, false).status == 502,
        p.out_buf.len() > 0 && builder::script_response(p.out_buf) == Ok::<
            ResponseView,
            Seq<char>,
        >(r) ==> script_answer(p, false) == r,
        builder::script_response(p.out_buf) is Err ==> script_answer(p, false).status == 502,
{
}

/// The pipes of a connection are those of its script, and what is left of the
/// script when the connection closes is all that has to be cleaned up.
pub proof fn lemma_script_remains(c: ConnView, fd: i32)
    ensures
        c.cgi is None ==> !pipes(c).contains(fd) && remains(c) is None,
        c.cgi is Some ==> {
            let p = c.cgi->0;
            &&& pipes(c).contains(fd) <==> fd == p.stdout_fd || p.stdin_fd == Some(fd)
            &&& remains(c) is Some
            &&& remains(c)->0.pid == p.pid
            &&& remains(c)->0.stdout_fd == p.stdout_fd
            &&& remains(c)->0.stdin_fd == p.stdin_fd
        },
{
}

/// A connection that sends nothing, or that cannot send now, stays as it is; a
/// failure is passed on; and where all is sent already, nothing more is.
pub proof fn lemma_flush_stops(c: ConnView, e: i32, n: usize, now: u64)
    ensures
        !(c.phase is WritingResponse) ==> flushed(c, WriteResult::BytesWritten(n), now) == (
            c,
            FlushResult::Error((-1) as i32),
        ),
        unsent_from(c) is Some ==> flushed(c, WriteResult::WouldBlock, now) == (
            c,
            FlushResult::Partial,
        ) && flushed(c, WriteResult::Error(e), now) == (c, FlushResult::Error(e)),
        c.phase is WritingResponse && unsent_from(c) is None ==> flushed(
            c,
            WriteResult::BytesWritten(n),
            now,
        ) == (c.finished(now), FlushResult::Done { keep_alive: c.keep_alive }),
        unsent_from(c) matches Some(k) ==> c.phase == (PhaseView::WritingResponse {
            bytes_written: k,
        }) && k < c.write_buf.len(),
        c.phase matches PhaseView::WritingResponse { bytes_written } ==> (unsent_from(c) is Some
            <==> bytes_written < c.write_buf.len()),
{
}

/// Closing a connection takes the pipes of its script off the list, and no
/// others, and leaves what listens.
pub proof fn lemma_close_leaves(r: RegistryView, fd: i32, pipe: i32)
    requires
        r.connections.dom().contains(fd),
    ensures
        closed_one(r, fd).listeners == r.listeners,
        closed_one(r, fd).cgi_fds.dom().contains(pipe) <==> r.cgi_fds.dom().contains(pipe) && !(
        r.connections[fd]@.cgi is Some && (r.connections[fd]@.cgi->0.stdout_fd == pipe
            || r.connections[fd]@.cgi->0.stdin_fd == Some(pipe))),
        closed_one(r, fd).cgi_fds.dom().contains(pipe) ==> closed_one(r, fd).cgi_fds[pipe]
            == r.cgi_fds[pipe],
{
}

/// A connection expires once it has waited longer than its phase allows: for the
/// head of a request as long as is set, for a body a minute, for a response to go
/// out a minute, for a script half a minute, and five seconds in between. One that
/// is done never expires.
pub proof fn lemma_expired(c: ConnView, headers: u64, now: u64)
    ensures
        ({
            let idle = now - c.last_activity;
            &&& c.phase is ReadingHeaders ==> expired(c, headers, now) == if idle > headers {
                Some(TimeoutClass::RequestTimeout)
            } else {
                None
            }
            &&& c.phase is ReadingBody || c.phase is ReadingChunked ==> expired(c, headers, now)
                == if idle > 60_000 {
                Some(TimeoutClass::RequestTimeout)
            } else {
                None
            }
            &&& c.phase is WritingResponse ==> expired(c, headers, now) == if idle > 60_000 {
                Some(TimeoutClass::GatewayTimeout)
            } else {
                None
            }
            &&& c.phase is AwaitingCgi ==> expired(c, headers, now) == if idle > 30_000 {
                Some(TimeoutClass::GatewayTimeout)
            } else {
                None
            }
            &&& c.phase is Processing ==> expired(c, headers, now) == if idle > 5_000 {
                Some(TimeoutClass::GatewayTimeout)
            } else {
                None
            }
            &&& c.phase is Done ==> expired(c, headers, now) is None
        }),
{
}

/// A request goes to the server that is chosen by its host and the port, and to
/// the route that is chosen by its path, with the body that was read for it.
pub proof fn lemma_handed_on(c: ConnView, bytes: Seq<u8>, configs: Seq<ServerView>)
    requires
        configs.len() > 0,
        c.request is Some,
    ensures
        ({
            let (after, t) = completed(c, bytes, configs);
            let request = RequestView { body: bytes, ..c.request->0 };
            let server = matcher::selected(configs, request.host(), c.local_port);
            &&& t == (TransitionView::Dispatch {
                request,
                server,
                route: matcher::matched(configs[server].routes, request.path),
            })
            &&& after.phase is Processing
            &&& after.request is None
            &&& after.read_buf.len() == 0
            &&& after.keep_alive == c.keep_alive
        }),
{
}

/// A body of a given length is the bytes up to that length, whatever follows them,
/// and is waited for until they are there.
pub proof fn lemma_body_cut(c: ConnView, expected: usize, configs: Seq<ServerView>)
    requires
        configs.len() > 0,
        c.request is Some,
    ensures
        c.read_buf.len() < expected ==> advanced_body(c, expected, configs) == (
            c,
            TransitionView::NeedMoreData,
        ),
        c.read_buf.len() >= expected ==> (advanced_body(c, expected, configs).1 matches
            TransitionView::Dispatch { request, .. } && request.body == c.read_buf.subrange(
            0,
            expected as int,
        ) && request.headers == c.request->0.headers && request.path == c.request->0.path),
{
    if c.read_buf.len() >= expected {
        assert(c.read_buf.take(expected as int) =~= c.read_buf.subrange(0, expected as int));
    }
}

/// A connection that reads nothing is closed when there is something to read.
pub proof fn lemma_nothing_to_read(c: ConnView, configs: Seq<ServerView>)
    ensures
        c.phase is Processing || c.phase is WritingResponse || c.phase is AwaitingCgi || c.phase
            is Done ==> advanced(c, configs) == (c, TransitionView::Close),
{
}

} // verus!
