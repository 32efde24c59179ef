//! One connection, from its first byte to its last.
//!
//! ```text
//!   ReadingHeaders
//!       |  (head complete)
//!       v
//!   ReadingBody, ReadingChunked --(body complete)--> Processing
//!   (no body) -------------------------------------> Processing
//!                                                        |
//!                                      +-----------------+----------------+
//!                                      v                                  v
//!                               WritingResponse <--(script done)-- AwaitingCgi
//!                                      |
//!                                      v
//!                                    Done
//! ```
//!
//! Times are in milliseconds on one clock that never goes back.

use vstd::prelude::*;
use vstd::string::*;

use crate::cgi::{CgiProcess, ProcessView};
use crate::http::request::types::{Request, RequestView};
use crate::session::store::SessionId;
use crate::text;

verus! {

/// The address of a client.
#[derive(Debug, Clone)]
pub struct PeerAddr {
    pub ip: String,
    pub port: u16,
}

/// A [`PeerAddr`] with a text for its string.
#[verifier::ext_equal]
pub struct PeerView {
    pub ip: Seq<char>,
    pub port: u16,
}

impl View for PeerAddr {
    type V = PeerView;

    open spec fn view(&self) -> PeerView {
        PeerView { ip: self.ip@, port: self.port }
    }
}

// ---------------------------------------------------------------------------
// Phases
// ---------------------------------------------------------------------------

/// Where a connection is.
#[derive(Debug)]
pub enum ConnectionPhase {
    /// The head of a request is coming in.
    ReadingHeaders,
    /// The head is there, and a body of a given length is coming in.
    ReadingBody {
        /// How long the body is.
        expected: usize,
        /// How much of it is there.
        bytes_read: usize,
    },
    /// The head is there, and a body in chunks is coming in.
    ReadingChunked {
        /// The bytes of its chunks so far.
        assembled: Vec<u8>,
    },
    /// The request is there, and is being answered.
    Processing,
    /// The response is going out.
    WritingResponse {
        /// How much of it has gone.
        bytes_written: usize,
    },
    /// A script makes the response.
    AwaitingCgi { child_pid: i32, pipe_fd: i32 },
    /// All is sent, and the connection is to be closed.
    Done,
}

/// A [`ConnectionPhase`] with sequences for its buffers.
#[verifier::ext_equal]
pub enum PhaseView {
    ReadingHeaders,
    ReadingBody { expected: usize, bytes_read: usize },
    ReadingChunked { assembled: Seq<u8> },
    Processing,
    WritingResponse { bytes_written: usize },
    AwaitingCgi { child_pid: i32, pipe_fd: i32 },
    Done,
}

impl View for ConnectionPhase {
    type V = PhaseView;

    open spec fn view(&self) -> PhaseView {
        match self {
            ConnectionPhase::ReadingHeaders => PhaseView::ReadingHeaders,
            ConnectionPhase::ReadingBody { expected, bytes_read } => PhaseView::ReadingBody {
                expected: *expected,
                bytes_read: *bytes_read,
            },
            ConnectionPhase::ReadingChunked { assembled } => PhaseView::ReadingChunked {
                assembled: assembled@,
            },
            ConnectionPhase::Processing => PhaseView::Processing,
            ConnectionPhase::WritingResponse { bytes_written } => PhaseView::WritingResponse {
                bytes_written: *bytes_written,
            },
            ConnectionPhase::AwaitingCgi { child_pid, pipe_fd } => PhaseView::AwaitingCgi {
                child_pid: *child_pid,
                pipe_fd: *pipe_fd,
            },
            ConnectionPhase::Done => PhaseView::Done,
        }
    }
}

// ---------------------------------------------------------------------------
// Connections
// ---------------------------------------------------------------------------

/// Everything that is known of a connection.
#[derive(Debug)]
pub struct ConnectionState {
    /// Its socket.
    pub fd: i32,
    /// Where it is.
    pub phase: ConnectionPhase,
    /// What has come in: while the head is read all of it, and while a body of
    /// a given length is read, that body.
    pub read_buf: Vec<u8>,
    /// What is to go out.
    pub write_buf: Vec<u8>,
    /// The request, once its head is there and until it is answered.
    pub request: Option<Request>,
    /// The server that it came in for, by its place in the configuration.
    pub server_id: usize,
    /// The port that it came in on.
    pub local_port: u16,
    /// When something last happened on it.
    pub last_activity: u64,
    /// The client.
    pub peer_addr: PeerAddr,
    /// Whether it is to persist after the response.
    pub keep_alive: bool,
    /// The script that makes the response, while one does.
    pub cgi: Option<CgiProcess>,
    /// The session that the client is to be told of with the next response, if
    /// one was made for the request.
    pub pending_session_cookie: Option<SessionId>,
}

/// A [`ConnectionState`] with views for its parts.
#[verifier::ext_equal]
pub struct ConnView {
    pub fd: i32,
    pub phase: PhaseView,
    pub read_buf: Seq<u8>,
    pub write_buf: Seq<u8>,
    pub request: Option<RequestView>,
    pub server_id: usize,
    pub local_port: u16,
    pub last_activity: u64,
    pub peer_addr: PeerView,
    pub keep_alive: bool,
    pub cgi: Option<ProcessView>,
    pub pending_session_cookie: Option<Seq<char>>,
}

/// The view of an optional request.
pub open spec fn opt_request(o: Option<Request>) -> Option<RequestView> {
    match o {
        Some(r) => Some(r@),
        None => None,
    }
}

/// The view of an optional process.
pub open spec fn opt_process(o: Option<CgiProcess>) -> Option<ProcessView> {
    match o {
        Some(p) => Some(p@),
        None => None,
    }
}

impl View for ConnectionState {
    type V = ConnView;

    open spec fn view(&self) -> ConnView {
        ConnView {
            fd: self.fd,
            phase: self.phase@,
            read_buf: self.read_buf@,
            write_buf: self.write_buf@,
            request: opt_request(self.request),
            server_id: self.server_id,
            local_port: self.local_port,
            last_activity: self.last_activity,
            peer_addr: self.peer_addr@,
            keep_alive: self.keep_alive,
            cgi: opt_process(self.cgi),
            pending_session_cookie: text::opt(self.pending_session_cookie),
        }
    }
}

impl ConnView {
    /// The counts agree with the buffers: what is read of a body is what the
    /// buffer holds, no more is written than there is to write, and no more of
    /// a script's input than there is.
    pub open spec fn wf(self) -> bool {
        &&& self.phase matches PhaseView::ReadingBody { bytes_read, .. } ==> bytes_read
            == self.read_buf.len()
        &&& self.phase matches PhaseView::WritingResponse { bytes_written } ==> bytes_written
            <= self.write_buf.len()
        &&& self.cgi matches Some(p) ==> p.body_cursor <= p.body.len()
    }

    /// A connection that has just come in.
    pub open spec fn fresh(
        fd: i32,
        server_id: usize,
        local_port: u16,
        peer_addr: PeerView,
        now: u64,
    ) -> ConnView {
        ConnView {
            fd,
            phase: PhaseView::ReadingHeaders,
            read_buf: Seq::empty(),
            write_buf: Seq::empty(),
            request: None,
            server_id,
            local_port,
            last_activity: now,
            peer_addr,
            keep_alive: false,
            cgi: None,
            pending_session_cookie: None,
        }
    }

    /// With a response to send.
    pub open spec fn responding(self, bytes: Seq<u8>) -> ConnView {
        ConnView {
            write_buf: bytes,
            phase: PhaseView::WritingResponse { bytes_written: 0 },
            ..self
        }
    }

    /// After the response is sent: ready for the next request, or done.
    pub open spec fn finished(self, now: u64) -> ConnView {
        if self.keep_alive {
            ConnView {
                read_buf: Seq::empty(),
                write_buf: Seq::empty(),
                request: None,
                cgi: None,
                pending_session_cookie: None,
                phase: PhaseView::ReadingHeaders,
                last_activity: now,
                ..self
            }
        } else {
            ConnView { phase: PhaseView::Done, ..self }
        }
    }

    /// Whether more than `timeout` has passed since something last happened.
    pub open spec fn timed_out(self, timeout: u64, now: u64) -> bool {
        now - self.last_activity > timeout
    }
}

impl ConnectionState {
    /// A connection that has just come in.
    pub fn new(fd: i32, server_id: usize, local_port: u16, peer_addr: PeerAddr, now: u64) -> (c:
        Self)
        ensures
            c@ == ConnView::fresh(fd, server_id, local_port, peer_addr@, now),
            c@.wf(),
    {
        ConnectionState {
            fd,
            phase: ConnectionPhase::ReadingHeaders,
            read_buf: Vec::new(),
            write_buf: Vec::new(),
            request: None,
            server_id,
            local_port,
            last_activity: now,
            peer_addr,
            keep_alive: false,
            cgi: None,
            pending_session_cookie: None,
        }
    }

    /// Notes that something happened.
    pub fn touch(&mut self, now: u64)
        ensures
            final(self)@ == (ConnView { last_activity: now, ..old(self)@ }),
    {
        self.last_activity = now;
    }

    /// Whether more than `timeout` has passed since something last happened.
    pub fn is_timed_out(&self, timeout: u64, now: u64) -> (r: bool)
        ensures
            r == self@.timed_out(timeout, now),
    {
        now >= self.last_activity && now - self.last_activity > timeout
    }

    /// Goes on to a body of a given length, part of which may be there already.
    pub fn begin_reading_body(&mut self, req: Request, expected: usize, body_so_far: Vec<u8>)
        requires
            old(self)@.wf(),
        ensures
            final(self)@.wf(),
            final(self)@ == (ConnView {
                keep_alive: req@.keep_alive(),
                request: Some(req@),
                read_buf: body_so_far@,
                phase: PhaseView::ReadingBody { expected, bytes_read: body_so_far@.len() as usize },
                ..old(self)@
            }),
    {
        self.keep_alive = req.is_keep_alive();
        self.request = Some(req);
        let bytes_read: usize = body_so_far.len();
        self.read_buf = body_so_far;
        self.phase = ConnectionPhase::ReadingBody { expected, bytes_read };
    }

    /// Goes on to a body in chunks, part of which may be there already.
    pub fn begin_reading_chunked(&mut self, req: Request, body_so_far: Vec<u8>)
        requires
            old(self)@.wf(),
        ensures
            final(self)@.wf(),
            final(self)@ == (ConnView {
                keep_alive: req@.keep_alive(),
                request: Some(req@),
                read_buf: Seq::empty(),
                phase: PhaseView::ReadingChunked { assembled: body_so_far@ },
                ..old(self)@
            }),
    {
        self.keep_alive = req.is_keep_alive();
        self.request = Some(req);
        self.read_buf = Vec::new();
        self.phase = ConnectionPhase::ReadingChunked { assembled: body_so_far };
    }

    /// Adds bytes to a body of a given length. In any other phase, nothing
    /// happens.
    pub fn append_body_bytes(&mut self, new_bytes: &[u8])
        requires
            old(self)@.wf(),
        ensures
            final(self)@.wf(),
            final(self)@ == match old(self)@.phase {
                PhaseView::ReadingBody { expected, bytes_read } => ConnView {
                    read_buf: old(self)@.read_buf + new_bytes@,
                    phase: PhaseView::ReadingBody {
                        expected,
                        bytes_read: (bytes_read + new_bytes@.len()) as usize,
                    },
                    ..old(self)@
                },
                _ => old(self)@,
            },
    {
        if let ConnectionPhase::ReadingBody { expected, .. } = &self.phase {
            let expected: usize = *expected;
            text::extend(&mut self.read_buf, new_bytes);
            self.phase =
            ConnectionPhase::ReadingBody { expected, bytes_read: self.read_buf.len() };
        }
    }

    /// Adds bytes to a body in chunks. In any other phase, nothing happens.
    pub fn append_chunked_bytes(&mut self, new_bytes: &[u8])
        ensures
            final(self)@ == match old(self)@.phase {
                PhaseView::ReadingChunked { assembled } => ConnView {
                    phase: PhaseView::ReadingChunked { assembled: assembled + new_bytes@ },
                    ..old(self)@
                },
                _ => old(self)@,
            },
    {
        if let ConnectionPhase::ReadingChunked { assembled } = &mut self.phase {
            text::extend(assembled, new_bytes);
        }
    }

    /// Goes on to the answer, with the body that has come in.
    pub fn complete_body(&mut self, body: Vec<u8>)
        requires
            old(self)@.wf(),
        ensures
            final(self)@.wf(),
            final(self)@ == (ConnView {
                request: match old(self)@.request {
                    Some(r) => Some(RequestView { body: body@, ..r }),
                    None => None,
                },
                read_buf: Seq::empty(),
                phase: PhaseView::Processing,
                ..old(self)@
            }),
    {
        if let Some(req) = &mut self.request {
            req.body = body;
        }
        self.read_buf.clear();
        self.phase = ConnectionPhase::Processing;
    }

    /// Goes on to sending a response.
    pub fn set_response(&mut self, response_bytes: Vec<u8>)
        requires
            old(self)@.wf(),
        ensures
            final(self)@.wf(),
            final(self)@ == old(self)@.responding(response_bytes@),
    {
        self.write_buf = response_bytes;
        self.phase = ConnectionPhase::WritingResponse { bytes_written: 0 };
    }

    /// Ends an exchange whose response is sent. Says whether the connection
    /// persists, ready for the next request, or is to be closed.
    pub fn finish(&mut self, now: u64) -> (r: bool)
        requires
            old(self)@.wf(),
        ensures
            final(self)@.wf(),
            r == old(self)@.keep_alive,
            final(self)@ == old(self)@.finished(now),
    {
        if self.keep_alive {
            self.read_buf.clear();
            self.write_buf.clear();
            self.request = None;
            self.cgi = None;
            self.pending_session_cookie = None;
            self.phase = ConnectionPhase::ReadingHeaders;
            self.touch(now);
            true
        } else {
            self.phase = ConnectionPhase::Done;
            false
        }
    }

    /// Whether the connection is to be closed.
    pub fn is_done(&self) -> (r: bool)
        ensures
            r == self@.phase is Done,
    {
        match &self.phase {
            ConnectionPhase::Done => true,
            _ => false,
        }
    }

    /// Whether a request is still coming in.
    pub fn is_reading(&self) -> (r: bool)
        ensures
            r == (self@.phase is ReadingHeaders || self@.phase is ReadingBody
                || self@.phase is ReadingChunked),
    {
        match &self.phase {
            ConnectionPhase::ReadingHeaders => true,
            ConnectionPhase::ReadingBody { .. } => true,
            ConnectionPhase::ReadingChunked { .. } => true,
            _ => false,
        }
    }

    /// Whether a response is going out.
    pub fn is_writing(&self) -> (r: bool)
        ensures
            r == self@.phase is WritingResponse,
    {
        match &self.phase {
            ConnectionPhase::WritingResponse { .. } => true,
            _ => false,
        }
    }
}

/// A connection that persists is, after a response, as one that has just come
/// in, but for what it is: its socket, its place, its client, and that it
/// persists. One that does not persist is done.
pub proof fn lemma_finished(c: ConnView, now: u64)
    ensures
        c.keep_alive ==> c.finished(now) == (ConnView {
            keep_alive: true,
            ..ConnView::fresh(c.fd, c.server_id, c.local_port, c.peer_addr, now)
        }),
        !c.keep_alive ==> c.finished(now).phase is Done,
{
}

/// A new connection waits for the head of its first request, with nothing read,
/// nothing to send, and no request, script or session.
pub proof fn lemma_fresh(fd: i32, server_id: usize, local_port: u16, peer: PeerView, now: u64)
    ensures
        ({
            let c = ConnView::fresh(fd, server_id, local_port, peer, now);
            &&& c.fd == fd && c.server_id == server_id && c.local_port == local_port
            &&& c.peer_addr == peer
            &&& c.last_activity == now
            &&& c.phase is ReadingHeaders
            &&& c.read_buf.len() == 0 && c.write_buf.len() == 0
            &&& c.request is None && c.cgi is None && c.pending_session_cookie is None
            &&& !c.keep_alive
            &&& c.wf()
        }),
{
}

/// A response is sent from its first byte, and nothing else of the connection
/// changes; one that does not persist is done behind it, and keeps the rest.
pub proof fn lemma_responding(c: ConnView, bytes: Seq<u8>, now: u64)
    ensures
        ({
            let r = c.responding(bytes);
            &&& r.write_buf == bytes
            &&& r.phase == PhaseView::WritingResponse { bytes_written: 0 }
            &&& r == (ConnView { write_buf: r.write_buf, phase: r.phase, ..c })
        }),
        !c.keep_alive ==> c.finished(now) == (ConnView { phase: PhaseView::Done, ..c }),
{
}

/// A connection has timed out exactly where more time than allowed has passed
/// since something last happened on it.
pub proof fn lemma_timed_out(c: ConnView, timeout: u64, now: u64)
    ensures
        c.timed_out(timeout, now) <==> now > c.last_activity + timeout,
        now <= c.last_activity ==> !c.timed_out(timeout, now),
{
}

} // verus!
