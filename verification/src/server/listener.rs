//! The addresses to listen on.

use vstd::prelude::*;
use vstd::string::*;

use crate::config::types;
use crate::config::types::{ServerConfig, ServerView};
use crate::http::response::writer::EAGAIN;
use crate::server::connection::PeerAddr;
use crate::text;

verus! {

/// An address and port to listen on, and the first server that is there.
#[derive(Debug)]
pub struct Binding {
    pub host: String,
    pub port: u16,
    pub server_id: usize,
}

/// A [`Binding`] with a text for its string.
#[verifier::ext_equal]
pub struct BindingView {
    pub host: Seq<char>,
    pub port: u16,
    pub server_id: usize,
}

impl View for Binding {
    type V = BindingView;

    open spec fn view(&self) -> BindingView {
        BindingView { host: self.host@, port: self.port, server_id: self.server_id }
    }
}

/// The views of a list of bindings.
pub open spec fn binding_views(v: Seq<Binding>) -> Seq<BindingView> {
    v.map_values(|b: Binding| b@)
}

/// Whether an address and port are among bindings.
pub open spec fn bound(v: Seq<BindingView>, host: Seq<char>, port: u16) -> bool {
    exists|i: int| 0 <= i < v.len() && (#[trigger] v[i]).host == host && v[i].port == port
}

/// The bindings after the first `n` ports of one server.
pub open spec fn with_ports(v: Seq<BindingView>, s: ServerView, id: usize, n: int) -> Seq<
    BindingView,
>
    decreases n,
{
    if n <= 0 {
        v
    } else {
        let before = with_ports(v, s, id, n - 1);
        if bound(before, s.host, s.ports[n - 1]) {
            before
        } else {
            before.push(BindingView { host: s.host, port: s.ports[n - 1], server_id: id })
        }
    }
}

/// The bindings of the first `n` servers: one for each address and port, in the
/// order in which they first come, with the first server that is there.
pub open spec fn bindings_of(c: Seq<ServerView>, n: int) -> Seq<BindingView>
    decreases n,
{
    if n <= 0 {
        Seq::empty()
    } else {
        with_ports(
            bindings_of(c, n - 1),
            c[n - 1],
            (n - 1) as usize,
            c[n - 1].ports.len() as int,
        )
    }
}

fn is_bound(v: &Vec<Binding>, host: &str, port: u16) -> (r: bool)
    ensures
        r == bound(binding_views(v@), host@, port),
{
    let mut i: usize = 0;
    while i < v.len()
        invariant
            i <= v@.len(),
            forall|k: int|
                0 <= k < i ==> !((#[trigger] v@[k]).host@ == host@ && v@[k].port == port),
        decreases v@.len() - i,
    {
        if v[i].port == port && text::same(v[i].host.as_str(), host) {
            assert(binding_views(v@)[i as int].host == host@);
            return true;
        }
        i = i + 1;
    }
    proof {
        if bound(binding_views(v@), host@, port) {
            let k = choose|k: int|
                0 <= k < v@.len() && (#[trigger] binding_views(v@)[k]).host == host@
                    && binding_views(v@)[k].port == port;
            assert(v@[k].host@ == host@);
        }
    }
    false
}

/// The addresses and ports to listen on. Servers that share one are told apart
/// by name, so that it is listened on once.
pub fn bindings(configs: &[ServerConfig]) -> (r: Vec<Binding>)
    ensures
        binding_views(r@) == bindings_of(types::server_views(configs@), configs@.len() as int),
{
    let ghost c = types::server_views(configs@);
    let mut out: Vec<Binding> = Vec::new();
    let mut i: usize = 0;
    assert(binding_views(out@) =~= Seq::empty());
    while i < configs.len()
        invariant
            i <= configs@.len(),
            c == types::server_views(configs@),
            binding_views(out@) == bindings_of(c, i as int),
        decreases configs@.len() - i,
    {
        let server = &configs[i];
        assert(c[i as int] == server@);
        let ghost start = bindings_of(c, i as int);
        let mut k: usize = 0;
        while k < server.ports.len()
            invariant
                k <= server.ports@.len(),
                binding_views(out@) == with_ports(start, server@, i, k as int),
            decreases server.ports@.len() - k,
        {
            let port: u16 = server.ports[k];
            if !is_bound(&out, server.host.as_str(), port) {
                let ghost before = out@;
                out.push(Binding { host: server.host.clone(), port, server_id: i });
                assert(binding_views(out@) =~= binding_views(before).push(
                    BindingView { host: server@.host, port, server_id: i },
                ));
            }
            k = k + 1;
        }
        i = i + 1;
    }
    out
}

proof fn lemma_with_ports(c: Seq<ServerView>, v: Seq<BindingView>, id: int, n: int)
    requires
        0 <= id < c.len(),
        id <= usize::MAX,
        0 <= n <= c[id].ports.len(),
        sound(c, v),
        distinct(v),
    ensures
        sound(c, with_ports(v, c[id], id as usize, n)),
        distinct(with_ports(v, c[id], id as usize, n)),
        forall|h: Seq<char>, p: u16| #[trigger]
            bound(v, h, p) ==> bound(with_ports(v, c[id], id as usize, n), h, p),
        forall|k: int|
            0 <= k < n ==> bound(
                with_ports(v, c[id], id as usize, n),
                c[id].host,
                #[trigger] c[id].ports[k],
            ),
    decreases n,
{
    if n > 0 {
        lemma_with_ports(c, v, id, n - 1);
        let before = with_ports(v, c[id], id as usize, n - 1);
        let after = with_ports(v, c[id], id as usize, n);
        let port = c[id].ports[n - 1];
        if !bound(before, c[id].host, port) {
            let e = BindingView { host: c[id].host, port, server_id: id as usize };
            assert(after == before.push(e));
            assert(after[before.len() as int] == e);
            assert forall|h: Seq<char>, p: u16| #[trigger] bound(before, h, p) implies bound(
                after,
                h,
                p,
            ) by {
                let i = choose|i: int|
                    0 <= i < before.len() && (#[trigger] before[i]).host == h && before[i].port
                        == p;
                assert(after[i] == before[i]);
            }
            assert(sound(c, after)) by {
                assert forall|i: int| #![trigger after[i]] 0 <= i < after.len() implies
                    after[i].server_id < c.len() && c[after[i].server_id as int].host
                    == after[i].host && c[after[i].server_id as int].ports.contains(
                    after[i].port,
                ) by {
                    if i < before.len() {
                        assert(after[i] == before[i]);
                    } else {
                        assert(c[id].ports[n - 1] == port);
                    }
                }
            }
            assert(distinct(after)) by {
                assert forall|i: int, j: int| 0 <= i < j < after.len() implies !((
                #[trigger] after[i]).host == (#[trigger] after[j]).host && after[i].port
                    == after[j].port) by {
                    assert(after[i] == before[i]);
                    if j < before.len() {
                        assert(after[j] == before[j]);
                    }
                }
            }
        }
    }
}

/// Every binding is an address and port of the server it names.
pub open spec fn sound(c: Seq<ServerView>, v: Seq<BindingView>) -> bool {
    forall|i: int| #![trigger v[i]]
        0 <= i < v.len() ==> v[i].server_id < c.len() && c[v[i].server_id as int].host == v[i].host
            && c[v[i].server_id as int].ports.contains(v[i].port)
}

/// No address and port are bound twice.
pub open spec fn distinct(v: Seq<BindingView>) -> bool {
    forall|i: int, j: int|
        0 <= i < j < v.len() ==> !((#[trigger] v[i]).host == (#[trigger] v[j]).host && v[i].port
            == v[j].port)
}

proof fn lemma_bindings_of(c: Seq<ServerView>, n: int)
    requires
        0 <= n <= c.len(),
        c.len() <= usize::MAX,
    ensures
        sound(c, bindings_of(c, n)),
        distinct(bindings_of(c, n)),
        forall|i: int, k: int| #![trigger c[i].ports[k]]
            0 <= i < n && 0 <= k < c[i].ports.len() ==> bound(
                bindings_of(c, n),
                c[i].host,
                c[i].ports[k],
            ),
    decreases n,
{
    if n > 0 {
        lemma_bindings_of(c, n - 1);
        lemma_with_ports(c, bindings_of(c, n - 1), n - 1, c[n - 1].ports.len() as int);
    }
}

/// Every address and port of every server is listened on, none is listened on
/// twice, and each is that of the server it is for.
pub proof fn lemma_bindings(c: Seq<ServerView>)
    requires
        c.len() <= usize::MAX,
    ensures
        sound(c, bindings_of(c, c.len() as int)),
        distinct(bindings_of(c, c.len() as int)),
        forall|i: int, k: int| #![trigger c[i].ports[k]]
            0 <= i < c.len() && 0 <= k < c[i].ports.len() ==> bound(
                bindings_of(c, c.len() as int),
                c[i].host,
                c[i].ports[k],
            ),
{
    lemma_bindings_of(c, c.len() as int);
}

// ---------------------------------------------------------------------------
// Accepting
// ---------------------------------------------------------------------------

/// What came of accepting a connection.
#[derive(Debug)]
pub enum AcceptResult {
    /// A connection came in, on this socket and from this client.
    Accepted { fd: i32, peer: PeerAddr },
    /// There is none now.
    WouldBlock,
    /// Accepting failed, with this `errno`.
    Error(i32),
}

/// What came of accepting a connection, by what `accept4` returned, the address
/// it gave, and `errno`.
pub fn accept_one(fd: i32, peer: PeerAddr, errno: i32) -> (r: AcceptResult)
    ensures
        r == if fd >= 0 {
            AcceptResult::Accepted { fd, peer }
        } else if errno == EAGAIN {
            AcceptResult::WouldBlock
        } else {
            AcceptResult::Error(errno)
        },
{
    if fd >= 0 {
        AcceptResult::Accepted { fd, peer }
    } else if errno == EAGAIN {
        AcceptResult::WouldBlock
    } else {
        AcceptResult::Error(errno)
    }
}

// ---------------------------------------------------------------------------
// Errors
// ---------------------------------------------------------------------------

/// Why an address cannot be listened on.
#[derive(Debug)]
pub enum ListenerError {
    /// No socket could be made.
    SocketFailed { host: String, port: u16, errno: i32 },
    /// An option of the socket could not be set.
    SetsockoptFailed { option: &'static str, errno: i32 },
    /// The address could not be taken.
    BindFailed { addr: String, errno: i32 },
    /// The socket could not be made to listen.
    ListenFailed { addr: String, errno: i32 },
    /// The socket could not be kept from blocking.
    SetNonblockFailed { fd: i32, errno: i32 },
    /// The host is no address.
    InvalidHost(String),
}

/// A [`ListenerError`] with texts for its strings.
#[verifier::ext_equal]
pub enum ListenerErrorView {
    SocketFailed { host: Seq<char>, port: u16, errno: i32 },
    SetsockoptFailed { option: Seq<char>, errno: i32 },
    BindFailed { addr: Seq<char>, errno: i32 },
    ListenFailed { addr: Seq<char>, errno: i32 },
    SetNonblockFailed { fd: i32, errno: i32 },
    InvalidHost(Seq<char>),
}

impl View for ListenerError {
    type V = ListenerErrorView;

    open spec fn view(&self) -> ListenerErrorView {
        match self {
            ListenerError::SocketFailed { host, port, errno } => ListenerErrorView::SocketFailed {
                host: host@,
                port: *port,
                errno: *errno,
            },
            ListenerError::SetsockoptFailed {
                option,
                errno,
            } => ListenerErrorView::SetsockoptFailed { option: option@, errno: *errno },
            ListenerError::BindFailed { addr, errno } => ListenerErrorView::BindFailed {
                addr: addr@,
                errno: *errno,
            },
            ListenerError::ListenFailed { addr, errno } => ListenerErrorView::ListenFailed {
                addr: addr@,
                errno: *errno,
            },
            ListenerError::SetNonblockFailed { fd, errno } => ListenerErrorView::SetNonblockFailed {
                fd: *fd,
                errno: *errno,
            },
            ListenerError::InvalidHost(h) => ListenerErrorView::InvalidHost(h@),
        }
    }
}

impl ListenerErrorView {
    /// The error as a sentence.
    pub open spec fn message(self) -> Seq<char> {
        match self {
            ListenerErrorView::SocketFailed { host, port, errno } => "socket() failed for "@ + host
                + ":"@ + text::decimal(port as nat) + ": errno "@ + text::signed(errno as int),
            ListenerErrorView::SetsockoptFailed { option, errno } => "setsockopt("@ + option
                + ") failed: errno "@ + text::signed(errno as int),
            ListenerErrorView::BindFailed { addr, errno } => "bind() failed for "@ + addr
                + ": errno "@ + text::signed(errno as int),
            ListenerErrorView::ListenFailed { addr, errno } => "listen() failed for "@ + addr
                + ": errno "@ + text::signed(errno as int),
            ListenerErrorView::SetNonblockFailed { fd, errno } => "fcntl(O_NONBLOCK) failed for fd "@
                + text::signed(fd as int) + ": errno "@ + text::signed(errno as int),
            ListenerErrorView::InvalidHost(h) => "cannot resolve host '"@ + h
                + "' to a bind address"@,
        }
    }
}

impl ListenerError {
    /// The error as a sentence.
    pub fn message(&self) -> (r: String)
        ensures
            r@ == self@.message(),
    {
        match self {
            ListenerError::SocketFailed { host, port, errno } => {
                let mut s = text::joined("socket() failed for ", host.as_str());
                s.append(":");
                s.append(text::decimal_text(*port as u64).as_str());
                s.append(": errno ");
                s.append(text::signed_text(*errno).as_str());
                s
            },
            ListenerError::SetsockoptFailed { option, errno } => {
                let mut s = text::joined("setsockopt(", option);
                s.append(") failed: errno ");
                s.append(text::signed_text(*errno).as_str());
                s
            },
            ListenerError::BindFailed { addr, errno } => {
                let mut s = text::joined("bind() failed for ", addr.as_str());
                s.append(": errno ");
                s.append(text::signed_text(*errno).as_str());
                s
            },
            ListenerError::ListenFailed { addr, errno } => {
                let mut s = text::joined("listen() failed for ", addr.as_str());
                s.append(": errno ");
                s.append(text::signed_text(*errno).as_str());
                s
            },
            ListenerError::SetNonblockFailed { fd, errno } => {
                let mut s = text::joined(
                    "fcntl(O_NONBLOCK) failed for fd ",
                    text::signed_text(*fd).as_str(),
                );
                s.append(": errno ");
                s.append(text::signed_text(*errno).as_str());
                s
            },
            ListenerError::InvalidHost(h) => {
                let mut s = text::joined("cannot resolve host '", h.as_str());
                s.append("' to a bind address");
                s
            },
        }
    }
}

/// Whether a server wants an address and a port.
pub open spec fn wants(s: ServerView, host: Seq<char>, port: u16) -> bool {
    s.host == host && s.ports.contains(port)
}

/// Whether each binding belongs to the first server that wants it.
pub open spec fn of_the_first(c: Seq<ServerView>, v: Seq<BindingView>) -> bool {
    forall|i: int, j: int|
        0 <= i < v.len() && 0 <= j < v[i].server_id && j < c.len() ==> !wants(
            #[trigger] c[j],
            (#[trigger] v[i]).host,
            v[i].port,
        )
}

proof fn lemma_first_ports(c: Seq<ServerView>, v: Seq<BindingView>, id: int, n: int)
    requires
        0 <= id < c.len(),
        id <= usize::MAX,
        0 <= n <= c[id].ports.len(),
        of_the_first(c, v),
        forall|i: int, k: int| #![trigger c[i].ports[k]]
            0 <= i < id && 0 <= k < c[i].ports.len() ==> bound(v, c[i].host, c[i].ports[k]),
        forall|h: Seq<char>, p: u16| #[trigger]
            bound(v, h, p) ==> bound(with_ports(v, c[id], id as usize, n), h, p),
    ensures
        of_the_first(c, with_ports(v, c[id], id as usize, n)),
        forall|h: Seq<char>, p: u16| #[trigger]
            bound(v, h, p) ==> bound(with_ports(v, c[id], id as usize, n), h, p),
    decreases n,
{
    if n > 0 {
        let s = c[id];
        assert forall|h: Seq<char>, p: u16| #[trigger] bound(v, h, p) implies bound(
            with_ports(v, s, id as usize, n - 1),
            h,
            p,
        ) by {
            lemma_ports_keep(v, s, id as usize, n - 1, h, p);
        }
        lemma_first_ports(c, v, id, n - 1);
        let before = with_ports(v, s, id as usize, n - 1);
        let after = with_ports(v, s, id as usize, n);
        if !bound(before, s.host, s.ports[n - 1]) {
            assert forall|i: int, j: int|
                0 <= i < after.len() && 0 <= j < after[i].server_id && j < c.len() implies !wants(
                #[trigger] c[j],
                (#[trigger] after[i]).host,
                after[i].port,
            ) by {
                if i < before.len() {
                    assert(after[i] == before[i]);
                } else if wants(c[j], after[i].host, after[i].port) {
                    let k = choose|k: int|
                        0 <= k < c[j].ports.len() && c[j].ports[k] == after[i].port;
                    assert(bound(v, c[j].host, c[j].ports[k]));
                    assert(bound(before, s.host, s.ports[n - 1]));
                }
            }
        }
    }
}

proof fn lemma_ports_keep(
    v: Seq<BindingView>,
    s: ServerView,
    id: usize,
    n: int,
    h: Seq<char>,
    p: u16,
)
    requires
        bound(v, h, p),
    ensures
        bound(with_ports(v, s, id, n), h, p),
    decreases n,
{
    if n > 0 {
        lemma_ports_keep(v, s, id, n - 1, h, p);
        let before = with_ports(v, s, id, n - 1);
        let i = choose|i: int|
            0 <= i < before.len() && (#[trigger] before[i]).host == h && before[i].port == p;
        assert(with_ports(v, s, id, n)[i] == before[i]);
    }
}

proof fn lemma_first_of(c: Seq<ServerView>, n: int)
    requires
        0 <= n <= c.len(),
        c.len() <= usize::MAX,
    ensures
        of_the_first(c, bindings_of(c, n)),
    decreases n,
{
    if n > 0 {
        lemma_first_of(c, n - 1);
        lemma_bindings_of(c, n - 1);
        let v = bindings_of(c, n - 1);
        let s = c[n - 1];
        let m = s.ports.len() as int;
        assert forall|h: Seq<char>, p: u16| #[trigger] bound(v, h, p) implies bound(
            with_ports(v, s, (n - 1) as usize, m),
            h,
            p,
        ) by {
            lemma_ports_keep(v, s, (n - 1) as usize, m, h, p);
        }
        lemma_first_ports(c, v, n - 1, m);
    }
}

/// An address and a port that several servers want is bound for the first of
/// them.
pub proof fn lemma_bound_for_first(c: Seq<ServerView>, i: int, j: int)
    requires
        c.len() <= usize::MAX,
        0 <= i < bindings_of(c, c.len() as int).len(),
    ensures
        ({
            let b = bindings_of(c, c.len() as int)[i];
            &&& wants(c[b.server_id as int], b.host, b.port)
            &&& 0 <= j < b.server_id ==> !wants(c[j], b.host, b.port)
        }),
{
    lemma_first_of(c, c.len() as int);
    lemma_bindings(c);
    let b = bindings_of(c, c.len() as int)[i];
    assert(b.server_id < c.len());
}

/// Errors say which call failed, for which address, option or descriptor, and
/// with which number.
pub proof fn lemma_messages(s: Seq<char>, port: u16, fd: i32, errno: i32)
    ensures
        (ListenerErrorView::SocketFailed { host: s, port, errno }).message() == "socket() failed for "@
            + s + ":"@ + text::decimal(port as nat) + ": errno "@ + text::signed(errno as int),
        (ListenerErrorView::SetsockoptFailed { option: s, errno }).message() == "setsockopt("@ + s
            + ") failed: errno "@ + text::signed(errno as int),
        (ListenerErrorView::BindFailed { addr: s, errno }).message() == "bind() failed for "@ + s
            + ": errno "@ + text::signed(errno as int),
        (ListenerErrorView::ListenFailed { addr: s, errno }).message() == "listen() failed for "@ + s
            + ": errno "@ + text::signed(errno as int),
        (ListenerErrorView::SetNonblockFailed { fd, errno }).message()
            == "fcntl(O_NONBLOCK) failed for fd "@ + text::signed(fd as int) + ": errno "@
            + text::signed(errno as int),
        ListenerErrorView::InvalidHost(s).message() == "cannot resolve host '"@ + s
            + "' to a bind address"@,
{
}

} // verus!
