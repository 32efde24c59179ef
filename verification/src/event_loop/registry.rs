//! What each descriptor is: a socket that listens, a connection, or a pipe of a
//! script.

use std::collections::hash_map::Entry;
use std::collections::HashMap;

use vstd::prelude::*;
use vstd::std_specs::hash::spec_keys_iter;
use vstd::std_specs::iter::IteratorSpec;

use crate::server::connection::ConnectionState;

verus! {

/// What is known of a socket that listens.
#[derive(Debug, Clone, Copy, PartialEq, Eq, Structural)]
pub struct ListenerEntry {
    /// The server that its connections come in for, by its place in the
    /// configuration.
    pub server_id: usize,
    /// The port it listens on.
    pub port: u16,
}

/// All descriptors that the event loop watches.
pub struct Registry {
    listeners: HashMap<i32, ListenerEntry>,
    connections: HashMap<i32, ConnectionState>,
    cgi_fds: HashMap<i32, i32>,
}

/// A [`Registry`] with maps for its tables.
#[verifier::ext_equal]
pub struct RegistryView {
    /// The sockets that listen.
    pub listeners: Map<i32, ListenerEntry>,
    /// The connections.
    pub connections: Map<i32, ConnectionState>,
    /// The pipes of scripts, each with the connection that its script answers.
    pub cgi_fds: Map<i32, i32>,
}

impl View for Registry {
    type V = RegistryView;

    closed spec fn view(&self) -> RegistryView {
        RegistryView {
            listeners: self.listeners@,
            connections: self.connections@,
            cgi_fds: self.cgi_fds@,
        }
    }
}

impl RegistryView {
    /// Nothing is watched.
    pub open spec fn none() -> RegistryView {
        RegistryView {
            listeners: Map::empty(),
            connections: Map::empty(),
            cgi_fds: Map::empty(),
        }
    }

    /// Whether a descriptor is a socket that is watched.
    pub open spec fn has(self, fd: i32) -> bool {
        self.listeners.dom().contains(fd) || self.connections.dom().contains(fd)
    }

    /// No socket both listens and is a connection, and each connection is
    /// filed under its own descriptor and is sound in itself.
    pub open spec fn wf(self) -> bool {
        &&& forall|fd: i32| #[trigger]
            self.connections.dom().contains(fd) ==> !self.listeners.dom().contains(fd)
        &&& forall|fd: i32| #[trigger]
            self.connections.dom().contains(fd) ==> self.connections[fd].fd == fd
                && self.connections[fd]@.wf()
    }

    /// With another state for a connection.
    pub open spec fn with(self, fd: i32, c: ConnectionState) -> RegistryView {
        RegistryView { connections: self.connections.insert(fd, c), ..self }
    }

    /// Without a connection.
    pub open spec fn without(self, fd: i32) -> RegistryView {
        RegistryView { connections: self.connections.remove(fd), ..self }
    }
}

impl Registry {
    /// A registry of nothing.
    pub fn new() -> (r: Self)
        ensures
            r@ == RegistryView::none(),
            r@.wf(),
    {
        broadcast use vstd::std_specs::hash::group_hash_axioms;

        Registry { listeners: HashMap::new(), connections: HashMap::new(), cgi_fds: HashMap::new() }
    }

    // -----------------------------------------------------------------------
    // Sockets that listen
    // -----------------------------------------------------------------------

    /// Registers a socket that listens. It must not be registered yet.
    pub fn register_listener(&mut self, fd: i32, server_id: usize, port: u16)
        requires
            !old(self)@.has(fd),
        ensures
            final(self)@ == (RegistryView {
                listeners: old(self)@.listeners.insert(fd, ListenerEntry { server_id, port }),
                ..old(self)@
            }),
            old(self)@.wf() ==> final(self)@.wf(),
    {
        broadcast use vstd::std_specs::hash::group_hash_axioms;

        self.listeners.insert(fd, ListenerEntry { server_id, port });
    }

    /// Whether a descriptor is a socket that listens.
    pub fn is_listener(&self, fd: i32) -> (r: bool)
        ensures
            r == self@.listeners.dom().contains(fd),
    {
        broadcast use vstd::std_specs::hash::group_hash_axioms;

        self.listeners.contains_key(&fd)
    }

    /// What is known of a socket that listens.
    pub fn listener(&self, fd: i32) -> (r: Option<&ListenerEntry>)
        ensures
            match r {
                Some(e) => self@.listeners.dom().contains(fd) && *e == self@.listeners[fd],
                None => !self@.listeners.dom().contains(fd),
            },
    {
        broadcast use vstd::std_specs::hash::group_hash_axioms;

        self.listeners.get(&fd)
    }

    /// All sockets that listen, each once, in no particular order.
    pub fn listeners(&self) -> (r: Vec<(i32, ListenerEntry)>)
        ensures
            r@.len() == self@.listeners.len(),
            forall|i: int|
                0 <= i < r@.len() ==> self@.listeners.dom().contains((#[trigger] r@[i]).0)
                    && self@.listeners[r@[i].0] == r@[i].1,
            forall|i: int, j: int| 0 <= i < j < r@.len() ==> r@[i].0 != r@[j].0,
            forall|fd: i32| #[trigger]
                self@.listeners.dom().contains(fd) ==> exists|i: int|
                    0 <= i < r@.len() && (#[trigger] r@[i]).0 == fd,
    {
        broadcast use vstd::std_specs::hash::group_hash_axioms;

        let ghost keys = spec_keys_iter(&self.listeners).remaining();
        let mut all: Vec<(i32, ListenerEntry)> = Vec::new();
        for fd in it: self.listeners.keys()
            invariant
                it.seq() == keys,
                keys.unref().to_set() == self.listeners@.dom(),
                all@.len() == it.index@,
                forall|i: int|
                    0 <= i < all@.len() ==> (#[trigger] all@[i]).0 == *keys[i]
                        && self.listeners@.dom().contains(all@[i].0) && self.listeners@[all@[i].0]
                        == all@[i].1,
        {
            assert(keys.unref()[it.index@] == *fd);
            assert(keys.unref().to_set().contains(*fd));
            if let Some(entry) = self.listeners.get(fd) {
                all.push((*fd, *entry));
            }
        }
        proof {
            assert forall|fd: i32| #[trigger] self@.listeners.dom().contains(fd) implies exists|
                i: int,
            | 0 <= i < all@.len() && (#[trigger] all@[i]).0 == fd by {
                assert(keys.unref().to_set().contains(fd));
                let i = choose|i: int| 0 <= i < keys.unref().len() && keys.unref()[i] == fd;
                assert(all@[i].0 == fd);
            }
        }
        all
    }

    /// Forgets a socket that listens.
    pub fn remove_listener(&mut self, fd: i32)
        ensures
            final(self)@ == (RegistryView {
                listeners: old(self)@.listeners.remove(fd),
                ..old(self)@
            }),
            old(self)@.wf() ==> final(self)@.wf(),
    {
        broadcast use vstd::std_specs::hash::group_hash_axioms;

        self.listeners.remove(&fd);
    }

    // -----------------------------------------------------------------------
    // Connections
    // -----------------------------------------------------------------------

    /// Registers a connection. Its descriptor must not be registered yet.
    pub fn register_connection(&mut self, fd: i32, state: ConnectionState)
        requires
            !old(self)@.has(fd),
        ensures
            final(self)@ == old(self)@.with(fd, state),
            old(self)@.wf() && state.fd == fd && state@.wf() ==> final(self)@.wf(),
    {
        broadcast use vstd::std_specs::hash::group_hash_axioms;

        self.connections.insert(fd, state);
    }

    /// A connection, to be changed in its place.
    pub fn get_connection_mut(&mut self, fd: i32) -> (r: Option<&mut ConnectionState>)
        ensures
            match r {
                Some(c) => {
                    &&& old(self)@.connections.dom().contains(fd)
                    &&& *c == old(self)@.connections[fd]
                    &&& final(self)@ == old(self)@.with(fd, *final(c))
                },
                None => !old(self)@.connections.dom().contains(fd) && final(self)@ == old(self)@,
            },
    {
        broadcast use vstd::std_specs::hash::group_hash_axioms;

        match self.connections.entry(fd) {
            Entry::Occupied(o) => Some(o.into_mut()),
            Entry::Vacant(_) => None,
        }
    }

    /// A connection.
    pub fn get_connection(&self, fd: i32) -> (r: Option<&ConnectionState>)
        ensures
            match r {
                Some(c) => self@.connections.dom().contains(fd) && *c == self@.connections[fd],
                None => !self@.connections.dom().contains(fd),
            },
    {
        broadcast use vstd::std_specs::hash::group_hash_axioms;

        self.connections.get(&fd)
    }

    /// Takes a connection out.
    pub fn remove(&mut self, fd: i32) -> (r: Option<ConnectionState>)
        ensures
            final(self)@ == old(self)@.without(fd),
            match r {
                Some(c) => old(self)@.connections.dom().contains(fd) && c
                    == old(self)@.connections[fd],
                None => !old(self)@.connections.dom().contains(fd),
            },
            old(self)@.wf() ==> final(self)@.wf(),
    {
        broadcast use vstd::std_specs::hash::group_hash_axioms;

        self.connections.remove(&fd)
    }

    /// The descriptors of all connections, each once, in no particular order.
    pub fn all_connection_fds(&self) -> (r: Vec<i32>)
        ensures
            r@.no_duplicates(),
            r@.to_set() == self@.connections.dom(),
    {
        broadcast use vstd::std_specs::hash::group_hash_axioms;

        let ghost keys = spec_keys_iter(&self.connections).remaining();
        let mut fds: Vec<i32> = Vec::new();
        for fd in it: self.connections.keys()
            invariant
                it.seq() == keys,
                fds@.len() == it.index@,
                forall|i: int| 0 <= i < fds@.len() ==> #[trigger] fds@[i] == *keys[i],
        {
            fds.push(*fd);
        }
        assert(fds@ =~= keys.unref());
        fds
    }

    // -----------------------------------------------------------------------
    // Pipes of scripts
    // -----------------------------------------------------------------------

    /// Registers a pipe of the script that answers a connection.
    pub fn register_cgi_fd(&mut self, pipe_fd: i32, owner_fd: i32)
        ensures
            final(self)@ == (RegistryView {
                cgi_fds: old(self)@.cgi_fds.insert(pipe_fd, owner_fd),
                ..old(self)@
            }),
    {
        broadcast use vstd::std_specs::hash::group_hash_axioms;

        self.cgi_fds.insert(pipe_fd, owner_fd);
    }

    /// Whether a descriptor is a pipe of a script.
    pub fn is_cgi_fd(&self, fd: i32) -> (r: bool)
        ensures
            r == self@.cgi_fds.dom().contains(fd),
    {
        broadcast use vstd::std_specs::hash::group_hash_axioms;

        self.cgi_fds.contains_key(&fd)
    }

    /// The connection that the script of a pipe answers.
    pub fn cgi_owner(&self, pipe_fd: i32) -> (r: Option<i32>)
        ensures
            r == if self@.cgi_fds.dom().contains(pipe_fd) {
                Some(self@.cgi_fds[pipe_fd])
            } else {
                None
            },
    {
        broadcast use vstd::std_specs::hash::group_hash_axioms;

        match self.cgi_fds.get(&pipe_fd) {
            Some(owner) => Some(*owner),
            None => None,
        }
    }

    /// Forgets a pipe.
    pub fn unregister_cgi_fd(&mut self, pipe_fd: i32)
        ensures
            final(self)@ == (RegistryView {
                cgi_fds: old(self)@.cgi_fds.remove(pipe_fd),
                ..old(self)@
            }),
    {
        broadcast use vstd::std_specs::hash::group_hash_axioms;

        self.cgi_fds.remove(&pipe_fd);
    }

    // -----------------------------------------------------------------------
    // Counts
    // -----------------------------------------------------------------------

    /// How many connections there are.
    pub fn connection_count(&self) -> (r: usize)
        ensures
            r == self@.connections.len(),
    {
        broadcast use vstd::std_specs::hash::group_hash_axioms;

        self.connections.len()
    }

    /// How many sockets listen.
    pub fn listener_count(&self) -> (r: usize)
        ensures
            r == self@.listeners.len(),
    {
        broadcast use vstd::std_specs::hash::group_hash_axioms;

        self.listeners.len()
    }
}

impl Default for Registry {
    fn default() -> (r: Self)
        ensures
            r@ == RegistryView::none(),
    {
        Self::new()
    }
}

/// A connection that was registered is found under its descriptor, and is gone
/// once it was removed; other connections, what listens and the pipes of scripts
/// stay as they are.
pub proof fn lemma_registered(r: RegistryView, fd: i32, c: ConnectionState, other: i32)
    ensures
        r.with(fd, c).connections.dom().contains(fd),
        r.with(fd, c).connections[fd] == c,
        !r.without(fd).connections.dom().contains(fd),
        other != fd ==> r.with(fd, c).connections.dom().contains(other)
            == r.connections.dom().contains(other) && r.with(fd, c).connections[other]
            == r.connections[other],
        other != fd ==> r.without(fd).connections.dom().contains(other)
            == r.connections.dom().contains(other) && r.without(fd).connections[other]
            == r.connections[other],
        r.with(fd, c).listeners == r.listeners && r.with(fd, c).cgi_fds == r.cgi_fds,
        r.without(fd).listeners == r.listeners && r.without(fd).cgi_fds == r.cgi_fds,
        !RegistryView::none().has(fd),
        r.has(fd) <==> r.listeners.dom().contains(fd) || r.connections.dom().contains(fd),
{
}

} // verus!
