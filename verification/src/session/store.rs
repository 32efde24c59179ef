//! The sessions themselves.
//!
//! A session is known by a random identifier: sixteen bytes, written as 32
//! hexadecimal digits. Times are in milliseconds on one clock that never goes
//! back.

use vstd::prelude::*;
use vstd::string::*;

use crate::string_map;
use crate::string_map::StringMap;
use crate::text;

verus! {

/// The identifier of a session.
pub type SessionId = String;

/// What is kept for a session.
#[derive(Debug)]
pub struct SessionData {
    /// Values by name, at the disposal of handlers.
    pub values: StringMap<String>,
    /// When the session was made.
    pub created: u64,
    /// When it was last used.
    pub last_accessed: u64,
}

impl SessionData {
    /// A session made now, without values.
    pub fn new(now: u64) -> (d: Self)
        ensures
            d.values@ == Map::<Seq<char>, String>::empty(),
            d.created == now,
            d.last_accessed == now,
    {
        SessionData { values: StringMap::new(), created: now, last_accessed: now }
    }

    /// Notes that the session was used.
    pub fn touch(&mut self, now: u64)
        ensures
            final(self).values == old(self).values,
            final(self).created == old(self).created,
            final(self).last_accessed == now,
    {
        self.last_accessed = now;
    }
}

// ---------------------------------------------------------------------------
// Identifiers
// ---------------------------------------------------------------------------

/// The hexadecimal digit of a number below sixteen.
pub open spec fn hex_char(d: int) -> char {
    if d < 10 {
        ('0' as int + d) as char
    } else {
        ('a' as int + d - 10) as char
    }
}

/// Bytes as hexadecimal digits, two for each.
pub open spec fn hex_text(bytes: Seq<u8>) -> Seq<char>
    decreases bytes.len(),
{
    if bytes.len() == 0 {
        Seq::empty()
    } else {
        hex_text(bytes.drop_last()).push(hex_char(bytes.last() as int / 16)).push(
            hex_char(bytes.last() as int % 16),
        )
    }
}

fn hex_digit(d: u8) -> (c: char)
    requires
        d < 16,
    ensures
        c == hex_char(d as int),
{
    if d < 10 {
        (48u8 + d) as char
    } else {
        (87u8 + d) as char
    }
}

/// The identifier made of sixteen random bytes.
pub fn generate_id(entropy: [u8; 16]) -> (id: SessionId)
    ensures
        id@ == hex_text(entropy@),
{
    let mut s = String::new();
    let mut i: usize = 0;
    assert(entropy@.take(0) =~= Seq::empty());
    while i < 16
        invariant
            i <= 16,
            entropy@.len() == 16,
            s@ == hex_text(entropy@.take(i as int)),
        decreases 16 - i,
    {
        let b: u8 = entropy[i];
        s.push(hex_digit(b / 16));
        s.push(hex_digit(b % 16));
        proof {
            let t = entropy@.take(i + 1);
            assert(t.last() == b);
            assert(t.drop_last() =~= entropy@.take(i as int));
        }
        i = i + 1;
    }
    assert(entropy@.take(16) =~= entropy@);
    s
}

/// Whether a character is a hexadecimal digit, in lowercase.
pub open spec fn is_lower_hex(c: char) -> bool {
    text::is_digit(c) || 'a' <= c <= 'f'
}

/// An identifier has two characters for each byte, all hexadecimal digits in
/// lowercase.
pub proof fn lemma_id_shape(bytes: Seq<u8>)
    ensures
        hex_text(bytes).len() == 2 * bytes.len(),
        forall|i: int| 0 <= i < hex_text(bytes).len() ==> is_lower_hex(
            #[trigger] hex_text(bytes)[i],
        ),
    decreases bytes.len(),
{
    if bytes.len() > 0 {
        let rest = bytes.drop_last();
        lemma_id_shape(rest);
        let s = hex_text(bytes);
        assert forall|i: int| 0 <= i < s.len() implies is_lower_hex(#[trigger] s[i]) by {
            if i < hex_text(rest).len() {
                assert(s[i] == hex_text(rest)[i]);
            }
        }
    }
}

/// Different bytes give different identifiers.
pub proof fn lemma_ids_differ(a: Seq<u8>, b: Seq<u8>)
    requires
        a.len() == b.len(),
    ensures
        hex_text(a) == hex_text(b) ==> a == b,
    decreases a.len(),
{
    if a.len() > 0 && hex_text(a) == hex_text(b) {
        lemma_id_shape(a);
        lemma_id_shape(b);
        let s = hex_text(a);
        let n = s.len();
        assert(s[n - 1] == hex_char(a.last() as int % 16));
        assert(s[n - 1] == hex_char(b.last() as int % 16));
        assert(s[n - 2] == hex_char(a.last() as int / 16));
        assert(s[n - 2] == hex_char(b.last() as int / 16));
        assert(a.last() == b.last());
        assert(s.take(n - 2) =~= hex_text(a.drop_last()));
        assert(s.take(n - 2) =~= hex_text(b.drop_last()));
        lemma_ids_differ(a.drop_last(), b.drop_last());
        assert(a =~= a.drop_last().push(a.last()));
        assert(b =~= b.drop_last().push(b.last()));
    } else if a.len() == 0 {
        assert(a =~= b);
    }
}

// ---------------------------------------------------------------------------
// The store
// ---------------------------------------------------------------------------

/// Whether a session was used within the last `max_age`.
pub open spec fn fresh(d: SessionData, max_age: u64, now: u64) -> bool {
    (if now >= d.last_accessed {
        now - d.last_accessed
    } else {
        0
    }) < max_age
}

/// The sessions, by identifier.
#[derive(Debug)]
pub struct SessionStore {
    sessions: Vec<(SessionId, SessionData)>,
}

impl View for SessionStore {
    type V = Map<Seq<char>, SessionData>;

    closed spec fn view(&self) -> Map<Seq<char>, SessionData> {
        string_map::map_of(self.sessions@)
    }
}

impl Default for SessionStore {
    fn default() -> (s: Self)
        ensures
            s.wf(),
            s@ == Map::<Seq<char>, SessionData>::empty(),
    {
        SessionStore::new()
    }
}

impl SessionStore {
    /// No identifier occurs twice.
    pub closed spec fn wf(&self) -> bool {
        string_map::distinct_keys(self.sessions@)
    }

    /// A store without sessions.
    pub fn new() -> (s: Self)
        ensures
            s.wf(),
            s@ == Map::<Seq<char>, SessionData>::empty(),
    {
        SessionStore { sessions: Vec::new() }
    }

    fn position(&self, id: &str) -> (r: Option<usize>)
        requires
            self.wf(),
        ensures
            r matches Some(i) ==> i < self.sessions@.len() && self.sessions@[i as int].0@ == id@
                && self@[id@] == self.sessions@[i as int].1,
            r is None ==> forall|j: int|
                0 <= j < self.sessions@.len() ==> (#[trigger] self.sessions@[j]).0@ != id@,
            r is Some <==> self@.dom().contains(id@),
    {
        proof {
            string_map::lemma_map_of(self.sessions@);
        }
        let mut i: usize = 0;
        while i < self.sessions.len()
            invariant
                i <= self.sessions@.len(),
                self.wf(),
                forall|j: int| 0 <= j < i ==> (#[trigger] self.sessions@[j]).0@ != id@,
            decreases self.sessions@.len() - i,
        {
            if text::same(self.sessions[i].0.as_str(), id) {
                proof {
                    string_map::lemma_map_of(self.sessions@);
                }
                return Some(i);
            }
            i = i + 1;
        }
        None
    }

    /// Makes a new session, with an identifier of sixteen random bytes. Where a
    /// session already has that identifier, none is made, and the caller tries
    /// again with other bytes.
    pub fn create(&mut self, entropy: [u8; 16], now: u64) -> (r: Option<SessionId>)
        requires
            old(self).wf(),
        ensures
            final(self).wf(),
            r is None <==> old(self)@.dom().contains(hex_text(entropy@)),
            r is None ==> final(self)@ == old(self)@,
            r matches Some(id) ==> {
                &&& id@ == hex_text(entropy@)
                &&& !old(self)@.dom().contains(id@)
                &&& final(self)@.dom() == old(self)@.dom().insert(id@)
                &&& final(self)@.dom().len() == old(self)@.dom().len() + 1
                &&& final(self)@[id@].values@ == Map::<Seq<char>, String>::empty()
                &&& final(self)@[id@].created == now
                &&& final(self)@[id@].last_accessed == now
                &&& forall|k: Seq<char>| #[trigger]
                    old(self)@.dom().contains(k) ==> final(self)@[k] == old(self)@[k]
            },
    {
        let id = generate_id(entropy);
        if self.position(id.as_str()).is_some() {
            return None;
        }
        let data = SessionData::new(now);
        let ghost before = self.sessions@;
        let ghost d = data;
        self.sessions.push((id.clone(), data));
        proof {
            let after = self.sessions@;
            string_map::lemma_map_of(before);
            assert(after.drop_last() =~= before);
            assert forall|a: int, b: int| 0 <= a < b < after.len() implies (#[trigger] after[a]).0@
                != (#[trigger] after[b]).0@ by {
                assert(after[a] == before[a]);
                if b < before.len() {
                    assert(after[b] == before[b]);
                }
            }
            assert(self@ == string_map::map_of(before).insert(id@, d));
            assert(self@.dom() =~= string_map::map_of(before).dom().insert(id@));
        }
        Some(id)
    }

    /// A session, if there is one of the identifier. It does not count as used.
    pub fn get(&self, id: &str) -> (r: Option<&SessionData>)
        requires
            self.wf(),
        ensures
            r matches Some(d) ==> self@.dom().contains(id@) && *d == self@[id@],
            r is None ==> !self@.dom().contains(id@),
    {
        match self.position(id) {
            Some(i) => Some(&self.sessions[i].1),
            None => None,
        }
    }

    /// A session that may be changed, if there is one of the identifier. It
    /// counts as used now.
    pub fn get_mut(&mut self, id: &str, now: u64) -> (r: Option<&mut SessionData>)
        requires
            old(self).wf(),
        ensures
            final(self).wf(),
            match r {
                None => !old(self)@.dom().contains(id@) && final(self)@ == old(self)@,
                Some(d) => {
                    &&& old(self)@.dom().contains(id@)
                    &&& d.values == old(self)@[id@].values
                    &&& d.created == old(self)@[id@].created
                    &&& d.last_accessed == now
                    &&& final(self)@ == old(self)@.insert(id@, *final(d))
                },
            },
    {
        let ghost before = self.sessions@;
        match self.position(id) {
            Some(i) => {
                let entry: &mut (SessionId, SessionData) = &mut self.sessions[i];
                entry.1.touch(now);
                proof {
                    string_map::lemma_map_of(before);
                    assert forall|e: (SessionId, SessionData)|
                        e.0@ == id@ implies string_map::distinct_keys(
                        #[trigger] before.update(i as int, e),
                    ) && string_map::map_of(before.update(i as int, e)) == string_map::map_of(
                        before,
                    ).insert(e.0@, e.1) by {
                        string_map::lemma_map_of_update(before, i as int, e);
                    }
                }
                Some(&mut entry.1)
            },
            None => None,
        }
    }

    /// Ends a session.
    pub fn destroy(&mut self, id: &str)
        requires
            old(self).wf(),
        ensures
            final(self).wf(),
            final(self)@ == old(self)@.remove(id@),
    {
        match self.position(id) {
            Some(i) => {
                proof {
                    string_map::lemma_map_of_remove(self.sessions@, i as int);
                }
                let _ = self.sessions.remove(i);
            },
            None => {
                assert(self@ =~= self@.remove(id@));
            },
        }
    }

    /// Ends the sessions that were not used within the last `max_age`.
    pub fn purge_expired(&mut self, max_age: u64, now: u64)
        requires
            old(self).wf(),
        ensures
            final(self).wf(),
            forall|k: Seq<char>| #[trigger]
                final(self)@.dom().contains(k) <==> old(self)@.dom().contains(k) && fresh(
                    old(self)@[k],
                    max_age,
                    now,
                ),
            forall|k: Seq<char>| #[trigger]
                final(self)@.dom().contains(k) ==> final(self)@[k] == old(self)@[k],
    {
        let ghost m0 = self@;
        let mut i: usize = 0;
        while i < self.sessions.len()
            invariant
                i <= self.sessions@.len(),
                self.wf(),
                m0 == old(self)@,
                forall|j: int| 0 <= j < i ==> fresh((#[trigger] self.sessions@[j]).1, max_age, now),
                forall|k: Seq<char>| #[trigger]
                    self@.dom().contains(k) ==> m0.dom().contains(k) && self@[k] == m0[k],
                forall|k: Seq<char>| #[trigger]
                    m0.dom().contains(k) && fresh(m0[k], max_age, now) ==> self@.dom().contains(k),
            decreases self.sessions@.len() - i,
        {
            let last: u64 = self.sessions[i].1.last_accessed;
            let age: u64 = if now >= last {
                now - last
            } else {
                0
            };
            proof {
                string_map::lemma_map_of(self.sessions@);
            }
            if age < max_age {
                i = i + 1;
            } else {
                let ghost was = self.sessions@;
                proof {
                    string_map::lemma_map_of_remove(was, i as int);
                    assert(string_map::map_of(was)[was[i as int].0@] == was[i as int].1);
                }
                let ghost m = self@;
                let _ = self.sessions.remove(i);
                proof {
                    assert(self@ == m.remove(was[i as int].0@));
                    assert forall|k: Seq<char>| #[trigger]
                        self@.dom().contains(k) implies m0.dom().contains(k) && self@[k]
                        == m0[k] by {
                        assert(m.dom().contains(k));
                    }
                    assert forall|j: int| 0 <= j < i implies fresh(
                        (#[trigger] self.sessions@[j]).1,
                        max_age,
                        now,
                    ) by {
                        assert(self.sessions@[j] == was[j]);
                    }
                }
            }
        }
        proof {
            string_map::lemma_map_of(self.sessions@);
            assert forall|k: Seq<char>| #[trigger]
                self@.dom().contains(k) implies m0.dom().contains(k) && fresh(
                m0[k],
                max_age,
                now,
            ) by {
                let j = choose|j: int|
                    0 <= j < self.sessions@.len() && (#[trigger] self.sessions@[j]).0@ == k;
                assert(self@[k] == self.sessions@[j].1);
            }
        }
    }

    /// The number of sessions.
    pub fn len(&self) -> (n: usize)
        requires
            self.wf(),
        ensures
            n == self@.dom().len(),
    {
        proof {
            string_map::lemma_map_of(self.sessions@);
        }
        self.sessions.len()
    }

    /// Whether there are no sessions.
    pub fn is_empty(&self) -> (r: bool)
        requires
            self.wf(),
        ensures
            r == (self@.dom().len() == 0),
    {
        proof {
            string_map::lemma_map_of(self.sessions@);
        }
        self.sessions.len() == 0
    }
}

/// Identifiers are made byte by byte, each as its two hexadecimal digits in
/// small letters, the higher first.
pub proof fn lemma_hex_parts(a: Seq<u8>, x: u8, b: Seq<u8>)
    ensures
        hex_text(Seq::empty()) == Seq::<char>::empty(),
        ({
            let digits = seq![
                '0',
                '1',
                '2',
                '3',
                '4',
                '5',
                '6',
                '7',
                '8',
                '9',
                'a',
                'b',
                'c',
                'd',
                'e',
                'f',
            ];
            hex_text(a + seq![x] + b) == hex_text(a) + seq![
                digits[x as int / 16],
                digits[x as int % 16],
            ] + hex_text(b)
        }),
    decreases b.len(),
{
    let s = a + seq![x] + b;
    let two = seq![hex_char(x as int / 16), hex_char(x as int % 16)];
    if b.len() == 0 {
        assert(s.drop_last() =~= a);
        assert(s.last() == x);
        assert(hex_text(s) =~= hex_text(a) + two + hex_text(b));
    } else {
        let rest = b.drop_last();
        lemma_hex_parts(a, x, rest);
        assert(s.drop_last() =~= a + seq![x] + rest);
        assert(s.last() == b.last());
        assert(hex_text(s) =~= hex_text(a) + two + hex_text(b));
    }
}

/// A session is kept as long as less time than allowed has passed since its last
/// use.
pub proof fn lemma_kept(d: SessionData, max_age: u64, now: u64)
    ensures
        now >= d.last_accessed ==> (fresh(d, max_age, now) <==> now < d.last_accessed + max_age),
        now < d.last_accessed ==> (fresh(d, max_age, now) <==> max_age > 0),
{
}

} // verus!
