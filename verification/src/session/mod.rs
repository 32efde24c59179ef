//! Sessions, kept in memory and known to clients by a cookie.

use vstd::prelude::*;
use vstd::string::*;

use crate::text;

pub mod cookie;
pub mod store;

pub use cookie::{
    extract_session_id, parse_cookies, set_cookie_header, CookieOptions, SESSION_COOKIE,
};
pub use store::{SessionData, SessionId, SessionStore};

verus! {

/// The session that a request names in its `Cookie` header, if it names one.
pub open spec fn named_session(header: Option<Seq<char>>) -> Option<Seq<char>> {
    match header {
        Some(h) => cookie::session_in(cookie::cookies(h)),
        None => None,
    }
}

/// The session of a request, and whether it was made for it.
#[derive(Debug)]
pub struct ResolvedSession {
    pub id: SessionId,
    pub created: bool,
}

/// Whether a request names a session that is kept.
pub open spec fn known(
    sessions: Map<Seq<char>, SessionData>,
    header: Option<Seq<char>>,
) -> bool {
    named_session(header) matches Some(id) && sessions.dom().contains(id)
}

/// Finds the session of a request by its `Cookie` header, and notes that it was
/// used. Where the header names none, or none that is kept, a new one is made
/// of sixteen random bytes; and where their identifier is taken, there is no
/// session, and the caller tries again with other bytes.
pub fn resolve(
    store: &mut SessionStore,
    cookie_header: Option<&str>,
    entropy: [u8; 16],
    now: u64,
) -> (r: Option<ResolvedSession>)
    requires
        old(store).wf(),
    ensures
        final(store).wf(),
        r is None <==> !known(old(store)@, text::opt_str(cookie_header))
            && old(store)@.dom().contains(store::hex_text(entropy@)),
        r is None ==> final(store)@ == old(store)@,
        r matches Some(s) ==> {
            &&& s.created == !known(old(store)@, text::opt_str(cookie_header))
            &&& final(store)@[s.id@].last_accessed == now
            &&& forall|k: Seq<char>|
                k != s.id@ && #[trigger] old(store)@.dom().contains(k) ==> final(store)@[k]
                    == old(store)@[k]
            &&& if s.created {
                &&& s.id@ == store::hex_text(entropy@)
                &&& !old(store)@.dom().contains(s.id@)
                &&& final(store)@.dom() == old(store)@.dom().insert(s.id@)
                &&& final(store)@[s.id@].values@ == Map::<Seq<char>, String>::empty()
                &&& final(store)@[s.id@].created == now
            } else {
                &&& named_session(text::opt_str(cookie_header)) == Some(s.id@)
                &&& final(store)@.dom() == old(store)@.dom()
                &&& final(store)@[s.id@].values == old(store)@[s.id@].values
                &&& final(store)@[s.id@].created == old(store)@[s.id@].created
            }
        },
{
    let ghost before = store@;
    if let Some(h) = cookie_header {
        let jar = cookie::parse_cookies(h);
        if let Some(id) = cookie::extract_session_id(&jar) {
            if store.get_mut(id, now).is_some() {
                assert(store@.dom() =~= before.dom());
                return Some(ResolvedSession { id: text::owned(id), created: false });
            }
        }
    }
    match store.create(entropy, now) {
        Some(id) => Some(ResolvedSession { id, created: true }),
        None => None,
    }
}

/// A client that sends back the cookie of its session is given that session
/// again: the identifier made of any bytes reads back from a `Cookie` header.
pub proof fn lemma_session_found_again(entropy: Seq<u8>)
    requires
        entropy.len() > 0,
    ensures
        named_session(
            Some(cookie::SESSION_COOKIE@ + "="@ + store::hex_text(entropy)),
        ) == Some(store::hex_text(entropy)),
{
    reveal_strlit("SID");
    let id = store::hex_text(entropy);
    store::lemma_id_shape(entropy);
    assert(store::is_lower_hex(id[0]) && store::is_lower_hex(id.last()));
    if id.contains(';') {
        let i = choose|i: int| 0 <= i < id.len() && id[i] == ';';
        assert(store::is_lower_hex(id[i]));
    }
    cookie::lemma_cookie_reads_back(cookie::SESSION_COOKIE@, id);
}

/// A client is known by the session that the last `SID` of its cookies names,
/// where there is such a session, whatever other cookies go before.
pub proof fn lemma_known(
    sessions: Map<Seq<char>, SessionData>,
    before: Seq<char>,
    id: Seq<char>,
)
    requires
        id.len() > 0,
        cookie::tight(id),
        !id.contains(';'),
    ensures
        named_session(Some(before + seq![';'] + (seq![' '] + ("SID"@ + seq!['='] + id) + seq![' '])))
            == Some(id),
        known(
            sessions,
            Some(before + seq![';'] + (seq![' '] + ("SID"@ + seq!['='] + id) + seq![' '])),
        ) <==> sessions.dom().contains(id),
        named_session(None) is None,
        !known(sessions, None),
{
    reveal_strlit("SID");
    cookie::lemma_one_more_cookie(before, seq![' '], "SID"@, id, Seq::empty());
    cookie::lemma_session_cookie(cookie::cookies(before), id);
}

} // verus!
