//! Cookies: reading the ones a client sends, and writing the ones it is given.

use vstd::prelude::*;
use vstd::string::*;

use crate::string_map;
use crate::string_map::StringMap;
use crate::text;

verus! {

/// The name of the cookie that holds the identifier of a session.
pub const SESSION_COOKIE: &'static str = "SID";

/// What a client is told about a cookie.
#[derive(Debug, Clone)]
pub struct CookieOptions {
    /// The paths that the cookie is for.
    pub path: String,
    /// How many seconds it is kept; without a number, as long as the client
    /// runs.
    pub max_age: Option<u64>,
    /// Whether scripts in the client are kept from it.
    pub http_only: bool,
    /// `Strict`, `Lax` or `None`.
    pub same_site: Option<String>,
}

/// [`CookieOptions`] with texts for its strings.
#[verifier::ext_equal]
pub struct OptionsView {
    pub path: Seq<char>,
    pub max_age: Option<u64>,
    pub http_only: bool,
    pub same_site: Option<Seq<char>>,
}

impl View for CookieOptions {
    type V = OptionsView;

    open spec fn view(&self) -> OptionsView {
        OptionsView {
            path: self.path@,
            max_age: self.max_age,
            http_only: self.http_only,
            same_site: text::opt(self.same_site),
        }
    }
}

/// The options of a cookie where nothing else is said.
pub open spec fn default_options() -> OptionsView {
    OptionsView { path: "/"@, max_age: Some(3600), http_only: true, same_site: Some("Lax"@) }
}

impl Default for CookieOptions {
    fn default() -> (o: Self)
        ensures
            o@ == default_options(),
    {
        CookieOptions {
            path: text::owned("/"),
            max_age: Some(3600),
            http_only: true,
            same_site: Some(text::owned("Lax")),
        }
    }
}

// ---------------------------------------------------------------------------
// Reading
// ---------------------------------------------------------------------------

/// The cookies after one pair more. A pair without `=`, or without a name, says
/// nothing.
pub open spec fn with_pair(m: Map<Seq<char>, Seq<char>>, pair: Seq<char>) -> Map<
    Seq<char>,
    Seq<char>,
> {
    let p = text::trim(pair);
    let eq = text::index_of(p, '=');
    let name = text::trim(p.take(eq));
    if eq < p.len() && name.len() > 0 {
        m.insert(name, text::trim(p.skip(eq + 1)))
    } else {
        m
    }
}

/// The cookies in the first `n` pairs.
pub open spec fn pairs(pieces: Seq<Seq<char>>, n: int) -> Map<Seq<char>, Seq<char>>
    decreases n,
{
    if n <= 0 {
        Map::empty()
    } else {
        with_pair(pairs(pieces, n - 1), pieces[n - 1])
    }
}

/// The cookies in a `Cookie` header, by name. Of two with one name, the later
/// counts.
pub open spec fn cookies(header: Seq<char>) -> Map<Seq<char>, Seq<char>> {
    let pieces = text::split_on(header, ';');
    pairs(pieces, pieces.len() as int)
}

fn take_pair(m: &mut StringMap<String>, piece: &str)
    ensures
        string_map::texts(final(m)@) == with_pair(string_map::texts(old(m)@), piece@),
{
    let pair = text::trimmed(piece);
    let v = text::chars_of(pair);
    let eq: usize = text::find_char(v.as_slice(), '=');
    if eq == v.len() {
        return ;
    }
    proof {
        assert(pair@.take(eq as int) =~= pair@.subrange(0, eq as int));
        assert(pair@.skip(eq + 1) =~= pair@.subrange(eq + 1, pair@.len() as int));
    }
    let name = text::trimmed(pair.substring_char(0, eq));
    let value = text::trimmed(pair.substring_char(eq + 1, v.len()));
    if text::chars_of(name).len() > 0 {
        let ghost before = string_map::texts(m@);
        let _ = m.insert(text::owned(name), text::owned(value));
        assert(string_map::texts(m@) =~= before.insert(name@, value@));
    }
}

/// Reads a `Cookie` header, such as `name1=value1; name2=value2`.
pub fn parse_cookies(header: &str) -> (r: StringMap<String>)
    ensures
        string_map::texts(r@) == cookies(header@),
{
    let pieces = text::split_text(header, ';');
    let ghost all = text::views(pieces@);
    let mut m: StringMap<String> = StringMap::new();
    let mut i: usize = 0;
    assert(string_map::texts(m@) =~= Map::empty());
    while i < pieces.len()
        invariant
            i <= pieces@.len(),
            all == text::views(pieces@),
            string_map::texts(m@) == pairs(all, i as int),
        decreases pieces@.len() - i,
    {
        assert(all[i as int] == pieces@[i as int]@);
        take_pair(&mut m, pieces[i].as_str());
        i = i + 1;
    }
    m
}

/// The session that cookies name, if they name one.
pub open spec fn session_in(m: Map<Seq<char>, Seq<char>>) -> Option<Seq<char>> {
    if m.dom().contains(SESSION_COOKIE@) && m[SESSION_COOKIE@].len() > 0 {
        Some(m[SESSION_COOKIE@])
    } else {
        None
    }
}

/// The session that cookies name, if they name one.
pub fn extract_session_id(cookies: &StringMap<String>) -> (r: Option<&str>)
    ensures
        text::opt_str(r) == session_in(string_map::texts(cookies@)),
{
    match cookies.get(SESSION_COOKIE) {
        Some(v) => if text::chars_of(v.as_str()).len() > 0 {
            Some(v.as_str())
        } else {
            None
        },
        None => None,
    }
}

// ---------------------------------------------------------------------------
// Writing
// ---------------------------------------------------------------------------

/// The value of a `Set-Cookie` header.
pub open spec fn set_cookie_text(name: Seq<char>, value: Seq<char>, o: OptionsView) -> Seq<char> {
    name + "="@ + value + "; Path="@ + o.path + (match o.max_age {
        Some(n) => "; Max-Age="@ + text::decimal(n as nat),
        None => Seq::empty(),
    }) + (if o.http_only {
        "; HttpOnly"@
    } else {
        Seq::empty()
    }) + (match o.same_site {
        Some(s) => "; SameSite="@ + s,
        None => Seq::empty(),
    })
}

/// The value of a `Set-Cookie` header, such as
/// `SID=abc123; Path=/; Max-Age=3600; HttpOnly; SameSite=Lax`.
pub fn set_cookie_header(name: &str, value: &str, opts: &CookieOptions) -> (r: String)
    ensures
        r@ == set_cookie_text(name@, value@, opts@),
{
    let mut s = text::joined(name, "=");
    s.append(value);
    s.append("; Path=");
    s.append(opts.path.as_str());
    if let Some(n) = opts.max_age {
        s.append("; Max-Age=");
        s.append(text::decimal_text(n).as_str());
    }
    if opts.http_only {
        s.append("; HttpOnly");
    }
    if let Some(site) = &opts.same_site {
        s.append("; SameSite=");
        s.append(site.as_str());
    }
    assert(s@ =~= set_cookie_text(name@, value@, opts@));
    s
}

// ---------------------------------------------------------------------------
// Laws
// ---------------------------------------------------------------------------

/// Whether a text has no white space at its ends.
pub open spec fn tight(s: Seq<char>) -> bool {
    s.len() > 0 ==> !text::is_white(s[0]) && !text::is_white(s.last())
}

proof fn lemma_trim_tight(s: Seq<char>)
    requires
        tight(s),
    ensures
        text::trim(s) == s,
{
}

/// A cookie that a client sends back as it was set reads back with its value,
/// as long as neither the separators nor white space at the ends stand in it.
pub proof fn lemma_cookie_reads_back(name: Seq<char>, value: Seq<char>)
    requires
        name.len() > 0,
        tight(name),
        tight(value),
        !name.contains('='),
        !name.contains(';'),
        !value.contains(';'),
    ensures
        cookies(name + "="@ + value) == Map::<Seq<char>, Seq<char>>::empty().insert(name, value),
{
    reveal_strlit("=");
    let s = name + "="@ + value;
    assert(s[name.len() as int] == '=');
    text::lemma_index_of(s, ';');
    if s.contains(';') {
        let i = choose|i: int| 0 <= i < s.len() && s[i] == ';';
        if i < name.len() {
            assert(name[i] == ';');
        } else if i > name.len() {
            assert(value[i - name.len() - 1] == ';');
        }
        assert(false);
    }
    assert(text::split_on(s, ';') =~= seq![s]);
    assert(tight(s)) by {
        assert(s[0] == name[0]);
        if value.len() > 0 {
            assert(s.last() == value.last());
        } else {
            assert(s.last() == '=');
        }
    }
    lemma_trim_tight(s);
    lemma_trim_tight(name);
    lemma_trim_tight(value);
    assert forall|j: int| 0 <= j < name.len() implies s[j] != '=' by {
        assert(name.contains(name[j]));
    }
    text::lemma_index_of_is(s, '=', name.len() as int);
    assert(s.take(name.len() as int) =~= name);
    assert(s.skip(name.len() as int + 1) =~= value);
    reveal_with_fuel(pairs, 2);
}

/// One more pair in a `Cookie` header, behind a semicolon and with or without
/// white space around its parts, sets its name to its value, and leaves the
/// others. A piece without an equals sign is passed over.
pub proof fn lemma_one_more_cookie(
    before: Seq<char>,
    w: Seq<char>,
    name: Seq<char>,
    value: Seq<char>,
    piece: Seq<char>,
)
    requires
        name.len() > 0,
        tight(name),
        tight(value),
        value.len() > 0,
        text::all_white(w),
        !name.contains('='),
        !name.contains(';'),
        !value.contains(';'),
        !piece.contains(';'),
        !piece.contains('='),
    ensures
        cookies(before + seq![';'] + (w + (name + seq!['='] + value) + w)) == cookies(
            before,
        ).insert(name, value),
        cookies(before + seq![';'] + piece) == cookies(before),
{
    let pair = name + seq!['='] + value;
    let last = w + pair + w;
    assert forall|j: int| 0 <= j < last.len() implies last[j] != ';' by {
        if j < w.len() {
            assert(text::is_white(w[j]));
        } else if j < w.len() + pair.len() {
            let k = j - w.len();
            assert(last[j] == pair[k]);
            if k < name.len() {
                assert(name.contains(name[k]));
            } else if k > name.len() {
                assert(value.contains(value[k - name.len() - 1]));
            }
        } else {
            assert(text::is_white(w[j - w.len() - pair.len()]));
        }
    }
    lemma_last_piece(before, last);
    lemma_last_piece(before, piece);
    assert(pair[0] == name[0]);
    assert(pair.last() == value.last());
    text::lemma_trimmed(w, pair, w);
    assert forall|j: int| 0 <= j < name.len() implies pair[j] != '=' by {
        assert(name.contains(name[j]));
        assert(pair[j] == name[j]);
    }
    text::lemma_index_of_is(pair, '=', name.len() as int);
    assert(pair.take(name.len() as int) =~= name);
    assert(pair.skip(name.len() as int + 1) =~= value);
    lemma_trim_tight(name);
    lemma_trim_tight(value);
    lemma_nothing_trimmed_in(piece, '=');
    text::lemma_index_of(text::trim(piece), '=');
}

/// Trimming brings nothing in.
proof fn lemma_nothing_trimmed_in(s: Seq<char>, c: char)
    requires
        !s.contains(c),
    ensures
        !text::trim(s).contains(c),
{
    lemma_start_trimmed(s, c);
    lemma_end_trimmed(text::trim_start(s), c);
}

proof fn lemma_start_trimmed(s: Seq<char>, c: char)
    requires
        !s.contains(c),
    ensures
        !text::trim_start(s).contains(c),
    decreases s.len(),
{
    if s.len() > 0 {
        assert forall|j: int| 0 <= j < s.len() - 1 implies s.drop_first()[j] != c by {
            assert(s.contains(s[j + 1]));
        }
        lemma_start_trimmed(s.drop_first(), c);
    }
}

proof fn lemma_end_trimmed(s: Seq<char>, c: char)
    requires
        !s.contains(c),
    ensures
        !text::trim_end(s).contains(c),
    decreases s.len(),
{
    if s.len() > 0 {
        assert forall|j: int| 0 <= j < s.len() - 1 implies s.drop_last()[j] != c by {
            assert(s.contains(s[j]));
        }
        lemma_end_trimmed(s.drop_last(), c);
    }
}

proof fn lemma_last_piece(before: Seq<char>, piece: Seq<char>)
    requires
        !piece.contains(';'),
    ensures
        cookies(before + seq![';'] + piece) == with_pair(cookies(before), piece),
{
    text::lemma_split_on_parts(before, ';', piece);
    text::lemma_split_on_parts(piece, ';', Seq::empty());
    let a = text::split_on(before, ';');
    let all = a + seq![piece];
    assert(text::split_on(before + seq![';'] + piece, ';') == all);
    assert(all.take(a.len() as int) =~= a);
    lemma_pairs_of_prefix(a, all, a.len() as int);
    assert(all[a.len() as int] == piece);
}

proof fn lemma_pairs_of_prefix(a: Seq<Seq<char>>, all: Seq<Seq<char>>, n: int)
    requires
        n <= a.len() <= all.len(),
        all.take(a.len() as int) == a,
    ensures
        pairs(all, n) == pairs(a, n),
    decreases n,
{
    if n > 0 {
        lemma_pairs_of_prefix(a, all, n - 1);
        assert(all[n - 1] == all.take(a.len() as int)[n - 1]);
    }
}

/// The session of a client is the value of the cookie `SID`, unless it is empty.
pub proof fn lemma_session_cookie(m: Map<Seq<char>, Seq<char>>, id: Seq<char>)
    ensures
        id.len() > 0 ==> session_in(m.insert("SID"@, id)) == Some(id),
        session_in(m.insert("SID"@, Seq::empty())) is None,
        !m.dom().contains("SID"@) ==> session_in(m) is None,
{
}

/// A cookie is set by its name and value, its path, and what else the options
/// ask for, in this order: how long it is kept, that scripts are kept from it, and
/// which sites it is sent for.
pub proof fn lemma_set_cookie(name: Seq<char>, value: Seq<char>, o: OptionsView)
    ensures
        ({
            let start = name + seq!['='] + value + "; Path="@ + o.path;
            let aged = if o.max_age is Some {
                start + "; Max-Age="@ + text::decimal(o.max_age->0 as nat)
            } else {
                start
            };
            let kept = if o.http_only {
                aged + "; HttpOnly"@
            } else {
                aged
            };
            set_cookie_text(name, value, o) == if o.same_site is Some {
                kept + "; SameSite="@ + o.same_site->0
            } else {
                kept
            }
        }),
        default_options().path == "/"@,
        default_options().max_age == Some(3600u64),
        default_options().http_only,
        default_options().same_site == Some("Lax"@),
{
    reveal_strlit("=");
    assert("="@ =~= seq!['=']);
    let start = name + seq!['='] + value + "; Path="@ + o.path;
    let aged = if o.max_age is Some {
        start + "; Max-Age="@ + text::decimal(o.max_age->0 as nat)
    } else {
        start
    };
    let kept = if o.http_only {
        aged + "; HttpOnly"@
    } else {
        aged
    };
    assert(set_cookie_text(name, value, o) =~= if o.same_site is Some {
        kept + "; SameSite="@ + o.same_site->0
    } else {
        kept
    });
}

} // verus!
