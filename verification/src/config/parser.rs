//! The configuration file format.
//!
//! A file holds `server { }` blocks. A server block holds directives and
//! `route <path> { }` blocks; a route block holds directives.
//!
//! ```text
//! server {
//!     host        127.0.0.1
//!     port        8080 8443
//!     server_name example.com www.example.com
//!     client_body_limit 5242880
//!     error_page  404 /var/www/errors/404.html
//!
//!     route / {
//!         methods         GET HEAD
//!         root            /var/www/html
//!         index           index.html
//!         directory_listing off
//!     }
//!
//!     route /old {
//!         redirect        301 /new
//!     }
//!
//!     route /cgi-bin {
//!         methods         GET POST
//!         root            /var/www/cgi-bin
//!         cgi             .py /usr/bin/python3
//!     }
//! }
//! ```
//!
//! The text is cut into tokens, which are words and single braces, and the
//! tokens are read by recursive descent. White space only separates words,
//! save that some directives take as many values as stand on one line.

use vstd::prelude::*;
use vstd::string::*;

use crate::config::types;
use crate::config::types::{
    ConfigError, ConfigErrorView, Method, Redirect, RedirectView, RouteConfig, RouteView,
    ServerConfig, ServerView,
};
use crate::string_map::StringMap;
use crate::text;

verus! {

broadcast use vstd::std_specs::hash::group_hash_axioms;

// ---------------------------------------------------------------------------
// Tokens
// ---------------------------------------------------------------------------

/// A word or a brace, with the line it stands on, counted from one.
#[derive(Debug, Clone)]
pub struct Token {
    pub value: String,
    pub line: usize,
}

/// A [`Token`] with its value as a text.
#[verifier::ext_equal]
pub struct TokenView {
    pub value: Seq<char>,
    pub line: usize,
}

impl View for Token {
    type V = TokenView;

    open spec fn view(&self) -> TokenView {
        TokenView { value: self.value@, line: self.line }
    }
}

/// The views of a list of tokens.
pub open spec fn token_views(v: Seq<Token>) -> Seq<TokenView> {
    v.map_values(|t: Token| t@)
}

/// ASCII white space: space, tab, line feed, form feed, carriage return.
pub open spec fn is_space(c: char) -> bool {
    c == ' ' || c == '\t' || c == '\n' || c == '\u{c}' || c == '\r'
}

/// An opening or a closing brace.
pub open spec fn is_brace(c: char) -> bool {
    c == '{' || c == '}'
}

/// How many characters from the start of `s` on belong to one word.
pub open spec fn word_len(s: Seq<char>) -> int
    decreases s.len(),
{
    if s.len() == 0 || is_space(s[0]) || is_brace(s[0]) {
        0
    } else {
        1 + word_len(s.drop_first())
    }
}

/// A word holds neither white space nor braces, and goes as far as it can.
pub proof fn lemma_word_len(s: Seq<char>)
    ensures
        0 <= word_len(s) <= s.len(),
        forall|i: int| 0 <= i < word_len(s) ==> !is_space(#[trigger] s[i]) && !is_brace(s[i]),
        word_len(s) < s.len() ==> is_space(s[word_len(s)]) || is_brace(s[word_len(s)]),
    decreases s.len(),
{
    if !(s.len() == 0 || is_space(s[0]) || is_brace(s[0])) {
        let rest = s.drop_first();
        lemma_word_len(rest);
        assert forall|i: int| 0 <= i < word_len(s) implies !is_space(#[trigger] s[i]) && !is_brace(
            s[i],
        ) by {
            if i > 0 {
                assert(rest[i - 1] == s[i]);
            }
        }
    }
}

/// The tokens of a text that `newlines` line feeds go before.
pub open spec fn tokens_of(s: Seq<char>, newlines: nat) -> Seq<TokenView>
    decreases s.len(),
{
    if s.len() == 0 {
        Seq::empty()
    } else if is_space(s[0]) {
        tokens_of(
            s.drop_first(),
            if s[0] == '\n' {
                newlines + 1
            } else {
                newlines
            },
        )
    } else if is_brace(s[0]) {
        seq![TokenView { value: seq![s[0]], line: (newlines + 1) as usize }] + tokens_of(
            s.drop_first(),
            newlines,
        )
    } else {
        let n = word_len(s);
        proof {
            lemma_word_len(s);
        }
        seq![TokenView { value: s.take(n), line: (newlines + 1) as usize }] + tokens_of(
            s.skip(n),
            newlines,
        )
    }
}

fn is_space_char(c: char) -> (r: bool)
    ensures
        r == is_space(c),
{
    c == ' ' || c == '\t' || c == '\n' || c == '\u{c}' || c == '\r'
}

/// Cuts a configuration text into tokens. Words end at white space and at
/// braces, and each brace is a token of its own.
pub fn tokenise(source: &str) -> (tokens: Vec<Token>)
    ensures
        token_views(tokens@) == tokens_of(source@, 0),
{
    let s = text::chars_of(source);
    let mut tokens: Vec<Token> = Vec::new();
    let mut newlines: usize = 0;
    let mut i: usize = 0;
    proof {
        assert(s@.skip(0) == s@);
        assert(token_views(tokens@) + tokens_of(s@, 0) =~= tokens_of(s@, 0));
    }
    while i < s.len()
        invariant
            i <= s@.len(),
            newlines <= i,
            s@ == source@,
            token_views(tokens@) + tokens_of(s@.skip(i as int), newlines as nat) == tokens_of(
                source@,
                0,
            ),
        decreases s@.len() - i,
    {
        let ghost rest = s@.skip(i as int);
        let ghost before = tokens@;
        let c: char = s[i];
        assert(rest[0] == c);
        if is_space_char(c) {
            assert(rest.drop_first() == s@.skip(i + 1));
            if c == '\n' {
                newlines = newlines + 1;
            }
            i = i + 1;
        } else if c == '{' || c == '}' {
            let mut value = String::new();
            value.push(c);
            tokens.push(Token { value, line: newlines + 1 });
            proof {
                assert(rest.drop_first() == s@.skip(i + 1));
                let w = TokenView { value: seq![c], line: (newlines + 1) as usize };
                assert(tokens@.last()@.value =~= seq![c]);
                assert(token_views(tokens@) =~= token_views(before).push(w));
                assert(token_views(tokens@) + tokens_of(s@.skip(i + 1), newlines as nat)
                    =~= token_views(before) + (seq![w] + tokens_of(
                    s@.skip(i + 1),
                    newlines as nat,
                )));
            }
            i = i + 1;
        } else {
            let mut n: usize = 0;
            assert(rest.skip(0) == rest);
            while i + n < s.len() && !is_space_char(s[i + n]) && s[i + n] != '{' && s[i + n] != '}'
                invariant
                    i + n <= s.len(),
                    s@ == source@,
                    rest == s@.skip(i as int),
                    word_len(rest) == n + word_len(rest.skip(n as int)),
                    n > 0 || !(is_space(rest[0]) || is_brace(rest[0])),
                    i < s@.len(),
                decreases s@.len() - i - n,
            {
                proof {
                    let r = rest.skip(n as int);
                    assert(r[0] == s@[i + n]);
                    assert(r.drop_first() == rest.skip(n + 1));
                }
                n = n + 1;
            }
            proof {
                lemma_word_len(rest);
                let r = rest.skip(n as int);
                if i + n < s.len() {
                    assert(r[0] == s@[i + n]);
                }
                assert(word_len(rest) == n);
            }
            let word: &[char] = &s[i..i + n];
            tokens.push(Token { value: text::from_chars(word), line: newlines + 1 });
            proof {
                assert(word@ =~= rest.take(n as int));
                assert(rest.skip(n as int) == s@.skip(i + n));
                let w = TokenView { value: rest.take(n as int), line: (newlines + 1) as usize };
                assert(tokens@.last()@ == w);
                assert(token_views(tokens@) =~= token_views(before).push(w));
                assert(token_views(tokens@) + tokens_of(s@.skip(i + n), newlines as nat)
                    =~= token_views(before) + (seq![w] + tokens_of(
                    s@.skip(i + n),
                    newlines as nat,
                )));
            }
            i = i + n;
        }
    }
    proof {
        assert(token_views(tokens@) + Seq::<TokenView>::empty() =~= token_views(tokens@));
    }
    tokens
}

// ---------------------------------------------------------------------------
// Values
// ---------------------------------------------------------------------------

/// The error of a value that cannot be read.
pub open spec fn malformed(detail: Seq<char>, line: usize) -> ConfigErrorView {
    ConfigErrorView::MalformedBlock { detail, line }
}

/// The port that a word writes.
pub open spec fn port_of(s: Seq<char>, line: usize) -> Result<u16, ConfigErrorView> {
    match text::parse_bounded(s, 10, u32::MAX as nat) {
        None => Err(malformed("invalid port '"@ + s + "'"@, line)),
        Some(n) => if n == 0 || n > 65535 {
            Err(ConfigErrorView::InvalidPort(n as u32))
        } else {
            Ok(n as u16)
        },
    }
}

/// The status code that a word writes.
pub open spec fn status_code_of(s: Seq<char>, line: usize) -> Result<u16, ConfigErrorView> {
    match text::parse_bounded(s, 10, u16::MAX as nat) {
        None => Err(malformed("invalid HTTP status code '"@ + s + "'"@, line)),
        Some(n) => Ok(n as u16),
    }
}

/// The status codes of redirects.
pub open spec fn is_redirect_code(code: u16) -> bool {
    code == 301 || code == 302 || code == 307 || code == 308
}

/// The redirect status code that a word writes.
pub open spec fn redirect_code_of(s: Seq<char>, line: usize) -> Result<u16, ConfigErrorView> {
    match status_code_of(s, line) {
        Err(e) => Err(e),
        Ok(code) => if is_redirect_code(code) {
            Ok(code)
        } else {
            Err(
                ConfigErrorView::InvalidValue {
                    field: "redirect code"@,
                    value: s,
                    reason: "must be one of 301, 302, 307, 308"@,
                },
            )
        },
    }
}

/// The method that a word names.
pub open spec fn method_of(s: Seq<char>, line: usize) -> Result<Method, ConfigErrorView> {
    match types::method_named(s) {
        Some(m) => Ok(m),
        None => Err(malformed("unknown HTTP method '"@ + s + "'"@, line)),
    }
}

/// The truth value that a word names.
pub open spec fn bool_of(s: Seq<char>, line: usize) -> Result<bool, ConfigErrorView> {
    if s == "on"@ || s == "true"@ || s == "yes"@ || s == "1"@ {
        Ok(true)
    } else if s == "off"@ || s == "false"@ || s == "no"@ || s == "0"@ {
        Ok(false)
    } else {
        Err(malformed("expected on/off for boolean, got '"@ + s + "'"@, line))
    }
}

/// The unit that a size ends with, in bytes: `k`, `m` and `g` in either case
/// stand for kibi-, mebi- and gibibytes.
pub open spec fn size_unit(s: Seq<char>) -> Option<nat> {
    if s.len() == 0 {
        None
    } else if s.last() == 'g' || s.last() == 'G' {
        Some(1_073_741_824)
    } else if s.last() == 'm' || s.last() == 'M' {
        Some(1_048_576)
    } else if s.last() == 'k' || s.last() == 'K' {
        Some(1024)
    } else {
        None
    }
}

/// The number of bytes that a size writes.
pub open spec fn size_of(s: Seq<char>, line: usize) -> Result<usize, ConfigErrorView> {
    let (digits, unit): (Seq<char>, nat) = match size_unit(s) {
        Some(u) => (s.drop_last(), u),
        None => (s, 1),
    };
    match text::parse_bounded(digits, 10, usize::MAX as nat) {
        Some(n) => if n * unit <= usize::MAX {
            Ok((n * unit) as usize)
        } else {
            Err(malformed("invalid size '"@ + s + "'"@, line))
        },
        None => Err(malformed("invalid size '"@ + s + "'"@, line)),
    }
}

/// A file extension without the dots in front of it.
pub open spec fn strip_dots(s: Seq<char>) -> Seq<char>
    decreases s.len(),
{
    if s.len() > 0 && s[0] == '.' {
        strip_dots(s.drop_first())
    } else {
        s
    }
}

/// Marks a directive as given on a line, unless it was given before.
pub open spec fn marked(seen: Map<Seq<char>, usize>, key: Seq<char>, line: usize) -> Result<
    Map<Seq<char>, usize>,
    ConfigErrorView,
> {
    if seen.dom().contains(key) {
        Err(
            ConfigErrorView::DuplicateDirective { directive: key, first_line: seen[key], line },
        )
    } else {
        Ok(seen.insert(key, line))
    }
}

// ---------------------------------------------------------------------------
// Grammar
// ---------------------------------------------------------------------------

/// What reading something from position `p` on gives: a value and the
/// position behind it, or the error.
#[verifier::ext_equal]
pub enum Parsed<T> {
    Done(T, int),
    Failed(ConfigErrorView),
}

/// The token at `p`; `what` says what is missing at the end of the file.
pub open spec fn word(t: Seq<TokenView>, p: int, what: Seq<char>) -> Parsed<TokenView> {
    if p < t.len() {
        Parsed::Done(t[p], p + 1)
    } else {
        Parsed::Failed(
            ConfigErrorView::MissingDirective { directive: what, context: "end of file"@ },
        )
    }
}

/// The brace that opens a block.
pub open spec fn open_brace(t: Seq<TokenView>, p: int, block: Seq<char>) -> Parsed<()> {
    if p < t.len() {
        if t[p].value == "{"@ {
            Parsed::Done((), p + 1)
        } else {
            Parsed::Failed(
                malformed(
                    "expected '{' to open "@ + block + " block, got '"@ + t[p].value + "'"@,
                    t[p].line,
                ),
            )
        }
    } else {
        Parsed::Failed(malformed("unexpected end of file, expected '{' for "@ + block, 0))
    }
}

/// Whether a token is a brace.
pub open spec fn brace_token(t: TokenView) -> bool {
    t.value == "{"@ || t.value == "}"@
}

/// The line to report at position `p`: that of the token there, or of the last.
pub open spec fn line_at(t: Seq<TokenView>, p: int) -> usize {
    if p < t.len() {
        t[p].line
    } else if t.len() > 0 {
        t.last().line
    } else {
        0
    }
}

/// Further ports on the same line: they go on as long as the words are numbers.
pub open spec fn more_ports(t: Seq<TokenView>, p: int, line: usize, ports: Seq<u16>) -> Parsed<
    Seq<u16>,
>
    decreases t.len() - p,
{
    if p < t.len() && t[p].line == line && !brace_token(t[p]) && text::parse_bounded(
        t[p].value,
        10,
        u32::MAX as nat,
    ) is Some {
        match port_of(t[p].value, t[p].line) {
            Ok(port) => more_ports(t, p + 1, line, ports.push(port)),
            Err(e) => Parsed::Failed(e),
        }
    } else {
        Parsed::Done(ports, p)
    }
}

/// Further names: every word on the same line.
pub open spec fn more_names(
    t: Seq<TokenView>,
    p: int,
    line: usize,
    names: Seq<Seq<char>>,
) -> Parsed<Seq<Seq<char>>>
    decreases t.len() - p,
{
    if p < t.len() && t[p].line == line && !brace_token(t[p]) {
        more_names(t, p + 1, line, names.push(t[p].value))
    } else {
        Parsed::Done(names, p)
    }
}

/// The words that begin a directive in a route block.
pub open spec fn is_route_keyword(s: Seq<char>) -> bool {
    ||| s == "methods"@
    ||| s == "method"@
    ||| s == "root"@
    ||| s == "index"@
    ||| s == "default_file"@
    ||| s == "directory_listing"@
    ||| s == "redirect"@
    ||| s == "client_body_limit"@
    ||| s == "cgi"@
}

/// Further methods on the same line, up to the next directive.
pub open spec fn more_methods(
    t: Seq<TokenView>,
    p: int,
    line: usize,
    methods: Seq<Method>,
) -> Parsed<Seq<Method>>
    decreases t.len() - p,
{
    if p < t.len() && t[p].line == line && !brace_token(t[p]) && !is_route_keyword(t[p].value) {
        match method_of(t[p].value, t[p].line) {
            Ok(m) => more_methods(t, p + 1, line, methods.push(m)),
            Err(e) => Parsed::Failed(e),
        }
    } else {
        Parsed::Done(methods, p)
    }
}

/// One value, and what to make of it.
pub open spec fn one_value<T>(
    t: Seq<TokenView>,
    p: int,
    what: Seq<char>,
    f: spec_fn(TokenView) -> Result<T, ConfigErrorView>,
) -> Parsed<T> {
    match word(t, p, what) {
        Parsed::Failed(e) => Parsed::Failed(e),
        Parsed::Done(w, q) => match f(w) {
            Ok(v) => Parsed::Done(v, q),
            Err(e) => Parsed::Failed(e),
        },
    }
}

/// Two values, and what to make of them.
pub open spec fn two_values<T>(
    t: Seq<TokenView>,
    p: int,
    what: (Seq<char>, Seq<char>),
    f: spec_fn(TokenView, TokenView) -> Result<T, ConfigErrorView>,
) -> Parsed<T> {
    match word(t, p, what.0) {
        Parsed::Failed(e) => Parsed::Failed(e),
        Parsed::Done(v, q) => match word(t, q, what.1) {
            Parsed::Failed(e) => Parsed::Failed(e),
            Parsed::Done(w, r) => match f(v, w) {
                Ok(x) => Parsed::Done(x, r),
                Err(e) => Parsed::Failed(e),
            },
        },
    }
}

/// A block as read so far, with the lines of its once-only directives.
pub type Partial<C> = (C, Map<Seq<char>, usize>);

/// A once-only directive named `key`: marks it, and reads on.
pub open spec fn once<C>(
    acc: Partial<C>,
    key: Seq<char>,
    line: usize,
    rest: Parsed<C>,
) -> Parsed<Partial<C>> {
    match marked(acc.1, key, line) {
        Err(e) => Parsed::Failed(e),
        Ok(seen) => match rest {
            Parsed::Failed(e) => Parsed::Failed(e),
            Parsed::Done(c, q) => Parsed::Done((c, seen), q),
        },
    }
}

/// A directive that may be repeated.
pub open spec fn repeatable<C>(acc: Partial<C>, rest: Parsed<C>) -> Parsed<Partial<C>> {
    match rest {
        Parsed::Failed(e) => Parsed::Failed(e),
        Parsed::Done(c, q) => Parsed::Done((c, acc.1), q),
    }
}

/// The `methods` directive.
pub open spec fn methods_directive(t: Seq<TokenView>, p: int, c: RouteView) -> Parsed<RouteView> {
    match word(t, p + 1, "methods value"@) {
        Parsed::Failed(e) => Parsed::Failed(e),
        Parsed::Done(w, q) => match method_of(w.value, w.line) {
            Err(e) => Parsed::Failed(e),
            Ok(m) => match more_methods(t, q, w.line, c.methods.push(m)) {
                Parsed::Failed(e) => Parsed::Failed(e),
                Parsed::Done(methods, r) => Parsed::Done(RouteView { methods, ..c }, r),
            },
        },
    }
}

/// The directive of a route block at position `p`.
pub open spec fn route_directive(t: Seq<TokenView>, p: int, acc: Partial<RouteView>) -> Parsed<
    Partial<RouteView>,
> {
    let d = t[p];
    let c = acc.0;
    if d.value == "methods"@ || d.value == "method"@ {
        repeatable(acc, methods_directive(t, p, c))
    } else if d.value == "root"@ {
        once(
            acc,
            "root"@,
            d.line,
            one_value(
                t,
                p + 1,
                "root path"@,
                |w: TokenView| Ok(RouteView { root: Some(w.value), ..c }),
            ),
        )
    } else if d.value == "index"@ || d.value == "default_file"@ {
        once(
            acc,
            "index"@,
            d.line,
            one_value(
                t,
                p + 1,
                "index file"@,
                |w: TokenView| Ok(RouteView { index_file: Some(w.value), ..c }),
            ),
        )
    } else if d.value == "directory_listing"@ {
        once(
            acc,
            "directory_listing"@,
            d.line,
            one_value(
                t,
                p + 1,
                "directory_listing value"@,
                |w: TokenView|
                    match bool_of(w.value, w.line) {
                        Ok(b) => Ok(RouteView { directory_listing: b, ..c }),
                        Err(e) => Err(e),
                    },
            ),
        )
    } else if d.value == "redirect"@ {
        once(
            acc,
            "redirect"@,
            d.line,
            two_values(
                t,
                p + 1,
                ("redirect status code"@, "redirect target URL"@),
                |v: TokenView, w: TokenView|
                    match redirect_code_of(v.value, v.line) {
                        Ok(code) => Ok(
                            RouteView {
                                redirect: Some(RedirectView { code, target: w.value }),
                                ..c
                            },
                        ),
                        Err(e) => Err(e),
                    },
            ),
        )
    } else if d.value == "client_body_limit"@ {
        once(
            acc,
            "client_body_limit"@,
            d.line,
            one_value(
                t,
                p + 1,
                "client_body_limit value"@,
                |w: TokenView|
                    match size_of(w.value, w.line) {
                        Ok(n) => Ok(RouteView { client_body_limit: Some(n), ..c }),
                        Err(e) => Err(e),
                    },
            ),
        )
    } else if d.value == "cgi"@ {
        repeatable(
            acc,
            two_values(
                t,
                p + 1,
                ("cgi extension"@, "cgi interpreter path"@),
                |v: TokenView, w: TokenView|
                    Ok(
                        RouteView {
                            cgi_extensions: c.cgi_extensions.insert(
                                text::lower(strip_dots(v.value)),
                                w.value,
                            ),
                            ..c
                        },
                    ),
            ),
        )
    } else {
        Parsed::Failed(ConfigErrorView::UnknownDirective { name: d.value, line: d.line })
    }
}

/// Reading further methods only moves forward.
pub proof fn lemma_more_methods(t: Seq<TokenView>, p: int, line: usize, methods: Seq<Method>)
    requires
        p <= t.len(),
    ensures
        more_methods(t, p, line, methods) matches Parsed::Done(m, q) ==> p <= q <= t.len(),
    decreases t.len() - p,
{
    if p < t.len() {
        if let Ok(m) = method_of(t[p].value, t[p].line) {
            lemma_more_methods(t, p + 1, line, methods.push(m));
        }
    }
}

/// A directive of a route block takes at least its own word.
pub proof fn lemma_route_directive_advances(t: Seq<TokenView>, p: int, acc: Partial<RouteView>)
    requires
        0 <= p < t.len(),
    ensures
        route_directive(t, p, acc) matches Parsed::Done(a, q) ==> p < q <= t.len(),
{
    if p + 1 < t.len() {
        if let Ok(m) = method_of(t[p + 1].value, t[p + 1].line) {
            lemma_more_methods(t, p + 2, t[p + 1].line, acc.0.methods.push(m));
        }
    }
}

/// The directives of a route block from position `p` on, up to its closing brace.
pub open spec fn route_body(t: Seq<TokenView>, p: int, acc: Partial<RouteView>) -> Parsed<RouteView>
    decreases t.len() - p,
{
    if p < 0 || p >= t.len() {
        Parsed::Failed(malformed("unexpected end of file inside route block"@, line_at(t, p)))
    } else if t[p].value == "}"@ {
        Parsed::Done(acc.0, p + 1)
    } else {
        proof {
            lemma_route_directive_advances(t, p, acc);
        }
        match route_directive(t, p, acc) {
            Parsed::Failed(e) => Parsed::Failed(e),
            Parsed::Done(next, q) => route_body(t, q, next),
        }
    }
}

/// A route block, from its opening brace on.
pub open spec fn route_block(t: Seq<TokenView>, p: int, path: Seq<char>) -> Parsed<RouteView> {
    match open_brace(t, p, "route"@) {
        Parsed::Failed(e) => Parsed::Failed(e),
        Parsed::Done(_, q) => route_body(t, q, (RouteView::empty(path), Map::empty())),
    }
}

/// A route block ends behind where it began.
pub proof fn lemma_route_body_advances(t: Seq<TokenView>, p: int, acc: Partial<RouteView>)
    ensures
        route_body(t, p, acc) matches Parsed::Done(r, q) ==> p < q <= t.len(),
    decreases t.len() - p,
{
    if 0 <= p < t.len() && t[p].value != "}"@ {
        lemma_route_directive_advances(t, p, acc);
        if let Parsed::Done(next, q) = route_directive(t, p, acc) {
            lemma_route_body_advances(t, q, next);
        }
    }
}

/// The `port` directive.
pub open spec fn port_directive(t: Seq<TokenView>, p: int, c: ServerView) -> Parsed<ServerView> {
    match word(t, p + 1, "port value"@) {
        Parsed::Failed(e) => Parsed::Failed(e),
        Parsed::Done(w, q) => match port_of(w.value, t[p].line) {
            Err(e) => Parsed::Failed(e),
            Ok(port) => match more_ports(t, q, w.line, c.ports.push(port)) {
                Parsed::Failed(e) => Parsed::Failed(e),
                Parsed::Done(ports, r) => Parsed::Done(ServerView { ports, ..c }, r),
            },
        },
    }
}

/// The `server_name` directive.
pub open spec fn name_directive(t: Seq<TokenView>, p: int, c: ServerView) -> Parsed<ServerView> {
    match word(t, p + 1, "server_name value"@) {
        Parsed::Failed(e) => Parsed::Failed(e),
        Parsed::Done(w, q) => match more_names(t, q, w.line, c.server_names.push(w.value)) {
            Parsed::Failed(e) => Parsed::Failed(e),
            Parsed::Done(server_names, r) => Parsed::Done(ServerView { server_names, ..c }, r),
        },
    }
}

/// A route within a server block.
pub open spec fn nested_route(t: Seq<TokenView>, p: int, c: ServerView) -> Parsed<ServerView> {
    match word(t, p + 1, "route path"@) {
        Parsed::Failed(e) => Parsed::Failed(e),
        Parsed::Done(w, q) => match route_block(t, q, w.value) {
            Parsed::Failed(e) => Parsed::Failed(e),
            Parsed::Done(route, r) => Parsed::Done(
                ServerView { routes: c.routes.push(route), ..c },
                r,
            ),
        },
    }
}

/// The directive of a server block at position `p`.
pub open spec fn server_directive(t: Seq<TokenView>, p: int, acc: Partial<ServerView>) -> Parsed<
    Partial<ServerView>,
> {
    let d = t[p];
    let c = acc.0;
    if d.value == "host"@ {
        once(
            acc,
            "host"@,
            d.line,
            one_value(t, p + 1, "host value"@, |w: TokenView| Ok(ServerView { host: w.value, ..c })),
        )
    } else if d.value == "port"@ || d.value == "listen"@ {
        repeatable(acc, port_directive(t, p, c))
    } else if d.value == "server_name"@ {
        repeatable(acc, name_directive(t, p, c))
    } else if d.value == "client_body_limit"@ {
        repeatable(
            acc,
            one_value(
                t,
                p + 1,
                "client_body_limit value"@,
                |w: TokenView|
                    match size_of(w.value, w.line) {
                        Ok(n) => Ok(ServerView { client_body_limit: n, ..c }),
                        Err(e) => Err(e),
                    },
            ),
        )
    } else if d.value == "error_page"@ {
        repeatable(
            acc,
            two_values(
                t,
                p + 1,
                ("error_page status code"@, "error_page file path"@),
                |v: TokenView, w: TokenView|
                    match status_code_of(v.value, v.line) {
                        Ok(code) => Ok(
                            ServerView { error_pages: c.error_pages.insert(code, w.value), ..c },
                        ),
                        Err(e) => Err(e),
                    },
            ),
        )
    } else if d.value == "route"@ {
        repeatable(acc, nested_route(t, p, c))
    } else {
        Parsed::Failed(ConfigErrorView::UnknownDirective { name: d.value, line: d.line })
    }
}

/// Reading further ports only moves forward.
pub proof fn lemma_more_ports(t: Seq<TokenView>, p: int, line: usize, ports: Seq<u16>)
    requires
        p <= t.len(),
    ensures
        more_ports(t, p, line, ports) matches Parsed::Done(m, q) ==> p <= q <= t.len(),
    decreases t.len() - p,
{
    if p < t.len() {
        if let Ok(port) = port_of(t[p].value, t[p].line) {
            lemma_more_ports(t, p + 1, line, ports.push(port));
        }
    }
}

/// Reading further names only moves forward.
pub proof fn lemma_more_names(t: Seq<TokenView>, p: int, line: usize, names: Seq<Seq<char>>)
    requires
        p <= t.len(),
    ensures
        more_names(t, p, line, names) matches Parsed::Done(m, q) ==> p <= q <= t.len(),
    decreases t.len() - p,
{
    if p < t.len() {
        lemma_more_names(t, p + 1, line, names.push(t[p].value));
    }
}

/// A directive of a server block takes at least its own word.
pub proof fn lemma_server_directive_advances(t: Seq<TokenView>, p: int, acc: Partial<ServerView>)
    requires
        0 <= p < t.len(),
    ensures
        server_directive(t, p, acc) matches Parsed::Done(a, q) ==> p < q <= t.len(),
{
    if p + 1 < t.len() {
        let w = t[p + 1];
        if let Ok(port) = port_of(w.value, t[p].line) {
            lemma_more_ports(t, p + 2, w.line, acc.0.ports.push(port));
        }
        lemma_more_names(t, p + 2, w.line, acc.0.server_names.push(w.value));
        lemma_route_body_advances(t, p + 3, (RouteView::empty(w.value), Map::empty()));
    }
}

/// The directives of a server block from position `p` on, up to its closing brace.
pub open spec fn server_body(t: Seq<TokenView>, p: int, acc: Partial<ServerView>) -> Parsed<
    ServerView,
>
    decreases t.len() - p,
{
    if p < 0 || p >= t.len() {
        Parsed::Failed(malformed("unexpected end of file inside server block"@, line_at(t, p)))
    } else if t[p].value == "}"@ {
        Parsed::Done(acc.0, p + 1)
    } else {
        proof {
            lemma_server_directive_advances(t, p, acc);
        }
        match server_directive(t, p, acc) {
            Parsed::Failed(e) => Parsed::Failed(e),
            Parsed::Done(next, q) => server_body(t, q, next),
        }
    }
}

/// A server block, from its opening brace on.
pub open spec fn server_block(t: Seq<TokenView>, p: int) -> Parsed<ServerView> {
    match open_brace(t, p, "server"@) {
        Parsed::Failed(e) => Parsed::Failed(e),
        Parsed::Done(_, q) => server_body(t, q, (ServerView::empty(), Map::empty())),
    }
}

/// A server block ends behind where it began.
pub proof fn lemma_server_body_advances(t: Seq<TokenView>, p: int, acc: Partial<ServerView>)
    ensures
        server_body(t, p, acc) matches Parsed::Done(r, q) ==> p < q <= t.len(),
    decreases t.len() - p,
{
    if 0 <= p < t.len() && t[p].value != "}"@ {
        lemma_server_directive_advances(t, p, acc);
        if let Parsed::Done(next, q) = server_directive(t, p, acc) {
            lemma_server_body_advances(t, q, next);
        }
    }
}

/// The server blocks from position `p` on.
pub open spec fn servers_from(t: Seq<TokenView>, p: int, servers: Seq<ServerView>) -> Result<
    Seq<ServerView>,
    ConfigErrorView,
>
    decreases t.len() - p,
{
    if p < 0 || p >= t.len() {
        Ok(servers)
    } else if t[p].value != "server"@ {
        Err(ConfigErrorView::UnknownDirective { name: t[p].value, line: t[p].line })
    } else {
        proof {
            lemma_server_body_advances(t, p + 2, (ServerView::empty(), Map::empty()));
        }
        match server_block(t, p + 1) {
            Parsed::Failed(e) => Err(e),
            Parsed::Done(s, q) => servers_from(t, q, servers.push(s)),
        }
    }
}

/// The servers that a configuration text describes, or its first error.
pub open spec fn parsed_config(source: Seq<char>) -> Result<Seq<ServerView>, ConfigErrorView> {
    servers_from(tokens_of(source, 0), 0, Seq::empty())
}

// ---------------------------------------------------------------------------
// Reading tokens
// ---------------------------------------------------------------------------

/// A position in a list of tokens.
struct TokenStream<'a> {
    tokens: &'a [Token],
    pos: usize,
}

impl<'a> TokenStream<'a> {
    spec fn wf(&self) -> bool {
        self.pos <= self.tokens@.len()
    }

    spec fn toks(&self) -> Seq<TokenView> {
        token_views(self.tokens@)
    }

    fn peek(&self) -> (r: Option<&'a Token>)
        requires
            self.wf(),
        ensures
            r matches Some(t) ==> self.pos < self.tokens.len() && t@ == self.toks()[self.pos as int],
            r is None ==> self.pos == self.toks().len(),
    {
        if self.pos < self.tokens.len() {
            Some(&self.tokens[self.pos])
        } else {
            None
        }
    }

    /// The next token; `what` says what is missing where there is none.
    fn expect_word(&mut self, what: &'static str) -> (r: Result<&'a Token, ConfigError>)
        requires
            old(self).wf(),
        ensures
            final(self).tokens == old(self).tokens,
            final(self).wf(),
            match r {
                Ok(t) => word(old(self).toks(), old(self).pos as int, what@) == Parsed::Done(
                    t@,
                    final(self).pos as int,
                ),
                Err(e) => word(old(self).toks(), old(self).pos as int, what@)
                    == Parsed::<TokenView>::Failed(e@),
            },
    {
        match self.peek() {
            Some(t) => {
                self.pos = self.pos + 1;
                Ok(t)
            },
            None => Err(
                ConfigError::MissingDirective {
                    directive: what,
                    context: text::owned("end of file"),
                },
            ),
        }
    }

    /// The brace that opens a block.
    fn expect_open(&mut self, block: &str) -> (r: Result<(), ConfigError>)
        requires
            old(self).wf(),
        ensures
            final(self).tokens == old(self).tokens,
            final(self).wf(),
            match r {
                Ok(_) => open_brace(old(self).toks(), old(self).pos as int, block@) == Parsed::Done(
                    (),
                    final(self).pos as int,
                ),
                Err(e) => open_brace(old(self).toks(), old(self).pos as int, block@)
                    == Parsed::<()>::Failed(e@),
            },
    {
        match self.peek() {
            Some(t) => {
                if text::same(t.value.as_str(), "{") {
                    self.pos = self.pos + 1;
                    return Ok(());
                }
                let mut detail = text::owned("expected '{' to open ");
                detail.append(block);
                detail.append(" block, got '");
                detail.append(t.value.as_str());
                detail.append("'");
                Err(ConfigError::MalformedBlock { detail, line: t.line })
            },
            None => {
                let mut detail = text::owned("unexpected end of file, expected '{' for ");
                detail.append(block);
                Err(ConfigError::MalformedBlock { detail, line: 0 })
            },
        }
    }

    /// The line to report here.
    fn current_line(&self) -> (n: usize)
        requires
            self.wf(),
        ensures
            n == line_at(self.toks(), self.pos as int),
    {
        match self.peek() {
            Some(t) => t.line,
            None => {
                if self.tokens.len() > 0 {
                    self.tokens[self.tokens.len() - 1].line
                } else {
                    0
                }
            },
        }
    }

    /// The next token, where it stands on the given line and is no brace.
    fn same_line(&self, line: usize) -> (r: Option<&'a Token>)
        requires
            self.wf(),
        ensures
            r matches Some(t) ==> self.pos < self.tokens.len() && t@ == self.toks()[self.pos as int]
                && t.line == line && !brace_token(t@),
            r is None ==> self.pos == self.toks().len() || self.toks()[self.pos as int].line != line
                || brace_token(self.toks()[self.pos as int]),
    {
        match self.peek() {
            Some(t) => if t.line != line || is_brace_word(t.value.as_str()) {
                None
            } else {
                Some(t)
            },
            None => None,
        }
    }
}

fn is_brace_word(s: &str) -> (r: bool)
    ensures
        r == (s@ == "{"@ || s@ == "}"@),
{
    text::same(s, "{") || text::same(s, "}")
}

// ---------------------------------------------------------------------------
// Reading values
// ---------------------------------------------------------------------------

/// `before`, then `s` and a closing quote.
fn quoted(before: &str, s: &str) -> (r: String)
    ensures
        r@ == before@ + s@ + "'"@,
{
    let mut r = text::owned(before);
    r.append(s);
    r.append("'");
    r
}

/// Reads a port.
fn parse_port(s: &str, line: usize) -> (r: Result<u16, ConfigError>)
    ensures
        match r {
            Ok(n) => port_of(s@, line) == Ok::<u16, ConfigErrorView>(n),
            Err(e) => port_of(s@, line) == Err::<u16, ConfigErrorView>(e@),
        },
{
    match text::parse_unsigned(s, 10, u32::MAX as u64) {
        None => Err(ConfigError::MalformedBlock { detail: quoted("invalid port '", s), line }),
        Some(n) => if n == 0 || n > 65535 {
            Err(ConfigError::InvalidPort(n as u32))
        } else {
            Ok(n as u16)
        },
    }
}

/// Reads a status code.
fn parse_status_code(s: &str, line: usize) -> (r: Result<u16, ConfigError>)
    ensures
        match r {
            Ok(n) => status_code_of(s@, line) == Ok::<u16, ConfigErrorView>(n),
            Err(e) => status_code_of(s@, line) == Err::<u16, ConfigErrorView>(e@),
        },
{
    match text::parse_unsigned(s, 10, u16::MAX as u64) {
        None => Err(
            ConfigError::MalformedBlock { detail: quoted("invalid HTTP status code '", s), line },
        ),
        Some(n) => Ok(n as u16),
    }
}

/// Reads the status code of a redirect.
fn parse_redirect_code(s: &str, line: usize) -> (r: Result<u16, ConfigError>)
    ensures
        match r {
            Ok(n) => redirect_code_of(s@, line) == Ok::<u16, ConfigErrorView>(n),
            Err(e) => redirect_code_of(s@, line) == Err::<u16, ConfigErrorView>(e@),
        },
{
    let code: u16 = match parse_status_code(s, line) {
        Ok(code) => code,
        Err(e) => {
            return Err(e);
        },
    };
    if code == 301 || code == 302 || code == 307 || code == 308 {
        Ok(code)
    } else {
        Err(
            ConfigError::InvalidValue {
                field: "redirect code",
                value: text::owned(s),
                reason: "must be one of 301, 302, 307, 308",
            },
        )
    }
}

/// Reads the name of a method.
fn parse_method(s: &str, line: usize) -> (r: Result<Method, ConfigError>)
    ensures
        match r {
            Ok(m) => method_of(s@, line) == Ok::<Method, ConfigErrorView>(m),
            Err(e) => method_of(s@, line) == Err::<Method, ConfigErrorView>(e@),
        },
{
    match Method::from_str(s) {
        Some(m) => Ok(m),
        None => Err(
            ConfigError::MalformedBlock { detail: quoted("unknown HTTP method '", s), line },
        ),
    }
}

/// Reads a switch.
fn parse_bool(s: &str, line: usize) -> (r: Result<bool, ConfigError>)
    ensures
        match r {
            Ok(b) => bool_of(s@, line) == Ok::<bool, ConfigErrorView>(b),
            Err(e) => bool_of(s@, line) == Err::<bool, ConfigErrorView>(e@),
        },
{
    if text::same(s, "on") || text::same(s, "true") || text::same(s, "yes") || text::same(s, "1") {
        Ok(true)
    } else if text::same(s, "off") || text::same(s, "false") || text::same(s, "no") || text::same(
        s,
        "0",
    ) {
        Ok(false)
    } else {
        Err(
            ConfigError::MalformedBlock {
                detail: quoted("expected on/off for boolean, got '", s),
                line,
            },
        )
    }
}

/// Reads a size in bytes: a number, or a number with one of the suffixes `k`,
/// `m` and `g` in either case, such as `1048576`, `1m` or `512K`.
pub fn parse_size(s: &str, line: usize) -> (r: Result<usize, ConfigError>)
    ensures
        match r {
            Ok(n) => size_of(s@, line) == Ok::<usize, ConfigErrorView>(n),
            Err(e) => size_of(s@, line) == Err::<usize, ConfigErrorView>(e@),
        },
{
    let v = text::chars_of(s);
    let last: char = if v.len() == 0 {
        '0'
    } else {
        v[v.len() - 1]
    };
    let unit: u64 = if last == 'g' || last == 'G' {
        1_073_741_824
    } else if last == 'm' || last == 'M' {
        1_048_576
    } else if last == 'k' || last == 'K' {
        1024
    } else {
        1
    };
    let digits: &str = if unit == 1 {
        s
    } else {
        s.substring_char(0, v.len() - 1)
    };
    proof {
        if unit != 1 {
            assert(digits@ =~= s@.drop_last());
        }
    }
    if let Some(n) = text::parse_unsigned(digits, 10, usize::MAX as u64) {
        if let Some(bytes) = (n as usize).checked_mul(unit as usize) {
            return Ok(bytes);
        }
    }
    Err(ConfigError::MalformedBlock { detail: quoted("invalid size '", s), line })
}

/// A string without the dots in front of it.
fn without_dots<'a>(s: &'a str) -> (r: &'a str)
    ensures
        r@ == strip_dots(s@),
{
    let v = text::chars_of(s);
    let mut i: usize = 0;
    assert(s@.skip(0) == s@);
    while i < v.len() && v[i] == '.'
        invariant
            i <= v@.len(),
            v@ == s@,
            strip_dots(s@) == strip_dots(s@.skip(i as int)),
        decreases v@.len() - i,
    {
        assert(s@.skip(i as int).drop_first() == s@.skip(i + 1));
        i = i + 1;
    }
    assert(s@.skip(i as int) == s@.subrange(i as int, s@.len() as int));
    s.substring_char(i, v.len())
}

/// Marks a once-only directive.
fn mark_once(seen: &mut StringMap<usize>, key: &'static str, line: usize) -> (r: Result<
    (),
    ConfigError,
>)
    ensures
        match r {
            Ok(_) => marked(old(seen)@, key@, line) == Ok::<
                Map<Seq<char>, usize>,
                ConfigErrorView,
            >(final(seen)@),
            Err(e) => marked(old(seen)@, key@, line) == Err::<
                Map<Seq<char>, usize>,
                ConfigErrorView,
            >(e@),
        },
{
    match seen.insert(text::owned(key), line) {
        Some(first_line) => Err(
            ConfigError::DuplicateDirective { directive: key, first_line, line },
        ),
        None => Ok(()),
    }
}

// ---------------------------------------------------------------------------
// Reading blocks
// ---------------------------------------------------------------------------

/// Whether a string begins a directive in a route block.
fn route_keyword(s: &str) -> (r: bool)
    ensures
        r == is_route_keyword(s@),
{
    text::same(s, "methods") || text::same(s, "method") || text::same(s, "root") || text::same(
        s,
        "index",
    ) || text::same(s, "default_file") || text::same(s, "directory_listing") || text::same(
        s,
        "redirect",
    ) || text::same(s, "client_body_limit") || text::same(s, "cgi")
}

/// Reads the methods of a route; the word `methods` has been taken.
fn parse_methods(stream: &mut TokenStream<'_>, cfg: &mut RouteConfig) -> (r: Result<
    (),
    ConfigError,
>)
    requires
        old(stream).wf(),
        old(stream).pos > 0,
    ensures
        final(stream).tokens == old(stream).tokens,
        final(stream).wf(),
        match r {
            Ok(_) => methods_directive(old(stream).toks(), old(stream).pos - 1, old(cfg)@)
                == Parsed::Done(final(cfg)@, final(stream).pos as int),
            Err(e) => methods_directive(old(stream).toks(), old(stream).pos - 1, old(cfg)@)
                == Parsed::<RouteView>::Failed(e@),
        },
{
    let ghost t = stream.toks();
    let ghost start = stream.pos - 1;
    let ghost c0 = cfg@;
    let first = match stream.expect_word("methods value") {
        Ok(w) => w,
        Err(e) => {
            return Err(e);
        },
    };
    let line: usize = first.line;
    match parse_method(first.value.as_str(), first.line) {
        Ok(m) => cfg.methods.push(m),
        Err(e) => {
            return Err(e);
        },
    }
    let ghost q = stream.pos as int;
    let ghost methods0 = cfg.methods@;
    loop
        invariant
            stream.tokens == old(stream).tokens,
            t == stream.toks(),
            stream.wf(),
            cfg@ == (RouteView { methods: cfg.methods@, ..c0 }),
            more_methods(t, q, line, methods0) == more_methods(
                t,
                stream.pos as int,
                line,
                cfg.methods@,
            ),
            methods_directive(t, start, c0) == (match more_methods(t, q, line, methods0) {
                Parsed::Failed(e) => Parsed::<RouteView>::Failed(e),
                Parsed::Done(methods, r) => Parsed::Done(RouteView { methods, ..c0 }, r),
            }),
            start == old(stream).pos - 1,
            c0 == old(cfg)@,
        decreases t.len() - stream.pos,
    {
        match stream.same_line(line) {
            None => {
                return Ok(());
            },
            Some(w) => {
                if route_keyword(w.value.as_str()) {
                    return Ok(());
                }
                match parse_method(w.value.as_str(), w.line) {
                    Ok(m) => cfg.methods.push(m),
                    Err(e) => {
                        return Err(e);
                    },
                }
                stream.pos = stream.pos + 1;
            },
        }
    }
}

/// Reads one directive of a route block.
fn parse_route_directive(
    stream: &mut TokenStream<'_>,
    cfg: &mut RouteConfig,
    seen: &mut StringMap<usize>,
) -> (r: Result<(), ConfigError>)
    requires
        old(stream).wf(),
        old(stream).pos < old(stream).tokens@.len(),
    ensures
        final(stream).tokens == old(stream).tokens,
        final(stream).wf(),
        match r {
            Ok(_) => route_directive(
                old(stream).toks(),
                old(stream).pos as int,
                (old(cfg)@, old(seen)@),
            ) == Parsed::Done((final(cfg)@, final(seen)@), final(stream).pos as int),
            Err(e) => route_directive(
                old(stream).toks(),
                old(stream).pos as int,
                (old(cfg)@, old(seen)@),
            ) == Parsed::<Partial<RouteView>>::Failed(e@),
        },
{
    let ghost t = stream.toks();
    let ghost p = stream.pos as int;
    let ghost acc = (cfg@, seen@);
    let directive = &stream.tokens[stream.pos];
    assert(directive@ == t[p]);
    let name: &str = directive.value.as_str();
    let line: usize = directive.line;
    stream.pos = stream.pos + 1;
    if text::same(name, "methods") || text::same(name, "method") {
        return parse_methods(stream, cfg);
    }
    if text::same(name, "root") {
        if let Err(e) = mark_once(seen, "root", line) {
            return Err(e);
        }
        let val = match stream.expect_word("root path") {
            Ok(w) => w,
            Err(e) => {
                return Err(e);
            },
        };
        cfg.root = Some(val.value.clone());
        return Ok(());
    }
    if text::same(name, "index") || text::same(name, "default_file") {
        if let Err(e) = mark_once(seen, "index", line) {
            return Err(e);
        }
        let val = match stream.expect_word("index file") {
            Ok(w) => w,
            Err(e) => {
                return Err(e);
            },
        };
        cfg.index_file = Some(val.value.clone());
        return Ok(());
    }
    if text::same(name, "directory_listing") {
        if let Err(e) = mark_once(seen, "directory_listing", line) {
            return Err(e);
        }
        let val = match stream.expect_word("directory_listing value") {
            Ok(w) => w,
            Err(e) => {
                return Err(e);
            },
        };
        return match parse_bool(val.value.as_str(), val.line) {
            Ok(b) => {
                cfg.directory_listing = b;
                Ok(())
            },
            Err(e) => Err(e),
        };
    }
    if text::same(name, "redirect") {
        if let Err(e) = mark_once(seen, "redirect", line) {
            return Err(e);
        }
        let code_tok = match stream.expect_word("redirect status code") {
            Ok(w) => w,
            Err(e) => {
                return Err(e);
            },
        };
        let target_tok = match stream.expect_word("redirect target URL") {
            Ok(w) => w,
            Err(e) => {
                return Err(e);
            },
        };
        return match parse_redirect_code(code_tok.value.as_str(), code_tok.line) {
            Ok(code) => {
                cfg.redirect = Some(Redirect { code, target: target_tok.value.clone() });
                Ok(())
            },
            Err(e) => Err(e),
        };
    }
    if text::same(name, "client_body_limit") {
        if let Err(e) = mark_once(seen, "client_body_limit", line) {
            return Err(e);
        }
        let val = match stream.expect_word("client_body_limit value") {
            Ok(w) => w,
            Err(e) => {
                return Err(e);
            },
        };
        return match parse_size(val.value.as_str(), val.line) {
            Ok(n) => {
                cfg.client_body_limit = Some(n);
                Ok(())
            },
            Err(e) => Err(e),
        };
    }
    if text::same(name, "cgi") {
        let ext_tok = match stream.expect_word("cgi extension") {
            Ok(w) => w,
            Err(e) => {
                return Err(e);
            },
        };
        let interp_tok = match stream.expect_word("cgi interpreter path") {
            Ok(w) => w,
            Err(e) => {
                return Err(e);
            },
        };
        let ext: String = text::lower_text(without_dots(ext_tok.value.as_str()));
        let ghost key = ext@;
        let _ = cfg.cgi_extensions.insert(ext, interp_tok.value.clone());
        proof {
            assert(cfg@.cgi_extensions =~= acc.0.cgi_extensions.insert(key, interp_tok.value@));
        }
        return Ok(());
    }
    Err(ConfigError::UnknownDirective { name: directive.value.clone(), line })
}

/// Reads a route block; the word `route` and the path have been taken.
fn parse_route_block(stream: &mut TokenStream<'_>, route_path: String) -> (r: Result<
    RouteConfig,
    ConfigError,
>)
    requires
        old(stream).wf(),
    ensures
        final(stream).tokens == old(stream).tokens,
        final(stream).wf(),
        match r {
            Ok(c) => route_block(old(stream).toks(), old(stream).pos as int, route_path@)
                == Parsed::Done(c@, final(stream).pos as int),
            Err(e) => route_block(old(stream).toks(), old(stream).pos as int, route_path@)
                == Parsed::<RouteView>::Failed(e@),
        },
{
    let ghost t = stream.toks();
    if let Err(e) = stream.expect_open("route") {
        return Err(e);
    }
    let ghost start = stream.pos as int;
    let ghost path = route_path@;
    let mut cfg = RouteConfig::at(route_path);
    let mut seen: StringMap<usize> = StringMap::new();
    loop
        invariant
            stream.tokens == old(stream).tokens,
            t == stream.toks(),
            stream.wf(),
            path == route_path@,
            route_block(t, old(stream).pos as int, path) == route_body(
                t,
                stream.pos as int,
                (cfg@, seen@),
            ),
        decreases t.len() - stream.pos,
    {
        let token = match stream.peek() {
            None => {
                return Err(
                    ConfigError::MalformedBlock {
                        detail: text::owned("unexpected end of file inside route block"),
                        line: stream.current_line(),
                    },
                );
            },
            Some(w) => w,
        };
        if text::same(token.value.as_str(), "}") {
            stream.pos = stream.pos + 1;
            return Ok(cfg);
        }
        proof {
            lemma_route_directive_advances(t, stream.pos as int, (cfg@, seen@));
        }
        if let Err(e) = parse_route_directive(stream, &mut cfg, &mut seen) {
            return Err(e);
        }
    }
}

/// Reads the ports of a server; the word `port` has been taken.
fn parse_ports(stream: &mut TokenStream<'_>, cfg: &mut ServerConfig) -> (r: Result<(), ConfigError>)
    requires
        old(stream).wf(),
        old(stream).pos > 0,
    ensures
        final(stream).tokens == old(stream).tokens,
        final(stream).wf(),
        match r {
            Ok(_) => port_directive(old(stream).toks(), old(stream).pos - 1, old(cfg)@)
                == Parsed::Done(final(cfg)@, final(stream).pos as int),
            Err(e) => port_directive(old(stream).toks(), old(stream).pos - 1, old(cfg)@)
                == Parsed::<ServerView>::Failed(e@),
        },
{
    let ghost t = stream.toks();
    let ghost start = stream.pos - 1;
    let ghost c0 = cfg@;
    let directive_line: usize = stream.tokens[stream.pos - 1].line;
    assert(directive_line == t[start].line);
    let first = match stream.expect_word("port value") {
        Ok(w) => w,
        Err(e) => {
            return Err(e);
        },
    };
    let line: usize = first.line;
    match parse_port(first.value.as_str(), directive_line) {
        Ok(n) => cfg.ports.push(n),
        Err(e) => {
            return Err(e);
        },
    }
    let ghost q = stream.pos as int;
    let ghost ports0 = cfg.ports@;
    loop
        invariant
            stream.tokens == old(stream).tokens,
            t == stream.toks(),
            stream.wf(),
            cfg@ == (ServerView { ports: cfg.ports@, ..c0 }),
            more_ports(t, q, line, ports0) == more_ports(t, stream.pos as int, line, cfg.ports@),
            port_directive(t, start, c0) == (match more_ports(t, q, line, ports0) {
                Parsed::Failed(e) => Parsed::<ServerView>::Failed(e),
                Parsed::Done(ports, r) => Parsed::Done(ServerView { ports, ..c0 }, r),
            }),
            start == old(stream).pos - 1,
            c0 == old(cfg)@,
        decreases t.len() - stream.pos,
    {
        match stream.same_line(line) {
            None => {
                return Ok(());
            },
            Some(w) => {
                if text::parse_unsigned(w.value.as_str(), 10, u32::MAX as u64).is_none() {
                    return Ok(());
                }
                match parse_port(w.value.as_str(), w.line) {
                    Ok(n) => cfg.ports.push(n),
                    Err(e) => {
                        return Err(e);
                    },
                }
                stream.pos = stream.pos + 1;
            },
        }
    }
}

/// Reads the names of a server; the word `server_name` has been taken.
fn parse_names(stream: &mut TokenStream<'_>, cfg: &mut ServerConfig) -> (r: Result<(), ConfigError>)
    requires
        old(stream).wf(),
        old(stream).pos > 0,
    ensures
        final(stream).tokens == old(stream).tokens,
        final(stream).wf(),
        match r {
            Ok(_) => name_directive(old(stream).toks(), old(stream).pos - 1, old(cfg)@)
                == Parsed::Done(final(cfg)@, final(stream).pos as int),
            Err(e) => name_directive(old(stream).toks(), old(stream).pos - 1, old(cfg)@)
                == Parsed::<ServerView>::Failed(e@),
        },
{
    let ghost t = stream.toks();
    let ghost start = stream.pos - 1;
    let ghost c0 = cfg@;
    let first = match stream.expect_word("server_name value") {
        Ok(w) => w,
        Err(e) => {
            return Err(e);
        },
    };
    let line: usize = first.line;
    cfg.server_names.push(first.value.clone());
    proof {
        assert(cfg@.server_names =~= c0.server_names.push(first.value@));
    }
    let ghost q = stream.pos as int;
    let ghost names0 = cfg@.server_names;
    loop
        invariant
            stream.tokens == old(stream).tokens,
            t == stream.toks(),
            stream.wf(),
            cfg@ == (ServerView { server_names: cfg@.server_names, ..c0 }),
            more_names(t, q, line, names0) == more_names(
                t,
                stream.pos as int,
                line,
                cfg@.server_names,
            ),
            name_directive(t, start, c0) == (match more_names(t, q, line, names0) {
                Parsed::Failed(e) => Parsed::<ServerView>::Failed(e),
                Parsed::Done(server_names, r) => Parsed::Done(
                    ServerView { server_names, ..c0 },
                    r,
                ),
            }),
            start == old(stream).pos - 1,
            c0 == old(cfg)@,
        decreases t.len() - stream.pos,
    {
        match stream.same_line(line) {
            None => {
                return Ok(());
            },
            Some(w) => {
                let ghost before = cfg@.server_names;
                cfg.server_names.push(w.value.clone());
                proof {
                    assert(cfg@.server_names =~= before.push(w.value@));
                }
                stream.pos = stream.pos + 1;
            },
        }
    }
}

/// Reads one directive of a server block.
fn parse_server_directive(
    stream: &mut TokenStream<'_>,
    cfg: &mut ServerConfig,
    seen: &mut StringMap<usize>,
) -> (r: Result<(), ConfigError>)
    requires
        old(stream).wf(),
        old(stream).pos < old(stream).tokens@.len(),
    ensures
        final(stream).tokens == old(stream).tokens,
        final(stream).wf(),
        match r {
            Ok(_) => server_directive(
                old(stream).toks(),
                old(stream).pos as int,
                (old(cfg)@, old(seen)@),
            ) == Parsed::Done((final(cfg)@, final(seen)@), final(stream).pos as int),
            Err(e) => server_directive(
                old(stream).toks(),
                old(stream).pos as int,
                (old(cfg)@, old(seen)@),
            ) == Parsed::<Partial<ServerView>>::Failed(e@),
        },
{
    let ghost t = stream.toks();
    let ghost p = stream.pos as int;
    let ghost acc = (cfg@, seen@);
    let directive = &stream.tokens[stream.pos];
    assert(directive@ == t[p]);
    let name: &str = directive.value.as_str();
    let line: usize = directive.line;
    stream.pos = stream.pos + 1;
    if text::same(name, "host") {
        if let Err(e) = mark_once(seen, "host", line) {
            return Err(e);
        }
        let val = match stream.expect_word("host value") {
            Ok(w) => w,
            Err(e) => {
                return Err(e);
            },
        };
        cfg.host = val.value.clone();
        return Ok(());
    }
    if text::same(name, "port") || text::same(name, "listen") {
        return parse_ports(stream, cfg);
    }
    if text::same(name, "server_name") {
        return parse_names(stream, cfg);
    }
    if text::same(name, "client_body_limit") {
        let val = match stream.expect_word("client_body_limit value") {
            Ok(w) => w,
            Err(e) => {
                return Err(e);
            },
        };
        return match parse_size(val.value.as_str(), val.line) {
            Ok(n) => {
                cfg.client_body_limit = n;
                Ok(())
            },
            Err(e) => Err(e),
        };
    }
    if text::same(name, "error_page") {
        let code_tok = match stream.expect_word("error_page status code") {
            Ok(w) => w,
            Err(e) => {
                return Err(e);
            },
        };
        let path_tok = match stream.expect_word("error_page file path") {
            Ok(w) => w,
            Err(e) => {
                return Err(e);
            },
        };
        return match parse_status_code(code_tok.value.as_str(), code_tok.line) {
            Ok(code) => {
                let _ = cfg.error_pages.insert(code, path_tok.value.clone());
                proof {
                    assert(cfg@.error_pages =~= acc.0.error_pages.insert(code, path_tok.value@));
                }
                Ok(())
            },
            Err(e) => Err(e),
        };
    }
    if text::same(name, "route") {
        let path_tok = match stream.expect_word("route path") {
            Ok(w) => w,
            Err(e) => {
                return Err(e);
            },
        };
        return match parse_route_block(stream, path_tok.value.clone()) {
            Ok(route) => {
                cfg.routes.push(route);
                proof {
                    assert(cfg@.routes =~= acc.0.routes.push(route@));
                }
                Ok(())
            },
            Err(e) => Err(e),
        };
    }
    Err(ConfigError::UnknownDirective { name: directive.value.clone(), line })
}

/// Reads a server block; the word `server` has been taken.
fn parse_server_block(stream: &mut TokenStream<'_>) -> (r: Result<ServerConfig, ConfigError>)
    requires
        old(stream).wf(),
    ensures
        final(stream).tokens == old(stream).tokens,
        final(stream).wf(),
        match r {
            Ok(c) => server_block(old(stream).toks(), old(stream).pos as int) == Parsed::Done(
                c@,
                final(stream).pos as int,
            ),
            Err(e) => server_block(old(stream).toks(), old(stream).pos as int) == Parsed::<
                ServerView,
            >::Failed(e@),
        },
{
    let ghost t = stream.toks();
    if let Err(e) = stream.expect_open("server") {
        return Err(e);
    }
    let mut cfg = ServerConfig::default();
    let mut seen: StringMap<usize> = StringMap::new();
    loop
        invariant
            stream.tokens == old(stream).tokens,
            t == stream.toks(),
            stream.wf(),
            server_block(t, old(stream).pos as int) == server_body(
                t,
                stream.pos as int,
                (cfg@, seen@),
            ),
        decreases t.len() - stream.pos,
    {
        let token = match stream.peek() {
            None => {
                return Err(
                    ConfigError::MalformedBlock {
                        detail: text::owned("unexpected end of file inside server block"),
                        line: stream.current_line(),
                    },
                );
            },
            Some(w) => w,
        };
        if text::same(token.value.as_str(), "}") {
            stream.pos = stream.pos + 1;
            return Ok(cfg);
        }
        proof {
            lemma_server_directive_advances(t, stream.pos as int, (cfg@, seen@));
        }
        if let Err(e) = parse_server_directive(stream, &mut cfg, &mut seen) {
            return Err(e);
        }
    }
}

/// Reads a configuration text.
pub fn parse_source(source: &str) -> (r: Result<Vec<ServerConfig>, ConfigError>)
    ensures
        match r {
            Ok(v) => parsed_config(source@) == Ok::<Seq<ServerView>, ConfigErrorView>(
                types::server_views(v@),
            ),
            Err(e) => parsed_config(source@) == Err::<Seq<ServerView>, ConfigErrorView>(e@),
        },
{
    let tokens = tokenise(source);
    let ghost t = tokens_of(source@, 0);
    let mut stream = TokenStream { tokens: tokens.as_slice(), pos: 0 };
    let mut servers: Vec<ServerConfig> = Vec::new();
    proof {
        assert(types::server_views(servers@) =~= Seq::empty());
    }
    while stream.pos < stream.tokens.len()
        invariant
            t == stream.toks(),
            stream.wf(),
            parsed_config(source@) == servers_from(
                t,
                stream.pos as int,
                types::server_views(servers@),
            ),
        decreases t.len() - stream.pos,
    {
        let token = &stream.tokens[stream.pos];
        assert(token@ == t[stream.pos as int]);
        if !text::same(token.value.as_str(), "server") {
            return Err(
                ConfigError::UnknownDirective { name: token.value.clone(), line: token.line },
            );
        }
        proof {
            lemma_server_body_advances(t, stream.pos + 2, (ServerView::empty(), Map::empty()));
        }
        stream.pos = stream.pos + 1;
        match parse_server_block(&mut stream) {
            Ok(s) => {
                let ghost before = servers@;
                servers.push(s);
                proof {
                    assert(types::server_views(servers@) =~= types::server_views(before).push(s@));
                }
            },
            Err(e) => {
                return Err(e);
            },
        }
    }
    Ok(servers)
}

// ---------------------------------------------------------------------------
// Laws
// ---------------------------------------------------------------------------

/// A single brace, or a word without braces and white space.
pub open spec fn token_shape(v: Seq<char>) -> bool {
    ||| v.len() == 1 && is_brace(v[0])
    ||| v.len() > 0 && forall|k: int|
        0 <= k < v.len() ==> !is_space(#[trigger] v[k]) && !is_brace(v[k])
}

/// Every token is a single brace, or a word without braces and white space.
pub proof fn lemma_tokens(s: Seq<char>, newlines: nat)
    ensures
        forall|i: int|
            0 <= i < tokens_of(s, newlines).len() ==> token_shape(
                (#[trigger] tokens_of(s, newlines)[i]).value,
            ),
    decreases s.len(),
{
    if s.len() > 0 {
        let t = tokens_of(s, newlines);
        if is_space(s[0]) {
            let n = if s[0] == '\n' {
                newlines + 1
            } else {
                newlines
            };
            lemma_tokens(s.drop_first(), n);
            assert(t == tokens_of(s.drop_first(), n));
        } else {
            let n = if is_brace(s[0]) {
                1
            } else {
                lemma_word_len(s);
                word_len(s)
            };
            assert(is_brace(s[0]) ==> s.skip(1) =~= s.drop_first());
            lemma_tokens(s.skip(n), newlines);
            assert(t[0].value =~= s.take(n));
            assert(token_shape(t[0].value));
            assert forall|i: int| 0 <= i < t.len() implies token_shape(
                (#[trigger] t[i]).value,
            ) by {
                if i > 0 {
                    assert(t[i] == tokens_of(s.skip(n), newlines)[i - 1]);
                }
            }
        }
    }
}

/// Whether a text is the extension of a script: a word without dots in front of
/// it, in lowercase.
pub open spec fn is_extension(key: Seq<char>) -> bool {
    exists|w: Seq<char>| !(w.len() > 0 && w[0] == '.') && key == #[trigger] text::lower(w)
}

/// What reading makes sure of in a route: its redirect has one of the status
/// codes of redirects, and its scripts are known by extensions in lowercase,
/// without a dot in front.
pub open spec fn sound_route(r: RouteView) -> bool {
    &&& r.redirect matches Some(d) ==> is_redirect_code(d.code)
    &&& forall|key: Seq<char>| #[trigger]
        r.cgi_extensions.dom().contains(key) ==> is_extension(key)
}

proof fn lemma_strip_dots(s: Seq<char>)
    ensures
        is_extension(text::lower(strip_dots(s))),
    decreases s.len(),
{
    if s.len() > 0 && s[0] == '.' {
        lemma_strip_dots(s.drop_first());
    }
}

proof fn lemma_route_directive_sound(t: Seq<TokenView>, p: int, acc: Partial<RouteView>)
    requires
        0 <= p < t.len(),
        sound_route(acc.0),
    ensures
        route_directive(t, p, acc) matches Parsed::Done(next, _) ==> sound_route(next.0),
{
    if p + 1 < t.len() {
        lemma_strip_dots(t[p + 1].value);
    }
}

/// What reading makes sure of in a server: no port is zero, and its routes are
/// sound.
pub open spec fn sound_server(s: ServerView) -> bool {
    &&& forall|i: int| 0 <= i < s.ports.len() ==> #[trigger] s.ports[i] > 0
    &&& forall|i: int| 0 <= i < s.routes.len() ==> sound_route(#[trigger] s.routes[i])
}

proof fn lemma_route_body_sound(t: Seq<TokenView>, p: int, acc: Partial<RouteView>)
    requires
        sound_route(acc.0),
    ensures
        route_body(t, p, acc) matches Parsed::Done(r, _) ==> sound_route(r),
    decreases t.len() - p,
{
    if 0 <= p < t.len() && t[p].value != "}"@ {
        lemma_route_directive_advances(t, p, acc);
        lemma_route_directive_sound(t, p, acc);
        if let Parsed::Done(next, q) = route_directive(t, p, acc) {
            lemma_route_body_sound(t, q, next);
        }
    }
}

proof fn lemma_more_ports_sound(t: Seq<TokenView>, p: int, line: usize, ports: Seq<u16>)
    requires
        forall|i: int| 0 <= i < ports.len() ==> #[trigger] ports[i] > 0,
    ensures
        more_ports(t, p, line, ports) matches Parsed::Done(m, _) ==> forall|i: int|
            0 <= i < m.len() ==> #[trigger] m[i] > 0,
    decreases t.len() - p,
{
    if p < t.len() {
        if let Ok(port) = port_of(t[p].value, t[p].line) {
            lemma_more_ports_sound(t, p + 1, line, ports.push(port));
        }
    }
}

proof fn lemma_server_body_sound(t: Seq<TokenView>, p: int, acc: Partial<ServerView>)
    requires
        sound_server(acc.0),
    ensures
        server_body(t, p, acc) matches Parsed::Done(s, _) ==> sound_server(s),
    decreases t.len() - p,
{
    if 0 <= p < t.len() && t[p].value != "}"@ {
        lemma_server_directive_advances(t, p, acc);
        if p + 1 < t.len() {
            let w = t[p + 1];
            if let Ok(port) = port_of(w.value, t[p].line) {
                lemma_more_ports_sound(t, p + 2, w.line, acc.0.ports.push(port));
            }
            lemma_route_body_sound(t, p + 3, (RouteView::empty(w.value), Map::empty()));
        }
        if let Parsed::Done(next, q) = server_directive(t, p, acc) {
            lemma_server_body_sound(t, q, next);
        }
    }
}

proof fn lemma_servers_sound(t: Seq<TokenView>, p: int, servers: Seq<ServerView>)
    requires
        forall|i: int| 0 <= i < servers.len() ==> sound_server(#[trigger] servers[i]),
    ensures
        servers_from(t, p, servers) matches Ok(c) ==> forall|i: int|
            0 <= i < c.len() ==> sound_server(#[trigger] c[i]),
    decreases t.len() - p,
{
    if 0 <= p < t.len() && t[p].value == "server"@ {
        lemma_server_body_advances(t, p + 2, (ServerView::empty(), Map::empty()));
        lemma_server_body_sound(t, p + 2, (ServerView::empty(), Map::empty()));
        if let Parsed::Done(s, q) = server_block(t, p + 1) {
            lemma_servers_sound(t, q, servers.push(s));
        }
    }
}

/// A configuration that can be read has no port zero, no redirect but with 301,
/// 302, 307 or 308, and no extension of a script but in lowercase, without a dot
/// in front.
pub proof fn lemma_parsed_sound(source: Seq<char>)
    ensures
        parsed_config(source) matches Ok(c) ==> forall|i: int|
            0 <= i < c.len() ==> sound_server(#[trigger] c[i]),
{
    lemma_servers_sound(tokens_of(source, 0), 0, Seq::empty());
}

/// A size is a number of bytes, or with `k`, `m` or `g` behind it, in either
/// case, of kibi-, mebi- or gibibytes; as far as it can be counted.
pub proof fn lemma_size(n: nat, line: usize)
    ensures
        n <= usize::MAX ==> size_of(text::decimal(n), line) == Ok::<usize, ConfigErrorView>(
            n as usize,
        ),
        n * 1024 <= usize::MAX ==> {
            &&& size_of(text::decimal(n).push('k'), line) == Ok::<usize, ConfigErrorView>(
                (n * 1024) as usize,
            )
            &&& size_of(text::decimal(n).push('K'), line) == Ok::<usize, ConfigErrorView>(
                (n * 1024) as usize,
            )
        },
        n * 1_048_576 <= usize::MAX ==> {
            &&& size_of(text::decimal(n).push('m'), line) == Ok::<usize, ConfigErrorView>(
                (n * 1_048_576) as usize,
            )
            &&& size_of(text::decimal(n).push('M'), line) == Ok::<usize, ConfigErrorView>(
                (n * 1_048_576) as usize,
            )
        },
        n * 1_073_741_824 <= usize::MAX ==> {
            &&& size_of(text::decimal(n).push('g'), line) == Ok::<usize, ConfigErrorView>(
                (n * 1_073_741_824) as usize,
            )
            &&& size_of(text::decimal(n).push('G'), line) == Ok::<usize, ConfigErrorView>(
                (n * 1_073_741_824) as usize,
            )
        },
{
    let s = text::decimal(n);
    text::lemma_decimal_reads_back(n);
    assert(text::is_digit(s.last()));
    assert(n * 1 == n);
    assert(s.push('k').drop_last() =~= s);
    assert(s.push('K').drop_last() =~= s);
    assert(s.push('m').drop_last() =~= s);
    assert(s.push('M').drop_last() =~= s);
    assert(s.push('g').drop_last() =~= s);
    assert(s.push('G').drop_last() =~= s);
}

/// The words `on`, `true`, `yes` and `1` switch on, the words `off`, `false`, `no`
/// and `0` switch off, and no other word does either.
pub proof fn lemma_switch_words(s: Seq<char>, line: usize)
    ensures
        bool_of("on"@, line) == Ok::<bool, ConfigErrorView>(true),
        bool_of("true"@, line) == Ok::<bool, ConfigErrorView>(true),
        bool_of("yes"@, line) == Ok::<bool, ConfigErrorView>(true),
        bool_of("1"@, line) == Ok::<bool, ConfigErrorView>(true),
        bool_of("off"@, line) == Ok::<bool, ConfigErrorView>(false),
        bool_of("false"@, line) == Ok::<bool, ConfigErrorView>(false),
        bool_of("no"@, line) == Ok::<bool, ConfigErrorView>(false),
        bool_of("0"@, line) == Ok::<bool, ConfigErrorView>(false),
        bool_of(s, line) == Ok::<bool, ConfigErrorView>(true) ==> s == "on"@ || s == "true"@ || s
            == "yes"@ || s == "1"@,
        bool_of(s, line) == Ok::<bool, ConfigErrorView>(false) ==> s == "off"@ || s == "false"@
            || s == "no"@ || s == "0"@,
{
    reveal_strlit("on");
    reveal_strlit("true");
    reveal_strlit("yes");
    reveal_strlit("1");
    reveal_strlit("off");
    reveal_strlit("false");
    reveal_strlit("no");
    reveal_strlit("0");
    assert("on"@.len() == 2 && "on"@[0] == 'o');
    assert("true"@.len() == 4 && "true"@[0] == 't');
    assert("yes"@.len() == 3 && "yes"@[0] == 'y');
    assert("1"@.len() == 1 && "1"@[0] == '1');
    assert("off"@.len() == 3 && "off"@[0] == 'o');
    assert("false"@.len() == 5 && "false"@[0] == 'f');
    assert("no"@.len() == 2 && "no"@[0] == 'n');
    assert("0"@.len() == 1 && "0"@[0] == '0');
}

/// A port is a number from 1 to 65535; another number is named in the error. A
/// status code is any number that can be counted, and that of a redirect one of
/// 301, 302, 307 and 308.
pub proof fn lemma_numbers(n: nat, line: usize)
    ensures
        1 <= n <= 65535 ==> port_of(text::decimal(n), line) == Ok::<u16, ConfigErrorView>(n as u16),
        n == 0 || 65535 < n <= u32::MAX ==> port_of(text::decimal(n), line) == Err::<
            u16,
            ConfigErrorView,
        >(ConfigErrorView::InvalidPort(n as u32)),
        n <= 65535 ==> status_code_of(text::decimal(n), line) == Ok::<u16, ConfigErrorView>(
            n as u16,
        ),
        n > 65535 ==> status_code_of(text::decimal(n), line) is Err,
        n == 301 || n == 302 || n == 307 || n == 308 ==> redirect_code_of(text::decimal(n), line)
            == Ok::<u16, ConfigErrorView>(n as u16),
        !(n == 301 || n == 302 || n == 307 || n == 308) ==> redirect_code_of(
            text::decimal(n),
            line,
        ) is Err,
{
    text::lemma_bounded(n, u32::MAX as nat, Seq::empty());
    text::lemma_bounded(n, u16::MAX as nat, Seq::empty());
}

// ---------------------------------------------------------------------------
// Configurations written out
// ---------------------------------------------------------------------------

/// A directive of a route, as it is written.
#[verifier::ext_equal]
pub enum RouteItem {
    Methods(Seq<Method>),
    Root(Seq<char>),
    Index(Seq<char>),
    Listing(bool),
    Redirect(u16, Seq<char>),
    BodyLimit(usize),
    Cgi(Seq<char>, Seq<char>),
}

/// The words of a directive.
pub open spec fn route_words(d: RouteItem) -> Seq<Seq<char>> {
    match d {
        RouteItem::Methods(m) => seq!["methods"@] + m.map_values(|x: Method| types::method_name(x)),
        RouteItem::Root(w) => seq!["root"@, w],
        RouteItem::Index(w) => seq!["index"@, w],
        RouteItem::Listing(b) => seq![
            "directory_listing"@,
            if b {
                "on"@
            } else {
                "off"@
            },
        ],
        RouteItem::Redirect(code, w) => seq!["redirect"@, text::decimal(code as nat), w],
        RouteItem::BodyLimit(n) => seq!["client_body_limit"@, text::decimal(n as nat)],
        RouteItem::Cgi(ext, program) => seq!["cgi"@, seq!['.'] + ext, program],
    }
}

/// What a directive asks for.
pub open spec fn route_with(c: RouteView, d: RouteItem) -> RouteView {
    match d {
        RouteItem::Methods(m) => RouteView { methods: c.methods + m, ..c },
        RouteItem::Root(w) => RouteView { root: Some(w), ..c },
        RouteItem::Index(w) => RouteView { index_file: Some(w), ..c },
        RouteItem::Listing(b) => RouteView { directory_listing: b, ..c },
        RouteItem::Redirect(code, target) => RouteView {
            redirect: Some(RedirectView { code, target }),
            ..c
        },
        RouteItem::BodyLimit(n) => RouteView { client_body_limit: Some(n), ..c },
        RouteItem::Cgi(ext, program) => RouteView {
            cgi_extensions: c.cgi_extensions.insert(text::lower(ext), program),
            ..c
        },
    }
}

/// Whether a directive can be written: methods are named, a redirect has a status
/// code of redirects, and an extension begins with no dot.
pub open spec fn writable_in_route(d: RouteItem) -> bool {
    match d {
        RouteItem::Methods(m) => m.len() > 0,
        RouteItem::Redirect(code, _) => code == 301 || code == 302 || code == 307 || code == 308,
        RouteItem::Cgi(ext, _) => !(ext.len() > 0 && ext[0] == '.'),
        _ => true,
    }
}

/// Words on one line.
pub open spec fn on_line(words: Seq<Seq<char>>, line: usize) -> Seq<TokenView> {
    words.map_values(|w: Seq<char>| TokenView { value: w, line })
}

/// Under which name a directive may be given once; none where it may be repeated.
pub open spec fn route_key(d: RouteItem) -> Option<Seq<char>> {
    match d {
        RouteItem::Root(_) => Some("root"@),
        RouteItem::Index(_) => Some("index"@),
        RouteItem::Listing(_) => Some("directory_listing"@),
        RouteItem::Redirect(_, _) => Some("redirect"@),
        RouteItem::BodyLimit(_) => Some("client_body_limit"@),
        _ => None,
    }
}

/// Whether the tokens from a position on are words on a line, and what follows
/// them stands on another, or there is nothing.
pub open spec fn stands_at(t: Seq<TokenView>, p: int, words: Seq<Seq<char>>, line: usize) -> bool {
    &&& 0 <= p
    &&& p + words.len() <= t.len()
    &&& t.subrange(p, p + words.len()) == on_line(words, line)
    &&& p + words.len() < t.len() ==> t[p + words.len()].line != line
}

proof fn lemma_keywords()
    ensures
        "methods"@ != "root"@ && "methods"@ != "index"@ && "methods"@ != "}"@,
        "root"@ != "methods"@ && "root"@ != "method"@ && "root"@ != "}"@,
        "index"@ != "methods"@ && "index"@ != "method"@ && "index"@ != "root"@ && "index"@ != "}"@,
        ({
            let d = "directory_listing"@;
            d != "methods"@ && d != "method"@ && d != "root"@ && d != "index"@ && d
                != "default_file"@ && d != "}"@
        }),
        ({
            let d = "redirect"@;
            d != "methods"@ && d != "method"@ && d != "root"@ && d != "index"@ && d
                != "default_file"@ && d != "directory_listing"@ && d != "}"@
        }),
        ({
            let d = "client_body_limit"@;
            d != "methods"@ && d != "method"@ && d != "root"@ && d != "index"@ && d
                != "default_file"@ && d != "directory_listing"@ && d != "redirect"@ && d != "}"@
        }),
        ({
            let d = "cgi"@;
            d != "methods"@ && d != "method"@ && d != "root"@ && d != "index"@ && d
                != "default_file"@ && d != "directory_listing"@ && d != "redirect"@ && d
                != "client_body_limit"@ && d != "}"@
        }),
{
    reveal_strlit("methods");
    reveal_strlit("method");
    reveal_strlit("root");
    reveal_strlit("index");
    reveal_strlit("default_file");
    reveal_strlit("directory_listing");
    reveal_strlit("redirect");
    reveal_strlit("client_body_limit");
    reveal_strlit("cgi");
    reveal_strlit("}");
    assert("methods"@.len() == 7);
    assert("method"@.len() == 6);
    assert("root"@.len() == 4);
    assert("index"@.len() == 5);
    assert("default_file"@.len() == 12);
    assert("directory_listing"@.len() == 17);
    assert("redirect"@.len() == 8);
    assert("client_body_limit"@.len() == 17);
    assert("cgi"@.len() == 3);
    assert("}"@.len() == 1);
    assert("client_body_limit"@[0] != "directory_listing"@[0]);
}

proof fn lemma_token_at(t: Seq<TokenView>, p: int, words: Seq<Seq<char>>, line: usize, k: int)
    requires
        stands_at(t, p, words, line),
        0 <= k < words.len(),
    ensures
        t[p + k] == (TokenView { value: words[k], line }),
{
    assert(t.subrange(p, p + words.len())[k] == t[p + k]);
    assert(on_line(words, line)[k] == (TokenView { value: words[k], line }));
}

proof fn lemma_method_word(m: Method)
    ensures
        !brace_token(TokenView { value: types::method_name(m), line: 0 }),
        !is_route_keyword(types::method_name(m)),
{
    reveal_strlit("GET");
    reveal_strlit("POST");
    reveal_strlit("DELETE");
    reveal_strlit("HEAD");
    reveal_strlit("PUT");
    reveal_strlit("OPTIONS");
    reveal_strlit("{");
    reveal_strlit("}");
    reveal_strlit("methods");
    reveal_strlit("method");
    reveal_strlit("root");
    reveal_strlit("index");
    reveal_strlit("default_file");
    reveal_strlit("directory_listing");
    reveal_strlit("redirect");
    reveal_strlit("client_body_limit");
    reveal_strlit("cgi");
    assert("OPTIONS"@[0] != "methods"@[0]);
    assert("DELETE"@[0] != "method"@[0]);
    assert("POST"@[0] != "root"@[0]);
    assert("HEAD"@[0] != "root"@[0]);
    assert("GET"@[0] != "cgi"@[0]);
    assert("PUT"@[0] != "cgi"@[0]);
}

proof fn lemma_more_methods_read(
    t: Seq<TokenView>,
    p: int,
    line: usize,
    before: Seq<Method>,
    m: Seq<Method>,
)
    requires
        0 <= p,
        p + m.len() <= t.len(),
        forall|k: int|
            0 <= k < m.len() ==> #[trigger] t[p + k] == (TokenView {
                value: types::method_name(m[k]),
                line,
            }),
        p + m.len() < t.len() ==> t[p + m.len()].line != line,
    ensures
        more_methods(t, p, line, before) == Parsed::Done(before + m, p + m.len()),
    decreases m.len(),
{
    if m.len() == 0 {
        assert(before + m =~= before);
    } else {
        lemma_method_word(m[0]);
        types::lemma_method_round_trip(m[0], types::method_name(m[0]));
        assert(t[p + 0] == (TokenView { value: types::method_name(m[0]), line }));
        let tail = m.drop_first();
        assert forall|k: int| 0 <= k < tail.len() implies #[trigger] t[p + 1 + k] == (TokenView {
            value: types::method_name(tail[k]),
            line,
        }) by {
            assert(t[p + (k + 1)] == (TokenView { value: types::method_name(m[k + 1]), line }));
        }
        lemma_more_methods_read(t, p + 1, line, before.push(m[0]), tail);
        assert(before.push(m[0]) + tail =~= before + m);
    }
}

/// Whether a directive is read for what it says: it changes what it is for and
/// nothing else, and takes its own words. Given twice, where it may be given once,
/// it is refused.
pub open spec fn reads_item(
    t: Seq<TokenView>,
    p: int,
    acc: Partial<RouteView>,
    d: RouteItem,
    line: usize,
) -> bool {
    match route_key(d) {
        None => route_directive(t, p, acc) == Parsed::Done(
            (route_with(acc.0, d), acc.1),
            p + route_words(d).len(),
        ),
        Some(key) => if acc.1.dom().contains(key) {
            route_directive(t, p, acc) == Parsed::<Partial<RouteView>>::Failed(
                ConfigErrorView::DuplicateDirective {
                    directive: key,
                    first_line: acc.1[key],
                    line,
                },
            )
        } else {
            route_directive(t, p, acc) == Parsed::Done(
                (route_with(acc.0, d), acc.1.insert(key, line)),
                p + route_words(d).len(),
            )
        },
    }
}

proof fn lemma_methods_item(
    t: Seq<TokenView>,
    p: int,
    acc: Partial<RouteView>,
    d: RouteItem,
    line: usize,
)
    requires
        d is Methods,
        stands_at(t, p, route_words(d), line),
        writable_in_route(d),
    ensures
        reads_item(t, p, acc, d, line),
{
    lemma_keywords();
    let words = route_words(d);
    lemma_token_at(t, p, words, line, 0);
    if let RouteItem::Methods(m) = d {
        let named = m.map_values(|x: Method| types::method_name(x));
        assert(words[0] == "methods"@);
        assert forall|k: int| 0 <= k < m.len() implies #[trigger] t[p + 1 + k] == (TokenView {
            value: types::method_name(m[k]),
            line,
        }) by {
            lemma_token_at(t, p, words, line, k + 1);
            assert(words[k + 1] == named[k]);
        }
        types::lemma_method_round_trip(m[0], types::method_name(m[0]));
        assert(t[p + 1 + 0] == (TokenView { value: types::method_name(m[0]), line }));
        let tail = m.drop_first();
        assert forall|k: int| 0 <= k < tail.len() implies #[trigger] t[p + 2 + k] == (
        TokenView { value: types::method_name(tail[k]), line }) by {
            assert(t[p + 1 + (k + 1)] == (TokenView {
                value: types::method_name(m[k + 1]),
                line,
            }));
        }
        lemma_more_methods_read(t, p + 2, line, acc.0.methods.push(m[0]), tail);
        assert(acc.0.methods.push(m[0]) + tail =~= acc.0.methods + m);
        assert(t[p + 1] == (TokenView { value: types::method_name(m[0]), line }));
    }
}

proof fn lemma_root_item(
    t: Seq<TokenView>,
    p: int,
    acc: Partial<RouteView>,
    d: RouteItem,
    line: usize,
)
    requires
        d is Root,
        stands_at(t, p, route_words(d), line),
        writable_in_route(d),
    ensures
        reads_item(t, p, acc, d, line),
{
    lemma_keywords();
    let words = route_words(d);
    lemma_token_at(t, p, words, line, 0);
    if let RouteItem::Root(_) = d {
        lemma_token_at(t, p, words, line, 1);
    }
}

proof fn lemma_index_item(
    t: Seq<TokenView>,
    p: int,
    acc: Partial<RouteView>,
    d: RouteItem,
    line: usize,
)
    requires
        d is Index,
        stands_at(t, p, route_words(d), line),
        writable_in_route(d),
    ensures
        reads_item(t, p, acc, d, line),
{
    lemma_keywords();
    let words = route_words(d);
    lemma_token_at(t, p, words, line, 0);
    if let RouteItem::Index(_) = d {
        lemma_token_at(t, p, words, line, 1);
    }
}

proof fn lemma_listing_item(
    t: Seq<TokenView>,
    p: int,
    acc: Partial<RouteView>,
    d: RouteItem,
    line: usize,
)
    requires
        d is Listing,
        stands_at(t, p, route_words(d), line),
        writable_in_route(d),
    ensures
        reads_item(t, p, acc, d, line),
{
    lemma_keywords();
    let words = route_words(d);
    lemma_token_at(t, p, words, line, 0);
    if let RouteItem::Listing(_) = d {
        lemma_token_at(t, p, words, line, 1);
        lemma_switch_words("on"@, line);
    }
}

proof fn lemma_redirect_item(
    t: Seq<TokenView>,
    p: int,
    acc: Partial<RouteView>,
    d: RouteItem,
    line: usize,
)
    requires
        d is Redirect,
        stands_at(t, p, route_words(d), line),
        writable_in_route(d),
    ensures
        reads_item(t, p, acc, d, line),
{
    lemma_keywords();
    let words = route_words(d);
    lemma_token_at(t, p, words, line, 0);
    if let RouteItem::Redirect(code, _) = d {
        lemma_token_at(t, p, words, line, 1);
        lemma_token_at(t, p, words, line, 2);
        lemma_numbers(code as nat, line);
    }
}

proof fn lemma_limit_item(
    t: Seq<TokenView>,
    p: int,
    acc: Partial<RouteView>,
    d: RouteItem,
    line: usize,
)
    requires
        d is BodyLimit,
        stands_at(t, p, route_words(d), line),
        writable_in_route(d),
    ensures
        reads_item(t, p, acc, d, line),
{
    lemma_keywords();
    let words = route_words(d);
    lemma_token_at(t, p, words, line, 0);
    if let RouteItem::BodyLimit(n) = d {
        lemma_token_at(t, p, words, line, 1);
        lemma_size(n as nat, line);
    }
}

proof fn lemma_cgi_item(
    t: Seq<TokenView>,
    p: int,
    acc: Partial<RouteView>,
    d: RouteItem,
    line: usize,
)
    requires
        d is Cgi,
        stands_at(t, p, route_words(d), line),
        writable_in_route(d),
    ensures
        reads_item(t, p, acc, d, line),
{
    lemma_keywords();
    let words = route_words(d);
    lemma_token_at(t, p, words, line, 0);
    if let RouteItem::Cgi(ext, _) = d {
        lemma_token_at(t, p, words, line, 1);
        lemma_token_at(t, p, words, line, 2);
        assert((seq!['.'] + ext).drop_first() =~= ext);
        assert(strip_dots(ext) == ext);
        assert(strip_dots(seq!['.'] + ext) == ext);
    }
}

/// A directive of a route does what it says and nothing else: it is read, word
/// for word, where it stands on a line of its own, and changes only what it is
/// for. Given twice, where it may be given once, it is refused.
pub proof fn lemma_route_item(
    t: Seq<TokenView>,
    p: int,
    acc: Partial<RouteView>,
    d: RouteItem,
    line: usize,
)
    requires
        stands_at(t, p, route_words(d), line),
        writable_in_route(d),
    ensures
        reads_item(t, p, acc, d, line),
{
    match d {
        RouteItem::Methods(_) => lemma_methods_item(t, p, acc, d, line),
        RouteItem::Root(_) => lemma_root_item(t, p, acc, d, line),
        RouteItem::Index(_) => lemma_index_item(t, p, acc, d, line),
        RouteItem::Listing(_) => lemma_listing_item(t, p, acc, d, line),
        RouteItem::Redirect(_, _) => lemma_redirect_item(t, p, acc, d, line),
        RouteItem::BodyLimit(_) => lemma_limit_item(t, p, acc, d, line),
        RouteItem::Cgi(_, _) => lemma_cgi_item(t, p, acc, d, line),
    }
}

proof fn lemma_item_begins(t: Seq<TokenView>, p: int, d: RouteItem, line: usize)
    requires
        stands_at(t, p, route_words(d), line),
    ensures
        route_words(d).len() > 0,
        p < t.len(),
        t[p].value != "}"@,
{
    lemma_keywords();
    lemma_token_at(t, p, route_words(d), line, 0);
}

/// The tokens of directives, each on a line of its own.
pub open spec fn route_lines(items: Seq<RouteItem>, line: usize) -> Seq<TokenView>
    decreases items.len(),
{
    if items.len() == 0 {
        Seq::empty()
    } else {
        on_line(route_words(items[0]), line) + route_lines(
            items.drop_first(),
            (line + 1) as usize,
        )
    }
}

/// What directives ask for, one after the other.
pub open spec fn route_of(c: RouteView, items: Seq<RouteItem>) -> RouteView
    decreases items.len(),
{
    if items.len() == 0 {
        c
    } else {
        route_of(route_with(c, items[0]), items.drop_first())
    }
}

/// Whether directives can be written in one block: each can be written, and none
/// that may be given once is given twice.
pub open spec fn writable_block(items: Seq<RouteItem>) -> bool {
    &&& forall|i: int| 0 <= i < items.len() ==> writable_in_route(#[trigger] items[i])
    &&& forall|i: int, j: int|
        0 <= i < j < items.len() && route_key(#[trigger] items[i]) is Some ==> route_key(items[i])
            != route_key(#[trigger] items[j])
}

proof fn lemma_first_stands(
    t: Seq<TokenView>,
    p: int,
    words: Seq<Seq<char>>,
    line: usize,
    rest: Seq<TokenView>,
)
    requires
        0 <= p <= t.len(),
        t.skip(p) == on_line(words, line) + rest,
        rest.len() > 0 ==> rest[0].line != line,
    ensures
        stands_at(t, p, words, line),
        t.skip(p + words.len()) == rest,
{
    let s = t.skip(p);
    let n = words.len() as int;
    assert(s.len() == on_line(words, line).len() + rest.len());
    assert(on_line(words, line).len() == n);
    assert(t.subrange(p, p + n) =~= s.take(n));
    assert(s.take(n) =~= on_line(words, line));
    assert(t.skip(p + n) =~= s.skip(n));
    assert(s.skip(n) =~= rest);
    if p + n < t.len() {
        assert(t[p + n] == t.skip(p + n)[0]);
    }
}

proof fn lemma_lines_begin(items: Seq<RouteItem>, line: usize)
    requires
        items.len() > 0,
        forall|i: int| 0 <= i < items.len() ==> writable_in_route(#[trigger] items[i]),
    ensures
        route_lines(items, line).len() > 0,
        route_lines(items, line)[0].line == line,
{
    let first = on_line(route_words(items[0]), line);
    assert(route_words(items[0]).len() > 0);
    assert(first.len() > 0);
    assert(first[0].line == line);
}

/// A block of directives, each on a line of its own, is read for what they say,
/// one after the other, up to its closing brace.
#[verifier::rlimit(50)]
pub proof fn lemma_route_block_reads(
    t: Seq<TokenView>,
    p: int,
    acc: Partial<RouteView>,
    items: Seq<RouteItem>,
    line: usize,
    rest: Seq<TokenView>,
)
    requires
        0 <= p <= t.len(),
        t.skip(p) == route_lines(items, line) + rest,
        rest.len() > 0,
        rest[0].value == "}"@,
        rest[0].line == line + items.len(),
        line + items.len() <= usize::MAX,
        writable_block(items),
        forall|i: int|
            0 <= i < items.len() && route_key(#[trigger] items[i]) is Some
                ==> !acc.1.dom().contains(route_key(items[i])->0),
    ensures
        route_body(t, p, acc) == Parsed::Done(
            route_of(acc.0, items),
            p + route_lines(items, line).len() + 1,
        ),
    decreases items.len(),
{
    if items.len() == 0 {
        assert(t.skip(p) =~= rest);
        assert(t[p] == t.skip(p)[0]);
    } else {
        let d = items[0];
        let tail = items.drop_first();
        let words = route_words(d);
        let next = (line + 1) as usize;
        let after = route_lines(tail, next) + rest;
        assert forall|i: int| 0 <= i < tail.len() implies writable_in_route(#[trigger] tail[i]) by {
            assert(tail[i] == items[i + 1]);
        }
        assert(t.skip(p) =~= on_line(words, line) + after);
        if tail.len() > 0 {
            lemma_lines_begin(tail, next);
            assert(after[0] == route_lines(tail, next)[0]);
        } else {
            assert(after =~= rest);
        }
        lemma_first_stands(t, p, words, line, after);
        lemma_route_item(t, p, acc, d, line);
        lemma_item_begins(t, p, d, line);
        lemma_route_directive_advances(t, p, acc);
        let seen = match route_key(d) {
            None => acc.1,
            Some(key) => acc.1.insert(key, line),
        };
        let q = p + words.len();
        assert(route_key(items[0]) is Some ==> !acc.1.dom().contains(route_key(items[0])->0));
        assert(route_directive(t, p, acc) == Parsed::Done((route_with(acc.0, d), seen), q));
        assert forall|i: int, j: int|
            0 <= i < j < tail.len() && route_key(#[trigger] tail[i]) is Some implies route_key(
            tail[i],
        ) != route_key(#[trigger] tail[j]) by {
            assert(tail[i] == items[i + 1] && tail[j] == items[j + 1]);
        }
        assert forall|i: int|
            0 <= i < tail.len() && route_key(#[trigger] tail[i]) is Some implies !seen.dom().contains(
            route_key(tail[i])->0,
        ) by {
            assert(tail[i] == items[i + 1]);
            assert(route_key(items[0]) is Some ==> route_key(items[0]) != route_key(
                items[i + 1],
            ));
        }
        lemma_route_block_reads(t, q, (route_with(acc.0, d), seen), tail, next, rest);
        assert(route_lines(items, line).len() == words.len() + route_lines(tail, next).len());
    }
}

/// A directive of a server, as it is written.
#[verifier::ext_equal]
pub enum ServerItem {
    Host(Seq<char>),
    Ports(Seq<u16>),
    Names(Seq<Seq<char>>),
    BodyLimit(usize),
    ErrorPage(u16, Seq<char>),
    Route(Seq<char>, Seq<RouteItem>),
}

/// The words of a directive; of a route, those up to its opening brace.
pub open spec fn server_words(d: ServerItem) -> Seq<Seq<char>> {
    match d {
        ServerItem::Host(w) => seq!["host"@, w],
        ServerItem::Ports(v) => seq!["port"@] + v.map_values(|n: u16| text::decimal(n as nat)),
        ServerItem::Names(v) => seq!["server_name"@] + v,
        ServerItem::BodyLimit(n) => seq!["client_body_limit"@, text::decimal(n as nat)],
        ServerItem::ErrorPage(code, w) => seq!["error_page"@, text::decimal(code as nat), w],
        ServerItem::Route(path, _) => seq!["route"@, path, "{"@],
    }
}

/// What a directive asks for.
pub open spec fn server_with(c: ServerView, d: ServerItem) -> ServerView {
    match d {
        ServerItem::Host(host) => ServerView { host, ..c },
        ServerItem::Ports(v) => ServerView { ports: c.ports + v, ..c },
        ServerItem::Names(v) => ServerView { server_names: c.server_names + v, ..c },
        ServerItem::BodyLimit(client_body_limit) => ServerView { client_body_limit, ..c },
        ServerItem::ErrorPage(code, w) => ServerView {
            error_pages: c.error_pages.insert(code, w),
            ..c
        },
        ServerItem::Route(path, items) => ServerView {
            routes: c.routes.push(route_of(RouteView::empty(path), items)),
            ..c
        },
    }
}

/// Whether a directive can be written.
pub open spec fn writable_in_server(d: ServerItem) -> bool {
    match d {
        ServerItem::Ports(v) => v.len() > 0 && forall|i: int|
            0 <= i < v.len() ==> #[trigger] v[i] > 0,
        ServerItem::Names(v) => v.len() > 0 && forall|i: int|
            0 <= i < v.len() ==> #[trigger] v[i] != "{"@ && v[i] != "}"@,
        ServerItem::Route(_, items) => writable_block(items),
        _ => true,
    }
}

proof fn lemma_server_keywords()
    ensures
        "host"@ != "}"@ && "port"@ != "}"@ && "port"@ != "host"@,
        ({
            let d = "server_name"@;
            d != "host"@ && d != "port"@ && d != "listen"@ && d != "}"@
        }),
        ({
            let d = "client_body_limit"@;
            d != "host"@ && d != "port"@ && d != "listen"@ && d != "server_name"@ && d != "}"@
        }),
        ({
            let d = "error_page"@;
            d != "host"@ && d != "port"@ && d != "listen"@ && d != "server_name"@ && d
                != "client_body_limit"@ && d != "}"@
        }),
        ({
            let d = "route"@;
            d != "host"@ && d != "port"@ && d != "listen"@ && d != "server_name"@ && d
                != "client_body_limit"@ && d != "error_page"@ && d != "}"@
        }),
        "server"@ != "}"@,
{
    reveal_strlit("host");
    assert("host"@.len() == 4);
    reveal_strlit("port");
    assert("port"@.len() == 4);
    reveal_strlit("listen");
    assert("listen"@.len() == 6);
    reveal_strlit("server_name");
    assert("server_name"@.len() == 11);
    reveal_strlit("client_body_limit");
    assert("client_body_limit"@.len() == 17);
    reveal_strlit("error_page");
    assert("error_page"@.len() == 10);
    reveal_strlit("route");
    assert("route"@.len() == 5);
    reveal_strlit("}");
    assert("}"@.len() == 1);
    reveal_strlit("server");
    assert("server"@.len() == 6);
    assert("host"@[0] != "port"@[0]);
}

proof fn lemma_more_ports_read(
    t: Seq<TokenView>,
    p: int,
    line: usize,
    before: Seq<u16>,
    v: Seq<u16>,
)
    requires
        0 <= p,
        p + v.len() <= t.len(),
        forall|k: int|
            0 <= k < v.len() ==> t[p + k] == (TokenView {
                value: text::decimal(#[trigger] v[k] as nat),
                line,
            }) && v[k] > 0,
        p + v.len() < t.len() ==> t[p + v.len()].line != line,
    ensures
        more_ports(t, p, line, before) == Parsed::Done(before + v, p + v.len()),
    decreases v.len(),
{
    if v.len() == 0 {
        assert(before + v =~= before);
    } else {
        let n = v[0] as nat;
        assert(t[p + 0] == (TokenView { value: text::decimal(v[0] as nat), line }) && v[0] > 0);
        lemma_numbers(n, line);
        text::lemma_bounded(n, u32::MAX as nat, Seq::empty());
        text::lemma_decimal_shape(n, n);
        text::lemma_decimal_reads_back(n);
        assert('0' <= text::decimal(n)[0] <= '9');
        reveal_strlit("{");
        reveal_strlit("}");
        let tail = v.drop_first();
        assert forall|k: int| 0 <= k < tail.len() implies t[p + 1 + k] == (TokenView {
            value: text::decimal(#[trigger] tail[k] as nat),
            line,
        }) && tail[k] > 0 by {
            assert(tail[k] == v[k + 1]);
            assert(t[p + (k + 1)] == (TokenView { value: text::decimal(v[k + 1] as nat), line })
                && v[k + 1] > 0);
        }
        lemma_more_ports_read(t, p + 1, line, before.push(v[0]), tail);
        assert(before.push(v[0]) + tail =~= before + v);
    }
}

proof fn lemma_more_names_read(
    t: Seq<TokenView>,
    p: int,
    line: usize,
    before: Seq<Seq<char>>,
    v: Seq<Seq<char>>,
)
    requires
        0 <= p,
        p + v.len() <= t.len(),
        forall|k: int|
            0 <= k < v.len() ==> t[p + k] == (TokenView { value: #[trigger] v[k], line }) && v[k]
                != "{"@ && v[k] != "}"@,
        p + v.len() < t.len() ==> t[p + v.len()].line != line,
    ensures
        more_names(t, p, line, before) == Parsed::Done(before + v, p + v.len()),
    decreases v.len(),
{
    if v.len() == 0 {
        assert(before + v =~= before);
    } else {
        assert(t[p + 0] == (TokenView { value: v[0], line }) && v[0] != "{"@ && v[0] != "}"@);
        let tail = v.drop_first();
        assert forall|k: int| 0 <= k < tail.len() implies t[p + 1 + k] == (TokenView {
            value: #[trigger] tail[k],
            line,
        }) && tail[k] != "{"@ && tail[k] != "}"@ by {
            assert(tail[k] == v[k + 1]);
            assert(t[p + (k + 1)] == (TokenView { value: v[k + 1], line }) && v[k + 1] != "{"@
                && v[k + 1] != "}"@);
        }
        lemma_more_names_read(t, p + 1, line, before.push(v[0]), tail);
        assert(before.push(v[0]) + tail =~= before + v);
    }
}

/// Whether a directive of a server, which is no route, is read for what it says.
pub open spec fn reads_server_item(
    t: Seq<TokenView>,
    p: int,
    acc: Partial<ServerView>,
    d: ServerItem,
    line: usize,
) -> bool {
    let q = p + server_words(d).len();
    if d is Host {
        if acc.1.dom().contains("host"@) {
            server_directive(t, p, acc) == Parsed::<Partial<ServerView>>::Failed(
                ConfigErrorView::DuplicateDirective {
                    directive: "host"@,
                    first_line: acc.1["host"@],
                    line,
                },
            )
        } else {
            server_directive(t, p, acc) == Parsed::Done(
                (server_with(acc.0, d), acc.1.insert("host"@, line)),
                q,
            )
        }
    } else {
        server_directive(t, p, acc) == Parsed::Done((server_with(acc.0, d), acc.1), q)
    }
}

proof fn lemma_host_item(
    t: Seq<TokenView>,
    p: int,
    acc: Partial<ServerView>,
    d: ServerItem,
    line: usize,
)
    requires
        d is Host,
        stands_at(t, p, server_words(d), line),
        writable_in_server(d),
    ensures
        reads_server_item(t, p, acc, d, line),
{
    lemma_server_keywords();
    let words = server_words(d);
    lemma_token_at(t, p, words, line, 0);
    if let ServerItem::Host(_) = d {
        lemma_token_at(t, p, words, line, 1);
    }
}

proof fn lemma_ports_item(
    t: Seq<TokenView>,
    p: int,
    acc: Partial<ServerView>,
    d: ServerItem,
    line: usize,
)
    requires
        d is Ports,
        stands_at(t, p, server_words(d), line),
        writable_in_server(d),
    ensures
        reads_server_item(t, p, acc, d, line),
{
    lemma_server_keywords();
    let words = server_words(d);
    lemma_token_at(t, p, words, line, 0);
    if let ServerItem::Ports(v) = d {
        let named = v.map_values(|n: u16| text::decimal(n as nat));
        assert(words[0] == "port"@);
        assert forall|k: int| 0 <= k < v.len() implies #[trigger] t[p + 1 + k] == (TokenView {
            value: text::decimal(v[k] as nat),
            line,
        }) by {
            lemma_token_at(t, p, words, line, k + 1);
            assert(words[k + 1] == named[k]);
        }
        lemma_numbers(v[0] as nat, line);
        assert(t[p + 1 + 0] == (TokenView { value: text::decimal(v[0] as nat), line }));
        let tail = v.drop_first();
        assert forall|k: int| 0 <= k < tail.len() implies t[p + 2 + k] == (TokenView {
            value: text::decimal(#[trigger] tail[k] as nat),
            line,
        }) && tail[k] > 0 by {
            assert(t[p + 1 + (k + 1)] == (TokenView {
                value: text::decimal(v[k + 1] as nat),
                line,
            }));
            assert(v[k + 1] > 0);
        }
        lemma_more_ports_read(t, p + 2, line, acc.0.ports.push(v[0]), tail);
        assert(acc.0.ports.push(v[0]) + tail =~= acc.0.ports + v);
        assert(t[p + 1] == (TokenView { value: text::decimal(v[0] as nat), line }));
    }
}

proof fn lemma_names_item(
    t: Seq<TokenView>,
    p: int,
    acc: Partial<ServerView>,
    d: ServerItem,
    line: usize,
)
    requires
        d is Names,
        stands_at(t, p, server_words(d), line),
        writable_in_server(d),
    ensures
        reads_server_item(t, p, acc, d, line),
{
    lemma_server_keywords();
    let words = server_words(d);
    lemma_token_at(t, p, words, line, 0);
    if let ServerItem::Names(v) = d {
        assert(words[0] == "server_name"@);
        assert forall|k: int| 0 <= k < v.len() implies #[trigger] t[p + 1 + k] == (TokenView {
            value: v[k],
            line,
        }) by {
            lemma_token_at(t, p, words, line, k + 1);
            assert(words[k + 1] == v[k]);
        }
        assert(t[p + 1 + 0] == (TokenView { value: v[0], line }));
        let tail = v.drop_first();
        assert forall|k: int| 0 <= k < tail.len() implies t[p + 2 + k] == (TokenView {
            value: #[trigger] tail[k],
            line,
        }) && tail[k] != "{"@ && tail[k] != "}"@ by {
            assert(t[p + 1 + (k + 1)] == (TokenView { value: v[k + 1], line }));
            assert(v[k + 1] != "{"@ && v[k + 1] != "}"@);
        }
        lemma_more_names_read(t, p + 2, line, acc.0.server_names.push(v[0]), tail);
        assert(acc.0.server_names.push(v[0]) + tail =~= acc.0.server_names + v);
        assert(t[p + 1] == (TokenView { value: v[0], line }));
    }
}

proof fn lemma_server_limit_item(
    t: Seq<TokenView>,
    p: int,
    acc: Partial<ServerView>,
    d: ServerItem,
    line: usize,
)
    requires
        d is BodyLimit,
        stands_at(t, p, server_words(d), line),
        writable_in_server(d),
    ensures
        reads_server_item(t, p, acc, d, line),
{
    lemma_server_keywords();
    let words = server_words(d);
    lemma_token_at(t, p, words, line, 0);
    if let ServerItem::BodyLimit(n) = d {
        lemma_token_at(t, p, words, line, 1);
        lemma_size(n as nat, line);
    }
}

proof fn lemma_page_item(
    t: Seq<TokenView>,
    p: int,
    acc: Partial<ServerView>,
    d: ServerItem,
    line: usize,
)
    requires
        d is ErrorPage,
        stands_at(t, p, server_words(d), line),
        writable_in_server(d),
    ensures
        reads_server_item(t, p, acc, d, line),
{
    lemma_server_keywords();
    let words = server_words(d);
    lemma_token_at(t, p, words, line, 0);
    if let ServerItem::ErrorPage(code, _) = d {
        lemma_token_at(t, p, words, line, 1);
        lemma_token_at(t, p, words, line, 2);
        lemma_numbers(code as nat, line);
    }
}

/// A directive of a server does what it says and nothing else, where it stands on
/// a line of its own. A second `host` is refused.
pub proof fn lemma_server_item(
    t: Seq<TokenView>,
    p: int,
    acc: Partial<ServerView>,
    d: ServerItem,
    line: usize,
)
    requires
        !(d is Route),
        stands_at(t, p, server_words(d), line),
        writable_in_server(d),
    ensures
        reads_server_item(t, p, acc, d, line),
{
    match d {
        ServerItem::Host(_) => lemma_host_item(t, p, acc, d, line),
        ServerItem::Ports(_) => lemma_ports_item(t, p, acc, d, line),
        ServerItem::Names(_) => lemma_names_item(t, p, acc, d, line),
        ServerItem::BodyLimit(_) => lemma_server_limit_item(t, p, acc, d, line),
        ServerItem::ErrorPage(_, _) => lemma_page_item(t, p, acc, d, line),
        ServerItem::Route(_, _) => {},
    }
}

/// A route in a server is read for what is written in it: its path, and its
/// directives, one after the other.
#[verifier::rlimit(50)]
pub proof fn lemma_route_in_server(
    t: Seq<TokenView>,
    p: int,
    acc: Partial<ServerView>,
    path: Seq<char>,
    items: Seq<RouteItem>,
    line: usize,
    rest: Seq<TokenView>,
)
    requires
        0 <= p <= t.len(),
        t.skip(p) == on_line(seq!["route"@, path, "{"@], line) + (route_lines(
            items,
            (line + 1) as usize,
        ) + rest),
        rest.len() > 0,
        rest[0].value == "}"@,
        rest[0].line == line + 1 + items.len(),
        line + 1 + items.len() <= usize::MAX,
        writable_block(items),
    ensures
        server_directive(t, p, acc) == Parsed::Done(
            (
                ServerView {
                    routes: acc.0.routes.push(route_of(RouteView::empty(path), items)),
                    ..acc.0
                },
                acc.1,
            ),
            p + 3 + route_lines(items, (line + 1) as usize).len() + 1,
        ),
{
    let words = seq!["route"@, path, "{"@];
    let next = (line + 1) as usize;
    let after = route_lines(items, next) + rest;
    if items.len() > 0 {
        lemma_lines_begin(items, next);
        assert(after[0] == route_lines(items, next)[0]);
    } else {
        assert(after =~= rest);
    }
    lemma_first_stands(t, p, words, line, after);
    lemma_server_keywords();
    lemma_token_at(t, p, words, line, 0);
    lemma_token_at(t, p, words, line, 1);
    lemma_token_at(t, p, words, line, 2);
    assert(words.len() == 3);
    lemma_route_block_reads(
        t,
        p + 3,
        (RouteView::empty(path), Map::empty()),
        items,
        next,
        rest,
    );
}

/// How many lines a directive of a server takes.
pub open spec fn height(d: ServerItem) -> nat {
    match d {
        ServerItem::Route(_, items) => items.len() + 2,
        _ => 1,
    }
}

/// The tokens of a directive of a server, from a line on.
pub open spec fn server_item_lines(d: ServerItem, line: usize) -> Seq<TokenView> {
    match d {
        ServerItem::Route(_, items) => on_line(server_words(d), line) + (route_lines(
            items,
            (line + 1) as usize,
        ) + on_line(seq!["}"@], (line + 1 + items.len()) as usize)),
        _ => on_line(server_words(d), line),
    }
}

/// How many lines directives of a server take.
pub open spec fn total_height(items: Seq<ServerItem>) -> nat
    decreases items.len(),
{
    if items.len() == 0 {
        0
    } else {
        height(items[0]) + total_height(items.drop_first())
    }
}

/// The tokens of directives of a server, each on lines of its own.
pub open spec fn server_lines(items: Seq<ServerItem>, line: usize) -> Seq<TokenView>
    decreases items.len(),
{
    if items.len() == 0 {
        Seq::empty()
    } else {
        server_item_lines(items[0], line) + server_lines(
            items.drop_first(),
            (line + height(items[0])) as usize,
        )
    }
}

/// What directives of a server ask for, one after the other.
pub open spec fn server_of(c: ServerView, items: Seq<ServerItem>) -> ServerView
    decreases items.len(),
{
    if items.len() == 0 {
        c
    } else {
        server_of(server_with(c, items[0]), items.drop_first())
    }
}

/// Whether directives can be written in one server: each can be written, and
/// the address is given once at most.
pub open spec fn writable_server(items: Seq<ServerItem>) -> bool {
    &&& forall|i: int| 0 <= i < items.len() ==> writable_in_server(#[trigger] items[i])
    &&& forall|i: int, j: int|
        0 <= i < j < items.len() && #[trigger] items[i] is Host ==> !(#[trigger] items[j] is Host)
}

proof fn lemma_server_item_begins(d: ServerItem, line: usize)
    requires
        writable_in_server(d),
    ensures
        server_item_lines(d, line).len() > 0,
        server_item_lines(d, line)[0].line == line,
        server_item_lines(d, line)[0].value != "}"@,
{
    lemma_server_keywords();
    let words = server_words(d);
    assert(words.len() > 0);
    assert(on_line(words, line)[0] == (TokenView { value: words[0], line }));
    reveal_strlit("server_name");
    reveal_strlit("}");
    assert("server_name"@.len() != "}"@.len());
}

/// One directive of a server, or one route in it, is read for what it says.
#[verifier::rlimit(50)]
proof fn lemma_server_step(
    t: Seq<TokenView>,
    p: int,
    acc: Partial<ServerView>,
    d: ServerItem,
    line: usize,
    rest: Seq<TokenView>,
)
    requires
        0 <= p <= t.len(),
        t.skip(p) == server_item_lines(d, line) + rest,
        writable_in_server(d),
        line + height(d) <= usize::MAX,
        rest.len() > 0,
        rest[0].line == line + height(d),
        d is Host ==> !acc.1.dom().contains("host"@),
    ensures
        server_directive(t, p, acc) == Parsed::Done(
            (
                server_with(acc.0, d),
                if d is Host {
                    acc.1.insert("host"@, line)
                } else {
                    acc.1
                },
            ),
            p + server_item_lines(d, line).len(),
        ),
        t.skip(p + server_item_lines(d, line).len()) == rest,
        p < t.len(),
        t[p] == server_item_lines(d, line)[0],
{
    let s = t.skip(p);
    let mine = server_item_lines(d, line);
    lemma_server_item_begins(d, line);
    assert(s.len() == mine.len() + rest.len());
    assert(t[p] == s[0]);
    assert(t.skip(p + mine.len()) =~= s.skip(mine.len() as int));
    assert(s.skip(mine.len() as int) =~= rest);
    if let ServerItem::Route(path, items) = d {
        let close = on_line(seq!["}"@], (line + 1 + items.len()) as usize);
        let after = close + rest;
        assert(close.len() == 1);
        assert(close[0] == (TokenView { value: "}"@, line: (line + 1 + items.len()) as usize }));
        assert(after[0] == close[0]);
        assert(t.skip(p) =~= on_line(seq!["route"@, path, "{"@], line) + (route_lines(
            items,
            (line + 1) as usize,
        ) + after));
        lemma_route_in_server(t, p, acc, path, items, line, after);
        assert(on_line(server_words(d), line).len() == 3);
    } else {
        lemma_first_stands(t, p, server_words(d), line, rest);
        lemma_server_item(t, p, acc, d, line);
    }
}

proof fn lemma_fewer_writable(items: Seq<ServerItem>)
    requires
        items.len() > 0,
        writable_server(items),
    ensures
        writable_server(items.drop_first()),
{
    let tail = items.drop_first();
    assert forall|i: int| 0 <= i < tail.len() implies writable_in_server(#[trigger] tail[i]) by {
        assert(tail[i] == items[i + 1]);
    }
    assert forall|i: int, j: int| 0 <= i < j < tail.len() && #[trigger] tail[i] is Host implies !(
    #[trigger] tail[j] is Host) by {
        assert(tail[i] == items[i + 1] && tail[j] == items[j + 1]);
    }
}

proof fn lemma_lines_follow(items: Seq<ServerItem>, line: usize, rest: Seq<TokenView>)
    requires
        writable_server(items),
        rest.len() > 0,
        rest[0].line == line + total_height(items),
    ensures
        (server_lines(items, line) + rest).len() > 0,
        (server_lines(items, line) + rest)[0].line == line,
{
    if items.len() == 0 {
        assert(server_lines(items, line) + rest =~= rest);
    } else {
        assert(writable_in_server(items[0]));
        lemma_server_item_begins(items[0], line);
        assert((server_lines(items, line) + rest)[0] == server_item_lines(items[0], line)[0]);
    }
}

/// A server is read for what is written in it: its directives and routes, one
/// after the other, up to its closing brace.
#[verifier::rlimit(50)]
pub proof fn lemma_server_reads(
    t: Seq<TokenView>,
    p: int,
    acc: Partial<ServerView>,
    items: Seq<ServerItem>,
    line: usize,
    rest: Seq<TokenView>,
)
    requires
        0 <= p <= t.len(),
        t.skip(p) == server_lines(items, line) + rest,
        rest.len() > 0,
        rest[0].value == "}"@,
        rest[0].line == line + total_height(items),
        line + total_height(items) <= usize::MAX,
        writable_server(items),
        acc.1.dom().contains("host"@) ==> forall|i: int|
            0 <= i < items.len() ==> !(#[trigger] items[i] is Host),
    ensures
        server_body(t, p, acc) == Parsed::Done(
            server_of(acc.0, items),
            p + server_lines(items, line).len() + 1,
        ),
    decreases items.len(),
{
    if items.len() == 0 {
        assert(t.skip(p) =~= rest);
        assert(t[p] == t.skip(p)[0]);
    } else {
        let d = items[0];
        let tail = items.drop_first();
        let next = (line + height(d)) as usize;
        let after = server_lines(tail, next) + rest;
        assert(total_height(items) == height(d) + total_height(tail));
        assert(writable_in_server(items[0]));
        assert(t.skip(p) =~= server_item_lines(d, line) + after);
        lemma_fewer_writable(items);
        lemma_lines_follow(tail, next, rest);
        lemma_server_step(t, p, acc, d, line, after);
        lemma_server_item_begins(d, line);
        lemma_server_directive_advances(t, p, acc);
        let q = p + server_item_lines(d, line).len();
        let seen = if d is Host {
            acc.1.insert("host"@, line)
        } else {
            acc.1
        };
        assert forall|i: int| seen.dom().contains("host"@) && 0 <= i < tail.len() implies !(
        #[trigger] tail[i] is Host) by {
            assert(tail[i] == items[i + 1]);
            assert(items[0] is Host ==> !(items[i + 1] is Host));
        }
        lemma_server_reads(t, q, (server_with(acc.0, d), seen), tail, next, rest);
        assert(server_lines(items, line).len() == server_item_lines(d, line).len() + server_lines(
            tail,
            next,
        ).len());
    }
}

/// How many lines servers take.
pub open spec fn config_height(servers: Seq<Seq<ServerItem>>) -> nat
    decreases servers.len(),
{
    if servers.len() == 0 {
        0
    } else {
        total_height(servers[0]) + 2 + config_height(servers.drop_first())
    }
}

/// The tokens of servers, from a line on.
pub open spec fn config_lines(servers: Seq<Seq<ServerItem>>, line: usize) -> Seq<TokenView>
    decreases servers.len(),
{
    if servers.len() == 0 {
        Seq::empty()
    } else {
        on_line(seq!["server"@, "{"@], line) + (server_lines(servers[0], (line + 1) as usize) + (
        on_line(seq!["}"@], (line + 1 + total_height(servers[0])) as usize) + config_lines(
            servers.drop_first(),
            (line + 2 + total_height(servers[0])) as usize,
        )))
    }
}

#[verifier::rlimit(50)]
proof fn lemma_one_server(
    t: Seq<TokenView>,
    p: int,
    items: Seq<ServerItem>,
    line: usize,
    after: Seq<TokenView>,
)
    requires
        0 <= p <= t.len(),
        t.skip(p) == on_line(seq!["server"@, "{"@], line) + (server_lines(
            items,
            (line + 1) as usize,
        ) + (on_line(seq!["}"@], (line + 1 + total_height(items)) as usize) + after)),
        line + 2 + total_height(items) <= usize::MAX,
        writable_server(items),
    ensures
        ({
            let q = p + 3 + server_lines(items, (line + 1) as usize).len();
            &&& p < t.len()
            &&& t[p].value == "server"@
            &&& server_block(t, p + 1) == Parsed::Done(server_of(ServerView::empty(), items), q)
            &&& q <= t.len()
            &&& t.skip(q) == after
        }),
{
    let last = (line + 1 + total_height(items)) as usize;
    let head = on_line(seq!["server"@, "{"@], line);
    let close = on_line(seq!["}"@], last);
    let rest = close + after;
    let body = server_lines(items, (line + 1) as usize);
    let s = t.skip(p);
    let n = body.len() as int;
    assert(head.len() == 2 && close.len() == 1);
    assert(head[0] == (TokenView { value: "server"@, line }));
    assert(head[1] == (TokenView { value: "{"@, line }));
    assert(close[0] == (TokenView { value: "}"@, line: last }));
    assert(rest[0] == close[0]);
    assert(s.len() == 3 + n + after.len());
    assert(s[0] == head[0] && s[1] == head[1]);
    assert(t[p] == s[0] && t[p + 1] == s[1]);
    assert(t.skip(p + 2) =~= s.skip(2));
    assert(s.skip(2) =~= body + rest);
    let start = (ServerView::empty(), Map::<Seq<char>, usize>::empty());
    lemma_server_reads(t, p + 2, start, items, (line + 1) as usize, rest);
    let q = p + 3 + n;
    assert(t.skip(q) =~= s.skip(3 + n));
    assert(s.skip(3 + n) =~= after);
}

/// A configuration is read for what is written in it: its servers, in their
/// order, each with what its directives ask for and what holds without them.
#[verifier::rlimit(50)]
pub proof fn lemma_config_reads(
    t: Seq<TokenView>,
    p: int,
    before: Seq<ServerView>,
    servers: Seq<Seq<ServerItem>>,
    line: usize,
)
    requires
        0 <= p <= t.len(),
        t.skip(p) == config_lines(servers, line),
        line + config_height(servers) <= usize::MAX,
        forall|i: int| 0 <= i < servers.len() ==> writable_server(#[trigger] servers[i]),
    ensures
        servers_from(t, p, before) == Ok::<Seq<ServerView>, ConfigErrorView>(
            before + servers.map_values(
                |items: Seq<ServerItem>| server_of(ServerView::empty(), items),
            ),
        ),
    decreases servers.len(),
{
    let f = |items: Seq<ServerItem>| server_of(ServerView::empty(), items);
    if servers.len() == 0 {
        assert(t.skip(p).len() == 0);
        assert(before + servers.map_values(f) =~= before);
    } else {
        let items = servers[0];
        let tail = servers.drop_first();
        let next = (line + 2 + total_height(items)) as usize;
        assert(config_height(servers) == total_height(items) + 2 + config_height(tail));
        assert(writable_server(servers[0]));
        lemma_one_server(t, p, items, line, config_lines(tail, next));
        let q = p + 3 + server_lines(items, (line + 1) as usize).len();
        assert forall|i: int| 0 <= i < tail.len() implies writable_server(#[trigger] tail[i]) by {
            assert(tail[i] == servers[i + 1]);
        }
        let one = server_of(ServerView::empty(), items);
        lemma_config_reads(t, q, before.push(one), tail, next);
        assert(before.push(one) + tail.map_values(f) =~= before + servers.map_values(f));
    }
}

// ---------------------------------------------------------------------------
// Texts and their tokens
// ---------------------------------------------------------------------------

/// How many line feeds a text holds.
pub open spec fn newlines_in(s: Seq<char>) -> nat
    decreases s.len(),
{
    if s.len() == 0 {
        0
    } else {
        newlines_in(s.drop_first()) + if s[0] == '\n' {
            1nat
        } else {
            0nat
        }
    }
}

proof fn lemma_word_len_is(s: Seq<char>, k: int)
    requires
        0 <= k <= s.len(),
        forall|i: int| 0 <= i < k ==> !is_space(#[trigger] s[i]) && !is_brace(s[i]),
        k < s.len() ==> is_space(s[k]) || is_brace(s[k]),
    ensures
        word_len(s) == k,
{
    lemma_word_len(s);
    if word_len(s) < k {
        assert(!is_space(s[word_len(s)]));
    }
    if word_len(s) > k {
        assert(!is_space(s[k]));
    }
}

/// A text is cut into words at spaces, tabs, line ends and form feeds, and at
/// braces, which are words themselves; where it is cut, the tokens of the one part
/// go before those of the other, and lines are counted on.
pub proof fn lemma_tokens_cut(a: Seq<char>, c: char, b: Seq<char>, newlines: nat)
    ensures
        c == ' ' || c == '\t' || c == '\r' || c == '\u{c}' ==> tokens_of(
            a + (seq![c] + b),
            newlines,
        ) == tokens_of(a, newlines) + tokens_of(b, newlines + newlines_in(a)),
        c == '\n' ==> tokens_of(a + (seq![c] + b), newlines) == tokens_of(a, newlines) + tokens_of(
            b,
            newlines + newlines_in(a) + 1,
        ),
        c == '{' || c == '}' ==> tokens_of(a + (seq![c] + b), newlines) == tokens_of(a, newlines) + (
        seq![
            TokenView {
                value: seq![c],
                line: (newlines + newlines_in(a) + 1) as usize,
            },
        ] + tokens_of(b, newlines + newlines_in(a))),
{
    let rest = seq![c] + b;
    if is_space(c) || is_brace(c) {
        lemma_tokens_joined(a, rest, newlines);
        assert(rest.drop_first() =~= b);
    }
}

#[verifier::rlimit(50)]
proof fn lemma_tokens_joined(a: Seq<char>, rest: Seq<char>, newlines: nat)
    requires
        rest.len() > 0,
        is_space(rest[0]) || is_brace(rest[0]),
    ensures
        tokens_of(a + rest, newlines) == tokens_of(a, newlines) + tokens_of(
            rest,
            newlines + newlines_in(a),
        ),
    decreases a.len(),
{
    let s = a + rest;
    let tail = tokens_of(rest, newlines + newlines_in(a));
    if a.len() == 0 {
        assert(s =~= rest);
        assert(tokens_of(a, newlines) + tail =~= tail);
    } else if is_space(a[0]) {
        let n = if a[0] == '\n' {
            newlines + 1
        } else {
            newlines
        };
        lemma_tokens_joined(a.drop_first(), rest, n);
        assert(s.drop_first() =~= a.drop_first() + rest);
    } else if is_brace(a[0]) {
        lemma_tokens_joined(a.drop_first(), rest, newlines);
        assert(s.drop_first() =~= a.drop_first() + rest);
        assert(tokens_of(s, newlines) =~= tokens_of(a, newlines) + tail);
    } else {
        let n = word_len(a);
        lemma_word_len(a);
        assert(n > 0) by {
            assert(word_len(a) == 1 + word_len(a.drop_first()));
            lemma_word_len(a.drop_first());
        }
        assert forall|i: int| 0 <= i < n implies !is_space(#[trigger] s[i]) && !is_brace(s[i]) by {
            assert(s[i] == a[i]);
        }
        if n < a.len() {
            assert(s[n] == a[n]);
        } else {
            assert(s[n] == rest[0]);
        }
        lemma_word_len_is(s, n);
        assert(s.take(n) =~= a.take(n));
        assert(s.skip(n) =~= a.skip(n) + rest);
        lemma_tokens_joined(a.skip(n), rest, newlines);
        lemma_no_newline_in_word(a, n);
        assert(tokens_of(s, newlines) =~= tokens_of(a, newlines) + tail);
    }
}

proof fn lemma_no_newline_in_word(a: Seq<char>, n: int)
    requires
        0 <= n <= a.len(),
        forall|i: int| 0 <= i < n ==> !is_space(#[trigger] a[i]),
    ensures
        newlines_in(a) == newlines_in(a.skip(n)),
    decreases n,
{
    if n > 0 {
        assert(!is_space(a[0]));
        let less = a.drop_first();
        assert forall|i: int| 0 <= i < n - 1 implies !is_space(#[trigger] less[i]) by {
            assert(less[i] == a[i + 1]);
        }
        lemma_no_newline_in_word(less, n - 1);
        assert(less.skip(n - 1) =~= a.skip(n));
    } else {
        assert(a.skip(0) =~= a);
    }
}

/// Characters that stand in a row, none of which cuts a text, are one word, on
/// the line that they stand on.
pub proof fn lemma_word_token(w: Seq<char>, newlines: nat)
    requires
        w.len() > 0,
        forall|i: int|
            0 <= i < w.len() ==> #[trigger] w[i] != ' ' && w[i] != '\t' && w[i] != '\n' && w[i]
                != '\r' && w[i] != '\u{c}' && w[i] != '{' && w[i] != '}',
    ensures
        tokens_of(w, newlines) == seq![
            TokenView { value: w, line: (newlines + 1) as usize },
        ],
        tokens_of(Seq::empty(), newlines) == Seq::<TokenView>::empty(),
{
    assert(w[0] != ' ' && w[0] != '\t' && w[0] != '{');
    lemma_word_len_is(w, w.len() as int);
    assert(w.take(w.len() as int) =~= w);
    assert(w.skip(w.len() as int) =~= Seq::empty());
    assert(tokens_of(Seq::empty(), newlines) == Seq::<TokenView>::empty());
    assert(!is_space(w[0]) && !is_brace(w[0]));
    assert(tokens_of(w, newlines) =~= seq![TokenView { value: w, line: (newlines + 1) as usize }]);
}

/// What is no directive is refused by its name and line, in a route, in a server
/// and outside of them.
pub proof fn lemma_unknown_directive(
    t: Seq<TokenView>,
    p: int,
    in_route: Partial<RouteView>,
    in_server: Partial<ServerView>,
    before: Seq<ServerView>,
)
    requires
        0 <= p < t.len(),
    ensures
        ({
            let w = t[p].value;
            let e = ConfigErrorView::UnknownDirective { name: w, line: t[p].line };
            &&& w != "methods"@ && w != "method"@ && w != "root"@ && w != "index"@ && w
                != "default_file"@ && w != "directory_listing"@ && w != "redirect"@ && w
                != "client_body_limit"@ && w != "cgi"@ && w != "}"@ ==> route_body(t, p, in_route)
                == Parsed::<RouteView>::Failed(e)
            &&& w != "host"@ && w != "port"@ && w != "listen"@ && w != "server_name"@ && w
                != "client_body_limit"@ && w != "error_page"@ && w != "route"@ && w != "}"@
                ==> server_body(t, p, in_server) == Parsed::<ServerView>::Failed(e)
            &&& w != "server"@ ==> servers_from(t, p, before) == Err::<
                Seq<ServerView>,
                ConfigErrorView,
            >(e)
        }),
{
}

/// A block that the text does not close is refused, and so is one that no brace
/// opens.
pub proof fn lemma_unclosed(
    t: Seq<TokenView>,
    p: int,
    in_route: Partial<RouteView>,
    in_server: Partial<ServerView>,
    path: Seq<char>,
)
    requires
        0 <= p,
    ensures
        p >= t.len() ==> {
            let line = if t.len() > 0 {
                t.last().line
            } else {
                0
            };
            &&& route_body(t, p, in_route) == Parsed::<RouteView>::Failed(
                ConfigErrorView::MalformedBlock {
                    detail: "unexpected end of file inside route block"@,
                    line,
                },
            )
            &&& server_body(t, p, in_server) == Parsed::<ServerView>::Failed(
                ConfigErrorView::MalformedBlock {
                    detail: "unexpected end of file inside server block"@,
                    line,
                },
            )
            &&& route_block(t, p, path) is Failed
            &&& server_block(t, p) is Failed
        },
        p < t.len() && t[p].value != "{"@ ==> {
            &&& route_block(t, p, path) == Parsed::<RouteView>::Failed(
                ConfigErrorView::MalformedBlock {
                    detail: "expected '{' to open "@ + "route"@ + " block, got '"@ + t[p].value
                        + "'"@,
                    line: t[p].line,
                },
            )
            &&& server_block(t, p) == Parsed::<ServerView>::Failed(
                ConfigErrorView::MalformedBlock {
                    detail: "expected '{' to open "@ + "server"@ + " block, got '"@ + t[p].value
                        + "'"@,
                    line: t[p].line,
                },
            )
        },
{
}

/// A word that is no number, no method or no switch is refused where one of these
/// is asked for, with the word and its line; what is larger than a size can be is
/// refused as well.
pub proof fn lemma_words_refused(s: Seq<char>, line: usize)
    requires
        s.len() > 0,
        s[0] != '+',
        !('0' <= s[0] <= '9'),
    ensures
        port_of(s, line) == Err::<u16, ConfigErrorView>(
            ConfigErrorView::MalformedBlock { detail: "invalid port '"@ + s + "'"@, line },
        ),
        status_code_of(s, line) == Err::<u16, ConfigErrorView>(
            ConfigErrorView::MalformedBlock {
                detail: "invalid HTTP status code '"@ + s + "'"@,
                line,
            },
        ),
        size_of(s, line) == Err::<usize, ConfigErrorView>(
            ConfigErrorView::MalformedBlock { detail: "invalid size '"@ + s + "'"@, line },
        ),
        s != "GET"@ && s != "POST"@ && s != "DELETE"@ && s != "HEAD"@ && s != "PUT"@ && s
            != "OPTIONS"@ ==> method_of(s, line) == Err::<Method, ConfigErrorView>(
            ConfigErrorView::MalformedBlock { detail: "unknown HTTP method '"@ + s + "'"@, line },
        ),
        s != "on"@ && s != "true"@ && s != "yes"@ && s != "off"@ && s != "false"@ && s != "no"@
            ==> bool_of(s, line) == Err::<bool, ConfigErrorView>(
            ConfigErrorView::MalformedBlock {
                detail: "expected on/off for boolean, got '"@ + s + "'"@,
                line,
            },
        ),
{
    text::lemma_bounded(0, u32::MAX as nat, s);
    text::lemma_bounded(0, u16::MAX as nat, s);
    text::lemma_bounded(0, usize::MAX as nat, s);
    text::lemma_bounded(0, usize::MAX as nat, s.drop_last());
    if s.len() > 1 {
        assert(s.drop_last()[0] == s[0]);
    } else {
        assert(s.drop_last() =~= Seq::empty());
    }
    reveal_strlit("1");
    reveal_strlit("0");
    assert("1"@[0] == '1' && "0"@[0] == '0');
}

/// `method` is another word for `methods`, `default_file` for `index`, and
/// `listen` for `port`.
pub proof fn lemma_other_words(
    t: Seq<TokenView>,
    u: Seq<TokenView>,
    p: int,
    in_route: Partial<RouteView>,
    in_server: Partial<ServerView>,
)
    requires
        0 <= p < t.len(),
        u.len() == t.len(),
        u.skip(p + 1) == t.skip(p + 1),
        u[p].line == t[p].line,
    ensures
        t[p].value == "method"@ && u[p].value == "methods"@ ==> route_directive(t, p, in_route)
            == route_directive(u, p, in_route),
        t[p].value == "default_file"@ && u[p].value == "index"@ ==> route_directive(t, p, in_route)
            == route_directive(u, p, in_route),
        t[p].value == "listen"@ && u[p].value == "port"@ ==> server_directive(t, p, in_server)
            == server_directive(u, p, in_server),
{
    lemma_keywords();
    lemma_server_keywords();
    reveal_strlit("methods");
    reveal_strlit("method");
    reveal_strlit("default_file");
    reveal_strlit("index");
    reveal_strlit("root");
    reveal_strlit("listen");
    reveal_strlit("port");
    reveal_strlit("host");
    assert("default_file"@.len() == 12 && "index"@.len() == 5 && "root"@.len() == 4
        && "methods"@.len() == 7 && "method"@.len() == 6);
    assert("listen"@.len() == 6 && "host"@.len() == 4);
    assert forall|k: int| p < k < t.len() implies #[trigger] t[k] == u[k] by {
        assert(t.skip(p + 1)[k - p - 1] == u.skip(p + 1)[k - p - 1]);
    }
    if p + 1 < t.len() {
        let w = t[p + 1];
        assert(w == u[p + 1]);
        if let Ok(m) = method_of(w.value, w.line) {
            lemma_methods_alike(t, u, p + 2, w.line, in_route.0.methods.push(m));
        }
        if let Ok(n) = port_of(w.value, t[p].line) {
            lemma_ports_alike(t, u, p + 2, w.line, in_server.0.ports.push(n));
        }
    }
}

proof fn lemma_methods_alike(
    t: Seq<TokenView>,
    u: Seq<TokenView>,
    p: int,
    line: usize,
    m: Seq<Method>,
)
    requires
        p >= 0,
        u.len() == t.len(),
        forall|k: int| p <= k < t.len() ==> #[trigger] t[k] == u[k],
    ensures
        more_methods(t, p, line, m) == more_methods(u, p, line, m),
    decreases t.len() - p,
{
    if p < t.len() {
        assert(t[p] == u[p]);
        if let Ok(x) = method_of(t[p].value, t[p].line) {
            lemma_methods_alike(t, u, p + 1, line, m.push(x));
        }
    }
}

proof fn lemma_ports_alike(
    t: Seq<TokenView>,
    u: Seq<TokenView>,
    p: int,
    line: usize,
    v: Seq<u16>,
)
    requires
        p >= 0,
        u.len() == t.len(),
        forall|k: int| p <= k < t.len() ==> #[trigger] t[k] == u[k],
    ensures
        more_ports(t, p, line, v) == more_ports(u, p, line, v),
    decreases t.len() - p,
{
    if p < t.len() {
        assert(t[p] == u[p]);
        if let Ok(x) = port_of(t[p].value, t[p].line) {
            lemma_ports_alike(t, u, p + 1, line, v.push(x));
        }
    }
}

/// Whether a word stands by itself in a text: it is a brace, or nothing in it
/// cuts a text.
pub open spec fn stands_alone(w: Seq<char>) -> bool {
    ||| w == seq!['{']
    ||| w == seq!['}']
    ||| w.len() > 0 && forall|i: int|
        0 <= i < w.len() ==> #[trigger] w[i] != ' ' && w[i] != '\t' && w[i] != '\n' && w[i] != '\r'
            && w[i] != '\u{c}' && w[i] != '{' && w[i] != '}'
}

/// Words with a space before each.
pub open spec fn spaced(words: Seq<Seq<char>>) -> Seq<char>
    decreases words.len(),
{
    if words.len() == 0 {
        Seq::empty()
    } else {
        spaced(words.drop_last()) + (seq![' '] + words.last())
    }
}

#[verifier::rlimit(50)]
proof fn lemma_spaced_tokens(words: Seq<Seq<char>>, newlines: nat)
    requires
        forall|i: int| 0 <= i < words.len() ==> stands_alone(#[trigger] words[i]),
    ensures
        tokens_of(spaced(words), newlines) == on_line(words, (newlines + 1) as usize),
        newlines_in(spaced(words)) == 0,
    decreases words.len(),
{
    let line = (newlines + 1) as usize;
    if words.len() == 0 {
        assert(on_line(words, line) =~= Seq::empty());
    } else {
        let before = words.drop_last();
        let w = words.last();
        assert forall|i: int| 0 <= i < before.len() implies stands_alone(#[trigger] before[i]) by {
            assert(before[i] == words[i]);
        }
        lemma_spaced_tokens(before, newlines);
        lemma_tokens_cut(spaced(before), ' ', w, newlines);
        assert(stands_alone(words[words.len() - 1]));
        assert(tokens_of(w, newlines) == seq![TokenView { value: w, line }]) by {
            if w == seq!['{'] || w == seq!['}'] {
                let e = Seq::<char>::empty();
                lemma_tokens_cut(e, w[0], e, newlines);
                assert(e + (seq![w[0]] + e) =~= w);
                assert(seq![w[0]] =~= w);
                assert(tokens_of(e, newlines) == Seq::<TokenView>::empty());
                let one = seq![TokenView { value: w, line }];
                assert(tokens_of(e, newlines) + (one + tokens_of(e, newlines)) =~= one);
            } else {
                lemma_word_token(w, newlines);
            }
        }
        assert(on_line(words, line) =~= on_line(before, line) + seq![TokenView { value: w, line }]);
        lemma_newlines_joined(spaced(before), seq![' '] + w);
        lemma_no_newlines(seq![' '] + w);
    }
}

proof fn lemma_newlines_joined(a: Seq<char>, b: Seq<char>)
    ensures
        newlines_in(a + b) == newlines_in(a) + newlines_in(b),
    decreases a.len(),
{
    if a.len() == 0 {
        assert(a + b =~= b);
    } else {
        lemma_newlines_joined(a.drop_first(), b);
        assert((a + b).drop_first() =~= a.drop_first() + b);
    }
}

proof fn lemma_no_newlines(s: Seq<char>)
    requires
        forall|i: int| 0 <= i < s.len() ==> #[trigger] s[i] != '\n',
    ensures
        newlines_in(s) == 0,
    decreases s.len(),
{
    if s.len() > 0 {
        assert(s[0] != '\n');
        let less = s.drop_first();
        assert forall|i: int| 0 <= i < less.len() implies #[trigger] less[i] != '\n' by {
            assert(less[i] == s[i + 1]);
        }
        lemma_no_newlines(less);
    }
}

/// The tokens of a line are its words, with the number of the line, and the
/// tokens of what follows are counted from the next line on.
pub proof fn lemma_line_tokens(words: Seq<Seq<char>>, rest: Seq<char>, newlines: nat)
    requires
        forall|i: int| 0 <= i < words.len() ==> stands_alone(#[trigger] words[i]),
    ensures
        tokens_of(spaced(words) + (seq!['\n'] + rest), newlines) == on_line(
            words,
            (newlines + 1) as usize,
        ) + tokens_of(rest, newlines + 1),
{
    lemma_spaced_tokens(words, newlines);
    lemma_tokens_cut(spaced(words), '\n', rest, newlines);
}

/// A text that holds servers, written line by line, is read as these servers.
pub proof fn lemma_config_text(source: Seq<char>, servers: Seq<Seq<ServerItem>>)
    requires
        tokens_of(source, 0) == config_lines(servers, 1),
        1 + config_height(servers) <= usize::MAX,
        forall|i: int| 0 <= i < servers.len() ==> writable_server(#[trigger] servers[i]),
    ensures
        parsed_config(source) == Ok::<Seq<ServerView>, ConfigErrorView>(
            servers.map_values(|items: Seq<ServerItem>| server_of(ServerView::empty(), items)),
        ),
{
    let t = tokens_of(source, 0);
    assert(t.skip(0) =~= t);
    lemma_config_reads(t, 0, Seq::empty(), servers, 1);
    let read = servers.map_values(
        |items: Seq<ServerItem>| server_of(ServerView::empty(), items),
    );
    assert(Seq::<ServerView>::empty() + read =~= read);
}

/// The extension that an interpreter is set for is the word without the dots in
/// front of it.
pub proof fn lemma_dots_stripped(s: Seq<char>)
    requires
        s.len() > 0 ==> s[0] != '.',
    ensures
        strip_dots(s) == s,
        strip_dots(seq!['.'] + s) == s,
        strip_dots(seq!['.', '.'] + s) == s,
{
    reveal_with_fuel(strip_dots, 3);
    assert((seq!['.'] + s).drop_first() =~= s);
    assert((seq!['.', '.'] + s).drop_first() =~= seq!['.'] + s);
    assert((seq!['.'] + s)[0] == '.');
}

/// A directive whose value the text does not give is refused with what is
/// missing.
pub proof fn lemma_value_missing(
    t: Seq<TokenView>,
    p: int,
    in_route: Partial<RouteView>,
    in_server: Partial<ServerView>,
)
    requires
        0 <= p,
        p + 1 == t.len(),
    ensures
        ({
            let w = t[p].value;
            &&& w == "methods"@ ==> route_directive(t, p, in_route) == Parsed::<
                Partial<RouteView>,
            >::Failed(
                ConfigErrorView::MissingDirective {
                    directive: "methods value"@,
                    context: "end of file"@,
                },
            )
            &&& w == "root"@ && !in_route.1.dom().contains("root"@) ==> route_directive(
                t,
                p,
                in_route,
            ) == Parsed::<Partial<RouteView>>::Failed(
                ConfigErrorView::MissingDirective {
                    directive: "root path"@,
                    context: "end of file"@,
                },
            )
            &&& w == "host"@ && !in_server.1.dom().contains("host"@) ==> server_directive(
                t,
                p,
                in_server,
            ) == Parsed::<Partial<ServerView>>::Failed(
                ConfigErrorView::MissingDirective {
                    directive: "host value"@,
                    context: "end of file"@,
                },
            )
            &&& w == "port"@ ==> server_directive(t, p, in_server) == Parsed::<
                Partial<ServerView>,
            >::Failed(
                ConfigErrorView::MissingDirective {
                    directive: "port value"@,
                    context: "end of file"@,
                },
            )
            &&& w == "server_name"@ ==> server_directive(t, p, in_server) == Parsed::<
                Partial<ServerView>,
            >::Failed(
                ConfigErrorView::MissingDirective {
                    directive: "server_name value"@,
                    context: "end of file"@,
                },
            )
            &&& w == "route"@ ==> server_directive(t, p, in_server) == Parsed::<
                Partial<ServerView>,
            >::Failed(
                ConfigErrorView::MissingDirective {
                    directive: "route path"@,
                    context: "end of file"@,
                },
            )
        }),
{
    lemma_keywords();
    lemma_server_keywords();
    reveal_strlit("root");
    reveal_strlit("method");
    assert("root"@.len() == 4 && "method"@.len() == 6);
}

/// A list of ports ends on its line with the first word that is no number, and a
/// list of names with the first brace.
pub proof fn lemma_lists_end(
    t: Seq<TokenView>,
    p: int,
    line: usize,
    ports: Seq<u16>,
    names: Seq<Seq<char>>,
)
    requires
        0 <= p < t.len(),
    ensures
        t[p].value.len() > 0 && t[p].value[0] != '+' && !('0' <= t[p].value[0] <= '9')
            ==> more_ports(t, p, line, ports) == Parsed::Done(ports, p),
        t[p].value == "{"@ || t[p].value == "}"@ ==> more_names(t, p, line, names) == Parsed::Done(
            names,
            p,
        ),
        t[p].line == line && t[p].value != "{"@ && t[p].value != "}"@ ==> more_names(
            t,
            p,
            line,
            names,
        ) == more_names(t, p + 1, line, names.push(t[p].value)),
{
    text::lemma_bounded(0, u32::MAX as nat, t[p].value);
}

/// A size that is larger than can be counted is refused, with or without a unit.
pub proof fn lemma_size_too_large(n: nat, line: usize)
    ensures
        ({
            let s = text::decimal(n);
            &&& n > usize::MAX ==> size_of(s, line) is Err
            &&& n * 1024 > usize::MAX ==> size_of(s.push('k'), line) is Err && size_of(
                s.push('K'),
                line,
            ) is Err
            &&& n * 1_048_576 > usize::MAX ==> size_of(s.push('m'), line) is Err && size_of(
                s.push('M'),
                line,
            ) is Err
            &&& n * 1_073_741_824 > usize::MAX ==> size_of(s.push('g'), line) is Err && size_of(
                s.push('G'),
                line,
            ) is Err
        }),
{
    let s = text::decimal(n);
    text::lemma_bounded(n, usize::MAX as nat, Seq::empty());
    text::lemma_decimal_reads_back(n);
    assert(text::is_digit(s.last()));
    assert(n * 1 == n);
    assert(s.push('k').drop_last() =~= s);
    assert(s.push('K').drop_last() =~= s);
    assert(s.push('m').drop_last() =~= s);
    assert(s.push('M').drop_last() =~= s);
    assert(s.push('g').drop_last() =~= s);
    assert(s.push('G').drop_last() =~= s);
}

} // verus!
