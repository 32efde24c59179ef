//! The configuration model: servers, routes, methods and the errors of a bad
//! configuration.

use std::collections::HashMap;

use vstd::prelude::*;
use vstd::string::*;

use crate::string_map;
use crate::string_map::StringMap;
use crate::text;

verus! {

broadcast use vstd::std_specs::hash::group_hash_axioms;

// ---------------------------------------------------------------------------
// Method
// ---------------------------------------------------------------------------

/// A request method.
#[derive(Debug, Clone, Copy, PartialEq, Eq, Hash, Structural)]
pub enum Method {
    Get,
    Post,
    Delete,
    Head,
    Put,
    Options,
}

/// The name of a method on the wire.
pub open spec fn method_name(m: Method) -> Seq<char> {
    match m {
        Method::Get => "GET"@,
        Method::Post => "POST"@,
        Method::Delete => "DELETE"@,
        Method::Head => "HEAD"@,
        Method::Put => "PUT"@,
        Method::Options => "OPTIONS"@,
    }
}

/// The method with the given name; the case of letters matters.
pub open spec fn method_named(s: Seq<char>) -> Option<Method> {
    if s == "GET"@ {
        Some(Method::Get)
    } else if s == "POST"@ {
        Some(Method::Post)
    } else if s == "DELETE"@ {
        Some(Method::Delete)
    } else if s == "HEAD"@ {
        Some(Method::Head)
    } else if s == "PUT"@ {
        Some(Method::Put)
    } else if s == "OPTIONS"@ {
        Some(Method::Options)
    } else {
        None
    }
}

/// A method is found under its name, and under no other text.
pub proof fn lemma_method_round_trip(m: Method, s: Seq<char>)
    ensures
        method_named(method_name(m)) == Some(m),
        method_named(s) == Some(m) <==> s == method_name(m),
{
    reveal_strlit("GET");
    reveal_strlit("POST");
    reveal_strlit("DELETE");
    reveal_strlit("HEAD");
    reveal_strlit("PUT");
    reveal_strlit("OPTIONS");
    assert("POST"@[0] != "PUT"@[0] || "POST"@[1] != "PUT"@[1]);
    assert("GET"@[0] == 'G' && "POST"@[0] == 'P' && "DELETE"@[0] == 'D' && "HEAD"@[0] == 'H'
        && "PUT"@[0] == 'P' && "OPTIONS"@[0] == 'O');
}

impl Method {
    /// The method with the given name, if there is one. Names are
    /// case-sensitive.
    pub fn from_str(s: &str) -> (r: Option<Method>)
        ensures
            r == method_named(s@),
    {
        if text::same(s, "GET") {
            Some(Method::Get)
        } else if text::same(s, "POST") {
            Some(Method::Post)
        } else if text::same(s, "DELETE") {
            Some(Method::Delete)
        } else if text::same(s, "HEAD") {
            Some(Method::Head)
        } else if text::same(s, "PUT") {
            Some(Method::Put)
        } else if text::same(s, "OPTIONS") {
            Some(Method::Options)
        } else {
            None
        }
    }

    /// The name of the method.
    pub fn as_str(&self) -> (r: &'static str)
        ensures
            r@ == method_name(*self),
    {
        match self {
            Method::Get => "GET",
            Method::Post => "POST",
            Method::Delete => "DELETE",
            Method::Head => "HEAD",
            Method::Put => "PUT",
            Method::Options => "OPTIONS",
        }
    }
}

// ---------------------------------------------------------------------------
// Redirect
// ---------------------------------------------------------------------------

/// A redirect attached to a route.
#[derive(Debug, Clone)]
pub struct Redirect {
    /// The status code: 301, 302, 307 or 308 in a valid configuration.
    pub code: u16,
    /// The value of the `Location` header.
    pub target: String,
}

/// A [`Redirect`] with its target as a text.
#[verifier::ext_equal]
pub struct RedirectView {
    pub code: u16,
    pub target: Seq<char>,
}

impl View for Redirect {
    type V = RedirectView;

    open spec fn view(&self) -> RedirectView {
        RedirectView { code: self.code, target: self.target@ }
    }
}

// ---------------------------------------------------------------------------
// RouteConfig
// ---------------------------------------------------------------------------

/// What a server does with the URLs under one prefix.
#[derive(Debug, Clone)]
pub struct RouteConfig {
    /// URL prefix this route matches, such as `/` or `/api`.
    pub path: String,
    /// Methods allowed on this route; none listed means all are allowed.
    pub methods: Vec<Method>,
    /// Where every request on this route is sent instead, if anywhere.
    pub redirect: Option<Redirect>,
    /// Directory that URL paths are resolved in.
    pub root: Option<String>,
    /// File served for a directory, where `index_file` names none.
    pub default_file: Option<String>,
    /// Interpreters by file extension, such as `py` to `/usr/bin/python3`.
    pub cgi_extensions: StringMap<String>,
    /// Whether a directory without an index file is listed.
    pub directory_listing: bool,
    /// File served for a directory.
    pub index_file: Option<String>,
    /// Largest request body accepted on this route, in bytes; where there is
    /// none, the server's limit holds.
    pub client_body_limit: Option<usize>,
}

/// A [`RouteConfig`] with texts for its strings.
#[verifier::ext_equal]
pub struct RouteView {
    pub path: Seq<char>,
    pub methods: Seq<Method>,
    pub redirect: Option<RedirectView>,
    pub root: Option<Seq<char>>,
    pub default_file: Option<Seq<char>>,
    pub cgi_extensions: Map<Seq<char>, Seq<char>>,
    pub directory_listing: bool,
    pub index_file: Option<Seq<char>>,
    pub client_body_limit: Option<usize>,
}

impl View for RouteConfig {
    type V = RouteView;

    open spec fn view(&self) -> RouteView {
        RouteView {
            path: self.path@,
            methods: self.methods@,
            redirect: match self.redirect {
                Some(r) => Some(r@),
                None => None,
            },
            root: text::opt(self.root),
            default_file: text::opt(self.default_file),
            cgi_extensions: string_map::texts(self.cgi_extensions@),
            directory_listing: self.directory_listing,
            index_file: text::opt(self.index_file),
            client_body_limit: self.client_body_limit,
        }
    }
}

impl RouteView {
    /// The route that no directive has changed yet.
    pub open spec fn empty(path: Seq<char>) -> RouteView {
        RouteView {
            path,
            methods: Seq::empty(),
            redirect: None,
            root: None,
            default_file: None,
            cgi_extensions: Map::empty(),
            directory_listing: false,
            index_file: None,
            client_body_limit: None,
        }
    }

    /// Whether a method may be used on this route.
    pub open spec fn allows(self, m: Method) -> bool {
        self.methods.len() == 0 || self.methods.contains(m)
    }

    /// The file served for a directory.
    pub open spec fn index(self) -> Seq<char> {
        match self.index_file {
            Some(f) => f,
            None => match self.default_file {
                Some(f) => f,
                None => "index.html"@,
            },
        }
    }

    /// The interpreter for a file extension.
    pub open spec fn interpreter(self, ext: Seq<char>) -> Option<Seq<char>> {
        if self.cgi_extensions.dom().contains(ext) {
            Some(self.cgi_extensions[ext])
        } else {
            None
        }
    }
}

impl Default for RouteConfig {
    fn default() -> (r: Self)
        ensures
            r@ == RouteView::empty("/"@),
    {
        RouteConfig::at(text::owned("/"))
    }
}

impl RouteConfig {
    /// The route at a path with nothing else configured.
    pub fn at(path: String) -> (r: Self)
        ensures
            r@ == RouteView::empty(path@),
    {
        let r = RouteConfig {
            path,
            methods: Vec::new(),
            redirect: None,
            root: None,
            default_file: None,
            cgi_extensions: StringMap::new(),
            directory_listing: false,
            index_file: None,
            client_body_limit: None,
        };
        proof {
            assert(r@.cgi_extensions =~= Map::empty());
        }
        r
    }

    /// Whether a method may be used on this route. A route that lists no
    /// methods allows all.
    pub fn allows_method(&self, method: &Method) -> (r: bool)
        ensures
            r == self@.allows(*method),
    {
        if self.methods.len() == 0 {
            return true;
        }
        let mut i: usize = 0;
        while i < self.methods.len()
            invariant
                i <= self.methods@.len(),
                self.methods@.len() > 0,
                forall|j: int| 0 <= j < i ==> self.methods@[j] != *method,
            decreases self.methods@.len() - i,
        {
            if self.methods[i] == *method {
                assert(self.methods@.contains(*method));
                return true;
            }
            i = i + 1;
        }
        false
    }

    /// The file served for a directory: `index_file`, else `default_file`,
    /// else `index.html`.
    pub fn effective_index(&self) -> (r: &str)
        ensures
            r@ == self@.index(),
    {
        match &self.index_file {
            Some(f) => f.as_str(),
            None => match &self.default_file {
                Some(f) => f.as_str(),
                None => "index.html",
            },
        }
    }

    /// The interpreter for a file extension, if one is configured.
    pub fn cgi_for_extension(&self, ext: &str) -> (r: Option<&str>)
        ensures
            r matches Some(p) ==> self@.interpreter(ext@) == Some(p@),
            r is None ==> self@.interpreter(ext@) is None,
    {
        match self.cgi_extensions.get(ext) {
            Some(p) => Some(p.as_str()),
            None => None,
        }
    }
}

// ---------------------------------------------------------------------------
// ServerConfig
// ---------------------------------------------------------------------------

/// One virtual server.
#[derive(Debug, Clone)]
pub struct ServerConfig {
    /// Address to bind, such as `127.0.0.1` or `0.0.0.0`.
    pub host: String,
    /// Ports to listen on.
    pub ports: Vec<u16>,
    /// Names by which a request selects this server.
    pub server_names: Vec<String>,
    /// Files with custom error pages, by status code.
    pub error_pages: HashMap<u16, String>,
    /// Largest request body accepted, in bytes.
    pub client_body_limit: usize,
    /// The routes, in the order in which they were configured.
    pub routes: Vec<RouteConfig>,
}

/// A [`ServerConfig`] with texts for its strings.
#[verifier::ext_equal]
pub struct ServerView {
    pub host: Seq<char>,
    pub ports: Seq<u16>,
    pub server_names: Seq<Seq<char>>,
    pub error_pages: Map<u16, Seq<char>>,
    pub client_body_limit: usize,
    pub routes: Seq<RouteView>,
}

/// The views of a list of routes.
pub open spec fn route_views(v: Seq<RouteConfig>) -> Seq<RouteView> {
    v.map_values(|r: RouteConfig| r@)
}

/// The views of a list of servers.
pub open spec fn server_views(v: Seq<ServerConfig>) -> Seq<ServerView> {
    v.map_values(|s: ServerConfig| s@)
}

impl View for ServerConfig {
    type V = ServerView;

    open spec fn view(&self) -> ServerView {
        ServerView {
            host: self.host@,
            ports: self.ports@,
            server_names: text::views(self.server_names@),
            error_pages: self.error_pages@.map_values(|p: String| p@),
            client_body_limit: self.client_body_limit,
            routes: route_views(self.routes@),
        }
    }
}

/// The body limit of a server that sets none: one mebibyte.
pub const DEFAULT_BODY_LIMIT: usize = 1_048_576;

impl ServerView {
    /// The server that no directive has changed yet.
    pub open spec fn empty() -> ServerView {
        ServerView {
            host: "0.0.0.0"@,
            ports: Seq::empty(),
            server_names: Seq::empty(),
            error_pages: Map::empty(),
            client_body_limit: DEFAULT_BODY_LIMIT,
            routes: Seq::empty(),
        }
    }

    /// The file with the custom page for a status code.
    pub open spec fn page(self, code: u16) -> Option<Seq<char>> {
        if self.error_pages.dom().contains(code) {
            Some(self.error_pages[code])
        } else {
            None
        }
    }
}

impl Default for ServerConfig {
    fn default() -> (s: Self)
        ensures
            s@ == ServerView::empty(),
    {
        let s = ServerConfig {
            host: text::owned("0.0.0.0"),
            ports: Vec::new(),
            server_names: Vec::new(),
            error_pages: HashMap::new(),
            client_body_limit: DEFAULT_BODY_LIMIT,
            routes: Vec::new(),
        };
        proof {
            assert(s@.server_names =~= Seq::empty());
            assert(s@.error_pages =~= Map::empty());
            assert(s@.routes =~= Seq::empty());
        }
        s
    }
}

impl ServerConfig {
    /// The file with the custom page for a status code, if one is configured.
    pub fn error_page(&self, code: u16) -> (r: Option<&str>)
        ensures
            r matches Some(p) ==> self@.page(code) == Some(p@),
            r is None ==> self@.page(code) is None,
    {
        match self.error_pages.get(&code) {
            Some(p) => Some(p.as_str()),
            None => None,
        }
    }

    /// The largest request body that the server itself accepts; a route may
    /// set its own limit.
    pub fn body_limit(&self) -> (n: usize)
        ensures
            n == self@.client_body_limit,
    {
        self.client_body_limit
    }
}

// ---------------------------------------------------------------------------
// ConfigError
// ---------------------------------------------------------------------------

/// Why a configuration is refused.
#[derive(Debug)]
pub enum ConfigError {
    /// The file could not be read; the text says why.
    Io(String),
    /// A value that a directive needs was missing.
    MissingDirective { directive: &'static str, context: String },
    /// A directive's value is not one of those allowed.
    InvalidValue { field: &'static str, value: String, reason: &'static str },
    /// A word stands where a directive is expected and is none.
    UnknownDirective { name: String, line: usize },
    /// A block is not opened or closed, or a value in it cannot be read.
    MalformedBlock { detail: String, line: usize },
    /// Servers share an address and a port and no names tell them apart.
    DuplicateHostPort { host: String, port: u16 },
    /// The file of a custom error page does not exist.
    ErrorPageNotFound { code: u16, path: String },
    /// The root of a route is not a directory.
    InvalidRoot { path: String },
    /// A port outside 1 to 65535.
    InvalidPort(u32),
    /// A directive that may be given once in a block is given again.
    DuplicateDirective { directive: &'static str, first_line: usize, line: usize },
}

/// A [`ConfigError`] with texts for its strings.
#[verifier::ext_equal]
pub enum ConfigErrorView {
    Io(Seq<char>),
    MissingDirective { directive: Seq<char>, context: Seq<char> },
    InvalidValue { field: Seq<char>, value: Seq<char>, reason: Seq<char> },
    UnknownDirective { name: Seq<char>, line: usize },
    MalformedBlock { detail: Seq<char>, line: usize },
    DuplicateHostPort { host: Seq<char>, port: u16 },
    ErrorPageNotFound { code: u16, path: Seq<char> },
    InvalidRoot { path: Seq<char> },
    InvalidPort(u32),
    DuplicateDirective { directive: Seq<char>, first_line: usize, line: usize },
}

impl View for ConfigError {
    type V = ConfigErrorView;

    open spec fn view(&self) -> ConfigErrorView {
        match self {
            ConfigError::Io(e) => ConfigErrorView::Io(e@),
            ConfigError::MissingDirective { directive, context } => ConfigErrorView::MissingDirective {
                directive: directive@,
                context: context@,
            },
            ConfigError::InvalidValue { field, value, reason } => ConfigErrorView::InvalidValue {
                field: field@,
                value: value@,
                reason: reason@,
            },
            ConfigError::UnknownDirective { name, line } => ConfigErrorView::UnknownDirective {
                name: name@,
                line: *line,
            },
            ConfigError::MalformedBlock { detail, line } => ConfigErrorView::MalformedBlock {
                detail: detail@,
                line: *line,
            },
            ConfigError::DuplicateHostPort { host, port } => ConfigErrorView::DuplicateHostPort {
                host: host@,
                port: *port,
            },
            ConfigError::ErrorPageNotFound { code, path } => ConfigErrorView::ErrorPageNotFound {
                code: *code,
                path: path@,
            },
            ConfigError::InvalidRoot { path } => ConfigErrorView::InvalidRoot { path: path@ },
            ConfigError::InvalidPort(p) => ConfigErrorView::InvalidPort(*p),
            ConfigError::DuplicateDirective { directive, first_line, line } =>
                ConfigErrorView::DuplicateDirective {
                directive: directive@,
                first_line: *first_line,
                line: *line,
            },
        }
    }
}

impl ConfigErrorView {
    /// The sentence shown to the operator.
    pub open spec fn message(self) -> Seq<char> {
        match self {
            ConfigErrorView::Io(e) => "I/O error reading config: "@ + e,
            ConfigErrorView::MissingDirective { directive, context } => "missing directive '"@
                + directive + "' in "@ + context,
            ConfigErrorView::InvalidValue { field, value, reason } => "invalid value for '"@ + field
                + "': '"@ + value + "' — "@ + reason,
            ConfigErrorView::UnknownDirective { name, line } => "unknown directive '"@ + name
                + "' at line "@ + text::decimal(line as nat),
            ConfigErrorView::MalformedBlock { detail, line } => "malformed block at line "@
                + text::decimal(line as nat) + ": "@ + detail,
            ConfigErrorView::DuplicateHostPort { host, port } => "duplicate host:port '"@ + host
                + ":"@ + text::decimal(port as nat) + "' with no distinct server_name"@,
            ConfigErrorView::ErrorPageNotFound { code, path } => "error page for "@ + text::decimal(
                code as nat,
            ) + " not found at '"@ + path + "'"@,
            ConfigErrorView::InvalidRoot { path } => "route root '"@ + path
                + "' is not a valid directory"@,
            ConfigErrorView::InvalidPort(p) => "port "@ + text::decimal(p as nat)
                + " is out of valid range 1–65535"@,
            ConfigErrorView::DuplicateDirective { directive, first_line, line } => "directive '"@
                + directive + "' is set more than once (line "@ + text::decimal(line as nat)
                + "; first seen at line "@ + text::decimal(first_line as nat) + ")"@,
        }
    }
}

impl ConfigError {
    /// The error as a sentence for the operator.
    pub fn message(&self) -> (r: String)
        ensures
            r@ == self@.message(),
    {
        match self {
            ConfigError::Io(e) => {
                let mut s = text::owned("I/O error reading config: ");
                s.append(e.as_str());
                s
            },
            ConfigError::MissingDirective { directive, context } => {
                let mut s = text::owned("missing directive '");
                s.append(directive);
                s.append("' in ");
                s.append(context.as_str());
                s
            },
            ConfigError::InvalidValue { field, value, reason } => {
                let mut s = text::owned("invalid value for '");
                s.append(field);
                s.append("': '");
                s.append(value.as_str());
                s.append("' — ");
                s.append(reason);
                s
            },
            ConfigError::UnknownDirective { name, line } => {
                let mut s = text::owned("unknown directive '");
                s.append(name.as_str());
                s.append("' at line ");
                s.append(text::decimal_text(*line as u64).as_str());
                s
            },
            ConfigError::MalformedBlock { detail, line } => {
                let mut s = text::owned("malformed block at line ");
                s.append(text::decimal_text(*line as u64).as_str());
                s.append(": ");
                s.append(detail.as_str());
                s
            },
            ConfigError::DuplicateHostPort { host, port } => {
                let mut s = text::owned("duplicate host:port '");
                s.append(host.as_str());
                s.append(":");
                s.append(text::decimal_text(*port as u64).as_str());
                s.append("' with no distinct server_name");
                s
            },
            ConfigError::ErrorPageNotFound { code, path } => {
                let mut s = text::owned("error page for ");
                s.append(text::decimal_text(*code as u64).as_str());
                s.append(" not found at '");
                s.append(path.as_str());
                s.append("'");
                s
            },
            ConfigError::InvalidRoot { path } => {
                let mut s = text::owned("route root '");
                s.append(path.as_str());
                s.append("' is not a valid directory");
                s
            },
            ConfigError::InvalidPort(p) => {
                let mut s = text::owned("port ");
                s.append(text::decimal_text(*p as u64).as_str());
                s.append(" is out of valid range 1–65535");
                s
            },
            ConfigError::DuplicateDirective { directive, first_line, line } => {
                let mut s = text::owned("directive '");
                s.append(directive);
                s.append("' is set more than once (line ");
                s.append(text::decimal_text(*line as u64).as_str());
                s.append("; first seen at line ");
                s.append(text::decimal_text(*first_line as u64).as_str());
                s.append(")");
                s
            },
        }
    }
}

// ---------------------------------------------------------------------------
// Laws
// ---------------------------------------------------------------------------

/// A route without methods takes every method, and one with methods takes those
/// and no other.
pub proof fn lemma_methods_allowed(r: RouteView, m: Method, i: int)
    ensures
        r.methods.len() == 0 ==> r.allows(m),
        0 <= i < r.methods.len() && r.methods[i] == m ==> r.allows(m),
        r.methods.len() > 0 && (forall|j: int| 0 <= j < r.methods.len() ==> #[trigger] r.methods[j]
            != m) ==> !r.allows(m),
{
    if 0 <= i < r.methods.len() && r.methods[i] == m {
        assert(r.methods.contains(m));
    }
}

/// The index of a directory is the file that the route names for it, else its
/// default file, else `index.html`.
pub proof fn lemma_index(r: RouteView, f: Seq<char>, d: Seq<char>)
    ensures
        r.index_file == Some(f) ==> r.index() == f,
        r.index_file is None && r.default_file == Some(d) ==> r.index() == d,
        r.index_file is None && r.default_file is None ==> r.index() == "index.html"@,
{
}

/// Interpreters and error pages are found under what they were set for, and
/// setting one leaves the others.
pub proof fn lemma_settings_found(
    r: RouteView,
    ext: Seq<char>,
    program: Seq<char>,
    other: Seq<char>,
    s: ServerView,
    code: u16,
    file: Seq<char>,
    another: u16,
)
    ensures
        ({
            let set = RouteView { cgi_extensions: r.cgi_extensions.insert(ext, program), ..r };
            &&& set.interpreter(ext) == Some(program)
            &&& other != ext ==> set.interpreter(other) == r.interpreter(other)
        }),
        ({
            let set = ServerView { error_pages: s.error_pages.insert(code, file), ..s };
            &&& set.page(code) == Some(file)
            &&& another != code ==> set.page(another) == s.page(another)
        }),
        RouteView::empty(other).interpreter(ext) is None,
        ServerView::empty().page(code) is None,
{
}

/// What holds where nothing is configured: a route takes all methods, lists no
/// directories, and has neither root nor redirect nor a limit of its own; a server
/// binds all addresses, has no ports, names, pages or routes, and takes bodies of
/// up to one MiB.
pub proof fn lemma_defaults(path: Seq<char>, m: Method)
    ensures
        ({
            let r = RouteView::empty(path);
            &&& r.path == path
            &&& r.allows(m)
            &&& r.redirect is None
            &&& r.root is None
            &&& !r.directory_listing
            &&& r.index() == "index.html"@
            &&& r.client_body_limit is None
            &&& r.cgi_extensions.dom() == Set::<Seq<char>>::empty()
        }),
        ({
            let s = ServerView::empty();
            &&& s.host == "0.0.0.0"@
            &&& s.ports.len() == 0
            &&& s.server_names.len() == 0
            &&& s.error_pages.dom() == Set::<u16>::empty()
            &&& s.client_body_limit == 1024 * 1024
            &&& s.routes.len() == 0
        }),
{
    assert(RouteView::empty(path).cgi_extensions.dom() =~= Set::<Seq<char>>::empty());
    assert(ServerView::empty().error_pages.dom() =~= Set::<u16>::empty());
}

/// Methods have the names that requests give them.
pub proof fn lemma_method_names()
    ensures
        method_named("GET"@) == Some(Method::Get),
        method_named("POST"@) == Some(Method::Post),
        method_named("DELETE"@) == Some(Method::Delete),
        method_named("HEAD"@) == Some(Method::Head),
        method_named("PUT"@) == Some(Method::Put),
        method_named("OPTIONS"@) == Some(Method::Options),
{
    lemma_method_round_trip(Method::Get, "GET"@);
    lemma_method_round_trip(Method::Post, "POST"@);
    lemma_method_round_trip(Method::Delete, "DELETE"@);
    lemma_method_round_trip(Method::Head, "HEAD"@);
    lemma_method_round_trip(Method::Put, "PUT"@);
    lemma_method_round_trip(Method::Options, "OPTIONS"@);
}

/// Errors say what was wrong, with which directive or value, and on which line.
pub proof fn lemma_messages(s: Seq<char>, t: Seq<char>, u: Seq<char>, n: usize, m: usize, port: u16)
    ensures
        ConfigErrorView::Io(s).message() == "I/O error reading config: "@ + s,
        (ConfigErrorView::MissingDirective { directive: s, context: t }).message()
            == "missing directive '"@ + s + "' in "@ + t,
        (ConfigErrorView::InvalidValue { field: s, value: t, reason: u }).message()
            == "invalid value for '"@ + s + "': '"@ + t + "' — "@ + u,
        (ConfigErrorView::UnknownDirective { name: s, line: n }).message() == "unknown directive '"@
            + s + "' at line "@ + text::decimal(n as nat),
        (ConfigErrorView::MalformedBlock { detail: s, line: n }).message()
            == "malformed block at line "@ + text::decimal(n as nat) + ": "@ + s,
        (ConfigErrorView::DuplicateHostPort { host: s, port }).message() == "duplicate host:port '"@
            + s + ":"@ + text::decimal(port as nat) + "' with no distinct server_name"@,
        (ConfigErrorView::ErrorPageNotFound { code: port, path: s }).message() == "error page for "@
            + text::decimal(port as nat) + " not found at '"@ + s + "'"@,
        (ConfigErrorView::InvalidRoot { path: s }).message() == "route root '"@ + s
            + "' is not a valid directory"@,
        ConfigErrorView::InvalidPort(port as u32).message() == "port "@ + text::decimal(port as nat)
            + " is out of valid range 1–65535"@,
        (ConfigErrorView::DuplicateDirective { directive: s, first_line: n, line: m }).message()
            == "directive '"@ + s + "' is set more than once (line "@ + text::decimal(m as nat)
            + "; first seen at line "@ + text::decimal(n as nat) + ")"@,
{
}

} // verus!
