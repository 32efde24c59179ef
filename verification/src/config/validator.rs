//! Checks on a configuration that has been read: what it says must make sense
//! as a whole, and the files it speaks of must exist.

use vstd::prelude::*;
use vstd::string::*;

use crate::config::types;
use crate::config::types::{ConfigError, ConfigErrorView, ServerConfig, ServerView};
use crate::text;

verus! {

broadcast use vstd::std_specs::hash::group_hash_axioms;

// ---------------------------------------------------------------------------
// The disk
// ---------------------------------------------------------------------------

/// What was found on disk: the paths that name a file, and those that name a
/// directory, among the paths that the configuration speaks of.
#[derive(Debug)]
pub struct DiskFacts {
    pub files: Vec<String>,
    pub directories: Vec<String>,
}

/// [`DiskFacts`] with texts for its strings.
pub struct DiskView {
    pub files: Seq<Seq<char>>,
    pub directories: Seq<Seq<char>>,
}

impl View for DiskFacts {
    type V = DiskView;

    open spec fn view(&self) -> DiskView {
        DiskView { files: text::views(self.files@), directories: text::views(self.directories@) }
    }
}

/// The view of optional facts.
pub open spec fn disk_view(disk: Option<&DiskFacts>) -> Option<DiskView> {
    match disk {
        Some(d) => Some(d@),
        None => None,
    }
}

// ---------------------------------------------------------------------------
// What makes a configuration faulty
// ---------------------------------------------------------------------------

/// A server that listens on no port.
pub open spec fn portless(c: Seq<ServerView>, i: int) -> bool {
    0 <= i < c.len() && c[i].ports.len() == 0
}

/// The error for a server that listens on no port.
pub open spec fn portless_error(c: Seq<ServerView>, i: int) -> ConfigErrorView {
    ConfigErrorView::MissingDirective {
        directive: "port"@,
        context: "server block #"@ + text::decimal((i + 1) as nat) + " (host: "@ + c[i].host + ")"@,
    }
}

/// A server listens on an address and port.
pub open spec fn claims(s: ServerView, host: Seq<char>, port: u16) -> bool {
    s.host == host && s.ports.contains(port)
}

/// The names of one server do not tell it apart from another: it has none, or
/// the two have one in common.
pub open spec fn ambiguous(a: ServerView, b: ServerView) -> bool {
    ||| a.server_names.len() == 0
    ||| exists|n: Seq<char>| #[trigger] a.server_names.contains(n) && b.server_names.contains(n)
}

/// An address and port that more than one server claims, where the names do not
/// decide between them.
pub open spec fn conflict(c: Seq<ServerView>, host: Seq<char>, port: u16) -> bool {
    exists|i: int, j: int|
        0 <= i < c.len() && 0 <= j < c.len() && i != j && claims(#[trigger] c[i], host, port)
            && claims(#[trigger] c[j], host, port) && ambiguous(c[i], c[j])
}

/// A custom error page that is no file on disk.
pub open spec fn missing_page(c: Seq<ServerView>, disk: Option<DiskView>, i: int, code: u16) -> bool {
    &&& disk matches Some(d)
    &&& 0 <= i < c.len()
    &&& c[i].error_pages.dom().contains(code)
    &&& !d.files.contains(c[i].error_pages[code])
}

/// The root of a route that is no directory on disk.
pub open spec fn missing_root(c: Seq<ServerView>, disk: Option<DiskView>, i: int, j: int) -> bool {
    &&& disk matches Some(d)
    &&& 0 <= i < c.len()
    &&& 0 <= j < c[i].routes.len()
    &&& c[i].routes[j].root matches Some(root)
    &&& !d.directories.contains(root)
}

/// A redirect to a target that is empty but for white space.
pub open spec fn blank_redirect(c: Seq<ServerView>, i: int, j: int) -> bool {
    &&& 0 <= i < c.len()
    &&& 0 <= j < c[i].routes.len()
    &&& c[i].routes[j].redirect matches Some(r)
    &&& text::trim(r.target).len() == 0
}

/// The error for a blank redirect.
pub open spec fn blank_redirect_error() -> ConfigErrorView {
    ConfigErrorView::InvalidValue {
        field: "redirect target"@,
        value: Seq::empty(),
        reason: "redirect target URL must not be empty"@,
    }
}

/// What is wrong with an interpreter, if anything: its path must be absolute,
/// and name a file on disk.
pub open spec fn interpreter_error(path: Seq<char>, disk: Option<DiskView>) -> Option<
    ConfigErrorView,
> {
    if !(path.len() > 0 && path[0] == '/') {
        Some(
            ConfigErrorView::InvalidValue {
                field: "cgi interpreter"@,
                value: path,
                reason: "CGI interpreter path must be absolute (start with '/')"@,
            },
        )
    } else if disk is Some && !disk->0.files.contains(path) {
        Some(
            ConfigErrorView::InvalidValue {
                field: "cgi interpreter"@,
                value: path,
                reason: "CGI interpreter not found on disk"@,
            },
        )
    } else {
        None
    }
}

/// An interpreter that something is wrong with.
pub open spec fn bad_interpreter(
    c: Seq<ServerView>,
    disk: Option<DiskView>,
    i: int,
    j: int,
    ext: Seq<char>,
) -> bool {
    &&& 0 <= i < c.len()
    &&& 0 <= j < c[i].routes.len()
    &&& c[i].routes[j].cgi_extensions.dom().contains(ext)
    &&& interpreter_error(c[i].routes[j].cgi_extensions[ext], disk) is Some
}

/// A configuration without faults. Where nothing is known of the disk, files
/// and directories are taken to be there.
pub open spec fn valid(c: Seq<ServerView>, disk: Option<DiskView>) -> bool {
    &&& forall|i: int| !#[trigger] portless(c, i)
    &&& forall|h: Seq<char>, p: u16| !#[trigger] conflict(c, h, p)
    &&& forall|i: int, code: u16| !#[trigger] missing_page(c, disk, i, code)
    &&& forall|i: int, j: int| !#[trigger] missing_root(c, disk, i, j)
    &&& forall|i: int, j: int| !#[trigger] blank_redirect(c, i, j)
    &&& forall|i: int, j: int, ext: Seq<char>| !#[trigger] bad_interpreter(c, disk, i, j, ext)
}

/// The fault that `e` reports is there, and no fault of an earlier kind is.
/// Of the servers without ports, and of the missing roots, the first is
/// reported; of the missing pages, one of the first server with any; and of the
/// bad interpreters, one of the first route with any.
pub open spec fn refused(c: Seq<ServerView>, disk: Option<DiskView>, e: ConfigErrorView) -> bool {
    if exists|i: int| #[trigger] portless(c, i) {
        exists|i: int| #[trigger]
            portless(c, i) && e == portless_error(c, i) && forall|k: int|
                0 <= k < i ==> !#[trigger] portless(c, k)
    } else if exists|h: Seq<char>, p: u16| #[trigger] conflict(c, h, p) {
        exists|h: Seq<char>, p: u16| #[trigger]
            conflict(c, h, p) && e == (ConfigErrorView::DuplicateHostPort { host: h, port: p })
    } else if exists|i: int, code: u16| #[trigger] missing_page(c, disk, i, code) {
        exists|i: int, code: u16| #[trigger]
            missing_page(c, disk, i, code) && e == (ConfigErrorView::ErrorPageNotFound {
                code,
                path: c[i].error_pages[code],
            }) && forall|k: int, other: u16| k < i ==> !#[trigger] missing_page(c, disk, k, other)
    } else if exists|i: int, j: int| #[trigger] missing_root(c, disk, i, j) {
        exists|i: int, j: int| #[trigger]
            missing_root(c, disk, i, j) && e == (ConfigErrorView::InvalidRoot {
                path: c[i].routes[j].root->0,
            }) && forall|k: int, l: int|
                k < i || (k == i && l < j) ==> !#[trigger] missing_root(c, disk, k, l)
    } else if exists|i: int, j: int| #[trigger] blank_redirect(c, i, j) {
        e == blank_redirect_error()
    } else {
        exists|i: int, j: int, ext: Seq<char>| #[trigger]
            bad_interpreter(c, disk, i, j, ext) && interpreter_error(
                c[i].routes[j].cgi_extensions[ext],
                disk,
            ) == Some(e) && forall|k: int, l: int, other: Seq<char>|
                k < i || (k == i && l < j) ==> !#[trigger] bad_interpreter(c, disk, k, l, other)
    }
}

// ---------------------------------------------------------------------------
// The checks
// ---------------------------------------------------------------------------

/// Whether a string is in a list.
fn listed(v: &Vec<String>, s: &str) -> (r: bool)
    ensures
        r == text::views(v@).contains(s@),
{
    let mut i: usize = 0;
    while i < v.len()
        invariant
            i <= v@.len(),
            forall|k: int| 0 <= k < i ==> (#[trigger] v@[k])@ != s@,
        decreases v@.len() - i,
    {
        if text::same(v[i].as_str(), s) {
            assert(text::views(v@)[i as int] == s@);
            return true;
        }
        i = i + 1;
    }
    proof {
        if text::views(v@).contains(s@) {
            let k = choose|k: int| 0 <= k < v@.len() && text::views(v@)[k] == s@;
            assert(v@[k]@ == s@);
        }
    }
    false
}

/// Every server must listen on a port.
fn check_non_empty_ports(configs: &[ServerConfig]) -> (r: Result<(), ConfigError>)
    ensures
        match r {
            Ok(_) => forall|i: int| !#[trigger] portless(types::server_views(configs@), i),
            Err(e) => exists|i: int| #[trigger]
                portless(types::server_views(configs@), i) && e@ == portless_error(
                    types::server_views(configs@),
                    i,
                ) && forall|k: int|
                    0 <= k < i ==> !#[trigger] portless(types::server_views(configs@), k),
        },
{
    let ghost c = types::server_views(configs@);
    let mut i: usize = 0;
    while i < configs.len()
        invariant
            i <= configs@.len(),
            c == types::server_views(configs@),
            forall|k: int| 0 <= k < i ==> !#[trigger] portless(c, k),
        decreases configs@.len() - i,
    {
        let server = &configs[i];
        assert(c[i as int] == server@);
        if server.ports.len() == 0 {
            let mut context = text::owned("server block #");
            context.append(text::decimal_text(i as u64 + 1).as_str());
            context.append(" (host: ");
            context.append(server.host.as_str());
            context.append(")");
            assert(portless(c, i as int));
            return Err(ConfigError::MissingDirective { directive: "port", context });
        }
        i = i + 1;
    }
    Ok(())
}

/// Whether a list of ports holds a port.
fn has_port(ports: &Vec<u16>, port: u16) -> (r: bool)
    ensures
        r == ports@.contains(port),
{
    let mut l: usize = 0;
    while l < ports.len()
        invariant
            l <= ports@.len(),
            forall|k: int| 0 <= k < l ==> ports@[k] != port,
        decreases ports@.len() - l,
    {
        if ports[l] == port {
            assert(ports@[l as int] == port);
            return true;
        }
        l = l + 1;
    }
    false
}

/// Decides [`ambiguous`].
fn names_ambiguous(a: &ServerConfig, b: &ServerConfig) -> (r: bool)
    ensures
        r == ambiguous(a@, b@),
{
    let ghost x = text::views(a.server_names@);
    if a.server_names.len() == 0 {
        return true;
    }
    let mut n: usize = 0;
    while n < a.server_names.len()
        invariant
            n <= a.server_names@.len(),
            x == text::views(a.server_names@),
            x == a@.server_names,
            forall|k: int| 0 <= k < n ==> !b@.server_names.contains(#[trigger] x[k]),
        decreases a.server_names@.len() - n,
    {
        let name: &str = a.server_names[n].as_str();
        assert(x[n as int] == name@);
        if listed(&b.server_names, name) {
            assert(a@.server_names.contains(name@));
            return true;
        }
        n = n + 1;
    }
    proof {
        assert forall|m: Seq<char>| #[trigger] a@.server_names.contains(m) implies
            !b@.server_names.contains(m) by {
            let k = choose|k: int| 0 <= k < x.len() && x[k] == m;
        }
    }
    false
}

/// No address and port may be claimed by more than one server, unless names
/// decide.
fn check_duplicate_host_ports(configs: &[ServerConfig]) -> (r: Result<(), ConfigError>)
    ensures
        match r {
            Ok(_) => forall|h: Seq<char>, p: u16| !#[trigger]
                conflict(types::server_views(configs@), h, p),
            Err(e) => exists|h: Seq<char>, p: u16| #[trigger]
                conflict(types::server_views(configs@), h, p) && e@ == (
                ConfigErrorView::DuplicateHostPort { host: h, port: p }),
        },
{
    let ghost c = types::server_views(configs@);
    let mut i: usize = 0;
    while i < configs.len()
        invariant
            i <= configs@.len(),
            c == types::server_views(configs@),
            forall|a: int, b: int, p: u16| #![trigger c[a].ports.contains(p), c[b]]
                0 <= a < i && 0 <= b < c.len() && a != b && c[a].ports.contains(p) && claims(
                    c[b],
                    c[a].host,
                    p,
                ) ==> !ambiguous(c[a], c[b]),
        decreases configs@.len() - i,
    {
        let server = &configs[i];
        assert(c[i as int] == server@);
        let mut k: usize = 0;
        while k < server.ports.len()
            invariant
                k <= server.ports@.len(),
                i < configs@.len(),
                c == types::server_views(configs@),
                c[i as int] == server@,
                server == configs@[i as int],
                forall|a: int, b: int| #![trigger server.ports@[a], c[b]]
                    0 <= a < k && 0 <= b < c.len() && b != i && claims(
                        c[b],
                        server@.host,
                        server.ports@[a],
                    ) ==> !ambiguous(server@, c[b]),
            decreases server.ports@.len() - k,
        {
            let port: u16 = server.ports[k];
            let mut j: usize = 0;
            while j < configs.len()
                invariant
                    j <= configs@.len(),
                    i < configs@.len(),
                    k < server.ports@.len(),
                    port == server.ports@[k as int],
                    c == types::server_views(configs@),
                    c[i as int] == server@,
                    server == configs@[i as int],
                    forall|b: int| 0 <= b < j && b != i && claims(#[trigger] c[b], server@.host, port)
                        ==> !ambiguous(server@, c[b]),
                decreases configs@.len() - j,
            {
                let other = &configs[j];
                assert(c[j as int] == other@);
                if j != i && text::same(other.host.as_str(), server.host.as_str()) && has_port(
                    &other.ports,
                    port,
                ) && names_ambiguous(server, other) {
                    proof {
                        assert(server@.ports.contains(port));
                        assert(claims(c[i as int], server@.host, port));
                        assert(claims(c[j as int], server@.host, port));
                        assert(conflict(c, server@.host, port));
                    }
                    return Err(ConfigError::DuplicateHostPort { host: server.host.clone(), port });
                }
                j = j + 1;
            }
            k = k + 1;
        }
        proof {
            assert forall|b: int, p: u16| #![trigger c[i as int].ports.contains(p), c[b]]
                0 <= b < c.len() && i != b && c[i as int].ports.contains(p) && claims(
                    c[b],
                    c[i as int].host,
                    p,
                ) implies !ambiguous(c[i as int], c[b]) by {
                let a = choose|a: int| 0 <= a < server@.ports.len() && server@.ports[a] == p;
                assert(server.ports@[a] == p);
            }
        }
        i = i + 1;
    }
    proof {
        assert forall|h: Seq<char>, p: u16| !#[trigger] conflict(c, h, p) by {
            if conflict(c, h, p) {
                let (a, b) = choose|a: int, b: int|
                    0 <= a < c.len() && 0 <= b < c.len() && a != b && claims(#[trigger] c[a], h, p)
                        && claims(#[trigger] c[b], h, p) && ambiguous(c[a], c[b]);
                assert(c[a].ports.contains(p));
                assert(false);
            }
        }
    }
    Ok(())
}

/// Every custom error page must be a file.
fn check_error_pages(configs: &[ServerConfig], disk: Option<&DiskFacts>) -> (r: Result<
    (),
    ConfigError,
>)
    ensures
        match r {
            Ok(_) => forall|i: int, code: u16| !#[trigger]
                missing_page(types::server_views(configs@), disk_view(disk), i, code),
            Err(e) => exists|i: int, code: u16| #[trigger]
                missing_page(types::server_views(configs@), disk_view(disk), i, code) && e@ == (
                ConfigErrorView::ErrorPageNotFound {
                    code,
                    path: types::server_views(configs@)[i].error_pages[code],
                }) && forall|k: int, other: u16|
                    k < i ==> !#[trigger] missing_page(
                        types::server_views(configs@),
                        disk_view(disk),
                        k,
                        other,
                    ),
        },
{
    let ghost c = types::server_views(configs@);
    let found = match disk {
        Some(d) => d,
        None => {
            return Ok(());
        },
    };
    let mut i: usize = 0;
    while i < configs.len()
        invariant
            i <= configs@.len(),
            c == types::server_views(configs@),
            disk == Some(found),
            forall|k: int, code: u16| k < i ==> !#[trigger]
                missing_page(c, disk_view(disk), k, code),
        decreases configs@.len() - i,
    {
        let server = &configs[i];
        assert(c[i as int] == server@);
        let ghost pages = server.error_pages@;
        for (code, path) in it: server.error_pages.iter()
            invariant
                i < configs@.len(),
                c == types::server_views(configs@),
                c[i as int] == server@,
                server == configs@[i as int],
                disk == Some(found),
                forall|k: int, code: u16| k < i ==> !#[trigger]
                    missing_page(c, disk_view(disk), k, code),
                pages == server.error_pages@,
                forall|k: u16| #[trigger] pages.contains_key(k) ==> it.seq().contains(
                    (&k, &pages[k]),
                ),
                forall|n: int| 0 <= n < it.seq().len() ==> pages.contains_key(
                    *(#[trigger] it.seq()[n]).0,
                ) && pages[*it.seq()[n].0] == *it.seq()[n].1,
                forall|n: int| 0 <= n < it.index() ==> found@.files.contains(
                    (#[trigger] it.seq()[n]).1@,
                ),
        {
            if !listed(&found.files, path.as_str()) {
                proof {
                    assert(pages.contains_key(*code) && pages[*code] == *path);
                    assert(c[i as int].error_pages[*code] == path@);
                    assert(missing_page(c, disk_view(disk), i as int, *code));
                }
                return Err(ConfigError::ErrorPageNotFound { code: *code, path: path.clone() });
            }
        }
        proof {
            assert forall|code: u16| !#[trigger] missing_page(
                c,
                disk_view(disk),
                i as int,
                code,
            ) by {
                if missing_page(c, disk_view(disk), i as int, code) {
                    assert(pages.contains_key(code));
                }
            }
        }
        i = i + 1;
    }
    Ok(())
}

/// The root of every route must be a directory.
fn check_route_roots(configs: &[ServerConfig], disk: Option<&DiskFacts>) -> (r: Result<
    (),
    ConfigError,
>)
    ensures
        match r {
            Ok(_) => forall|i: int, j: int| !#[trigger]
                missing_root(types::server_views(configs@), disk_view(disk), i, j),
            Err(e) => exists|i: int, j: int| #[trigger]
                missing_root(types::server_views(configs@), disk_view(disk), i, j) && e@ == (
                ConfigErrorView::InvalidRoot {
                    path: types::server_views(configs@)[i].routes[j].root->0,
                }) && forall|k: int, l: int|
                    k < i || (k == i && l < j) ==> !#[trigger] missing_root(
                        types::server_views(configs@),
                        disk_view(disk),
                        k,
                        l,
                    ),
        },
{
    let ghost c = types::server_views(configs@);
    let found = match disk {
        Some(d) => d,
        None => {
            return Ok(());
        },
    };
    let mut i: usize = 0;
    while i < configs.len()
        invariant
            i <= configs@.len(),
            c == types::server_views(configs@),
            disk == Some(found),
            forall|k: int, l: int| k < i ==> !#[trigger] missing_root(c, disk_view(disk), k, l),
        decreases configs@.len() - i,
    {
        let server = &configs[i];
        assert(c[i as int] == server@);
        let mut j: usize = 0;
        while j < server.routes.len()
            invariant
                j <= server.routes@.len(),
                i < configs@.len(),
                c == types::server_views(configs@),
                c[i as int] == server@,
                disk == Some(found),
                forall|k: int, l: int|
                    k < i || (k == i && l < j) ==> !#[trigger] missing_root(
                        c,
                        disk_view(disk),
                        k,
                        l,
                    ),
            decreases server.routes@.len() - j,
        {
            let route = &server.routes[j];
            assert(server@.routes[j as int] == route@);
            if let Some(root) = &route.root {
                if !listed(&found.directories, root.as_str()) {
                    assert(missing_root(c, disk_view(disk), i as int, j as int));
                    return Err(ConfigError::InvalidRoot { path: root.clone() });
                }
            }
            j = j + 1;
        }
        i = i + 1;
    }
    Ok(())
}

/// Every redirect must have a target.
fn check_redirects(configs: &[ServerConfig]) -> (r: Result<(), ConfigError>)
    ensures
        match r {
            Ok(_) => forall|i: int, j: int| !#[trigger]
                blank_redirect(types::server_views(configs@), i, j),
            Err(e) => e@ == blank_redirect_error() && exists|i: int, j: int| #[trigger]
                blank_redirect(types::server_views(configs@), i, j),
        },
{
    let ghost c = types::server_views(configs@);
    let mut i: usize = 0;
    while i < configs.len()
        invariant
            i <= configs@.len(),
            c == types::server_views(configs@),
            forall|k: int, l: int| k < i ==> !#[trigger] blank_redirect(c, k, l),
        decreases configs@.len() - i,
    {
        let server = &configs[i];
        assert(c[i as int] == server@);
        let mut j: usize = 0;
        while j < server.routes.len()
            invariant
                j <= server.routes@.len(),
                i < configs@.len(),
                c == types::server_views(configs@),
                c[i as int] == server@,
                forall|k: int, l: int|
                    k < i || (k == i && l < j) ==> !#[trigger] blank_redirect(c, k, l),
            decreases server.routes@.len() - j,
        {
            let route = &server.routes[j];
            assert(server@.routes[j as int] == route@);
            if let Some(redirect) = &route.redirect {
                let target = text::trimmed(redirect.target.as_str());
                if text::chars_of(target).len() == 0 {
                    assert(blank_redirect(c, i as int, j as int));
                    let value = String::new();
                    return Err(
                        ConfigError::InvalidValue {
                            field: "redirect target",
                            value,
                            reason: "redirect target URL must not be empty",
                        },
                    );
                }
            }
            j = j + 1;
        }
        i = i + 1;
    }
    Ok(())
}

/// What is wrong with an interpreter, if anything.
fn check_interpreter(path: &str, disk: Option<&DiskFacts>) -> (r: Result<(), ConfigError>)
    ensures
        match r {
            Ok(_) => interpreter_error(path@, disk_view(disk)) is None,
            Err(e) => interpreter_error(path@, disk_view(disk)) == Some(e@),
        },
{
    proof {
        reveal_strlit("/");
    }
    let v = text::chars_of(path);
    if !(v.len() > 0 && v[0] == '/') {
        return Err(
            ConfigError::InvalidValue {
                field: "cgi interpreter",
                value: text::owned(path),
                reason: "CGI interpreter path must be absolute (start with '/')",
            },
        );
    }
    if let Some(found) = disk {
        if !listed(&found.files, path) {
            return Err(
                ConfigError::InvalidValue {
                    field: "cgi interpreter",
                    value: text::owned(path),
                    reason: "CGI interpreter not found on disk",
                },
            );
        }
    }
    Ok(())
}

/// Interpreters must be absolute paths of files.
fn check_cgi_interpreters(configs: &[ServerConfig], disk: Option<&DiskFacts>) -> (r: Result<
    (),
    ConfigError,
>)
    ensures
        match r {
            Ok(_) => forall|i: int, j: int, ext: Seq<char>| !#[trigger]
                bad_interpreter(types::server_views(configs@), disk_view(disk), i, j, ext),
            Err(e) => exists|i: int, j: int, ext: Seq<char>| #[trigger]
                bad_interpreter(types::server_views(configs@), disk_view(disk), i, j, ext)
                    && interpreter_error(
                    types::server_views(configs@)[i].routes[j].cgi_extensions[ext],
                    disk_view(disk),
                ) == Some(e@) && forall|k: int, l: int, other: Seq<char>|
                    k < i || (k == i && l < j) ==> !#[trigger] bad_interpreter(
                        types::server_views(configs@),
                        disk_view(disk),
                        k,
                        l,
                        other,
                    ),
        },
{
    let ghost c = types::server_views(configs@);
    let mut i: usize = 0;
    while i < configs.len()
        invariant
            i <= configs@.len(),
            c == types::server_views(configs@),
            forall|k: int, l: int, ext: Seq<char>|
                k < i ==> !#[trigger] bad_interpreter(c, disk_view(disk), k, l, ext),
        decreases configs@.len() - i,
    {
        let server = &configs[i];
        assert(c[i as int] == server@);
        let mut j: usize = 0;
        while j < server.routes.len()
            invariant
                j <= server.routes@.len(),
                i < configs@.len(),
                c == types::server_views(configs@),
                c[i as int] == server@,
                forall|k: int, l: int, ext: Seq<char>|
                    k < i || (k == i && l < j) ==> !#[trigger] bad_interpreter(
                        c,
                        disk_view(disk),
                        k,
                        l,
                        ext,
                    ),
            decreases server.routes@.len() - j,
        {
            let route = &server.routes[j];
            assert(server@.routes[j as int] == route@);
            let ghost exts = route.cgi_extensions@;
            let count: usize = route.cgi_extensions.len();
            let mut n: usize = 0;
            while n < count
                invariant
                    n <= count,
                    count == route.cgi_extensions.keys().len(),
                    j < server.routes@.len(),
                    i < configs@.len(),
                    c == types::server_views(configs@),
                    c[i as int] == server@,
                    server@.routes[j as int] == route@,
                    forall|k: int, l: int, ext: Seq<char>|
                        k < i || (k == i && l < j) ==> !#[trigger] bad_interpreter(
                            c,
                            disk_view(disk),
                            k,
                            l,
                            ext,
                        ),
                    forall|m: int|
                        0 <= m < n ==> route@.cgi_extensions.dom().contains(
                            #[trigger] route.cgi_extensions.keys()[m],
                        ) && interpreter_error(
                            route@.cgi_extensions[route.cgi_extensions.keys()[m]],
                            disk_view(disk),
                        ) is None,
                decreases count - n,
            {
                let (ext, interpreter) = route.cgi_extensions.entry(n);
                assert(route@.cgi_extensions[ext@] == interpreter@);
                if let Err(e) = check_interpreter(interpreter.as_str(), disk) {
                    assert(bad_interpreter(c, disk_view(disk), i as int, j as int, ext@));
                    return Err(e);
                }
                n = n + 1;
            }
            proof {
                assert forall|ext: Seq<char>| !#[trigger] bad_interpreter(
                    c,
                    disk_view(disk),
                    i as int,
                    j as int,
                    ext,
                ) by {
                    if bad_interpreter(c, disk_view(disk), i as int, j as int, ext) {
                        assert(exts.dom().contains(ext));
                        let keys = route.cgi_extensions.keys();
                        assert(keys.contains(ext));
                        let m = choose|m: int| 0 <= m < keys.len() && keys[m] == ext;
                        assert(keys[m] == ext);
                    }
                }
            }
            j = j + 1;
        }
        i = i + 1;
    }
    Ok(())
}

/// Validates a configuration. The checks are made in this order, and the first
/// that fails is reported:
///
/// 1. Every server has a port.
/// 2. No two claims to one address and port go undecided.
/// 3. All error pages are files.
/// 4. The root of every route is a directory.
/// 5. Redirects have a target.
/// 6. Interpreters are absolute paths of files.
///
/// Where `disk` is `None`, nothing is asked of files and directories.
pub fn validate(configs: &[ServerConfig], disk: Option<&DiskFacts>) -> (r: Result<(), ConfigError>)
    ensures
        match r {
            Ok(_) => valid(types::server_views(configs@), disk_view(disk)),
            Err(e) => !valid(types::server_views(configs@), disk_view(disk)) && refused(
                types::server_views(configs@),
                disk_view(disk),
                e@,
            ),
        },
{
    if let Err(e) = check_non_empty_ports(configs) {
        return Err(e);
    }
    if let Err(e) = check_duplicate_host_ports(configs) {
        return Err(e);
    }
    if let Err(e) = check_error_pages(configs, disk) {
        return Err(e);
    }
    if let Err(e) = check_route_roots(configs, disk) {
        return Err(e);
    }
    if let Err(e) = check_redirects(configs) {
        return Err(e);
    }
    check_cgi_interpreters(configs, disk)
}

// ---------------------------------------------------------------------------
// Laws
// ---------------------------------------------------------------------------

/// In a configuration without faults, servers that share an address and port
/// all have names, and no two of them have one in common.
pub proof fn lemma_names_decide(
    c: Seq<ServerView>,
    disk: Option<DiskView>,
    i: int,
    j: int,
    port: u16,
)
    requires
        valid(c, disk),
        0 <= i < c.len(),
        0 <= j < c.len(),
        c[i].host == c[j].host,
        c[i].ports.contains(port),
        c[j].ports.contains(port),
        i != j,
    ensures
        c[i].server_names.len() > 0 && forall|n: Seq<char>| #[trigger]
            c[i].server_names.contains(n) ==> !c[j].server_names.contains(n),
{
    assert(!conflict(c, c[i].host, port));
    assert(claims(c[i], c[i].host, port));
    assert(claims(c[j], c[i].host, port));
}

/// One server alone, on whatever ports and with whatever names, is in conflict
/// with nobody.
pub proof fn lemma_alone(s: ServerView, host: Seq<char>, port: u16)
    ensures
        !conflict(seq![s], host, port),
{
}

/// A configuration without faults is refused for no reason.
pub proof fn lemma_valid_not_refused(c: Seq<ServerView>, disk: Option<DiskView>, e: ConfigErrorView)
    requires
        valid(c, disk),
    ensures
        !refused(c, disk, e),
{
}

/// Whether a configuration makes sense: every server has a port; servers that
/// share an address and a port all have names, and none in common; the pages,
/// roots and interpreters are on the disk, where it was looked at; no redirect
/// leads nowhere; and the paths of interpreters begin with a slash.
pub open spec fn sensible(c: Seq<ServerView>, disk: Option<DiskView>) -> bool {
    &&& forall|i: int| 0 <= i < c.len() ==> (#[trigger] c[i]).ports.len() > 0
    &&& forall|i: int, j: int, p: u16|
        0 <= i < c.len() && 0 <= j < c.len() && i != j && (#[trigger] c[i]).host == (
        #[trigger] c[j]).host && #[trigger] c[i].ports.contains(p)
            && c[j].ports.contains(p) ==> c[i].server_names.len() > 0
    &&& forall|i: int, j: int, p: u16, n: Seq<char>|
        0 <= i < c.len() && 0 <= j < c.len() && i != j && (#[trigger] c[i]).host == (
        #[trigger] c[j]).host && #[trigger] c[i].ports.contains(p)
            && c[j].ports.contains(p) && #[trigger] c[i].server_names.contains(n)
            ==> !c[j].server_names.contains(n)
    &&& disk is Some ==> forall|i: int, code: u16|
        0 <= i < c.len() && #[trigger] c[i].error_pages.dom().contains(code)
            ==> disk->0.files.contains(c[i].error_pages[code])
    &&& disk is Some ==> forall|i: int, j: int|
        0 <= i < c.len() && 0 <= j < c[i].routes.len() && (#[trigger] c[i].routes[j]).root
            is Some ==> disk->0.directories.contains(c[i].routes[j].root->0)
    &&& forall|i: int, j: int|
        0 <= i < c.len() && 0 <= j < c[i].routes.len() && (#[trigger]
        c[i].routes[j]).redirect is Some ==> !text::all_white(
            c[i].routes[j].redirect->0.target,
        )
    &&& forall|i: int, j: int, ext: Seq<char>|
        0 <= i < c.len() && 0 <= j < c[i].routes.len() && #[trigger]
        c[i].routes[j].cgi_extensions.dom().contains(ext) ==> {
            let program = c[i].routes[j].cgi_extensions[ext];
            &&& program.len() > 0 && program[0] == '/'
            &&& disk is Some ==> disk->0.files.contains(program)
        }
}

/// A configuration is valid exactly where it makes sense.
pub proof fn lemma_valid(c: Seq<ServerView>, disk: Option<DiskView>)
    ensures
        valid(c, disk) <==> sensible(c, disk),
{
    if sensible(c, disk) {
        assert forall|i: int| !#[trigger] portless(c, i) by {
            if 0 <= i < c.len() {
                assert(c[i].ports.len() > 0);
            }
        }
        assert forall|h: Seq<char>, p: u16| !#[trigger] conflict(c, h, p) by {
            if conflict(c, h, p) {
                let (i, j) = choose|i: int, j: int|
                    0 <= i < c.len() && 0 <= j < c.len() && i != j && claims(#[trigger] c[i], h, p)
                        && claims(#[trigger] c[j], h, p) && ambiguous(c[i], c[j]);
                assert(c[i].ports.contains(p));
                if c[i].server_names.len() > 0 {
                    let n = choose|n: Seq<char>| #[trigger]
                        c[i].server_names.contains(n) && c[j].server_names.contains(n);
                    assert(c[i].server_names.contains(n));
                }
            }
        }
        assert forall|i: int, j: int| !#[trigger] blank_redirect(c, i, j) by {
            if blank_redirect(c, i, j) {
                text::lemma_trimmed_away(c[i].routes[j].redirect->0.target);
            }
        }
    }
    if valid(c, disk) {
        assert forall|i: int| 0 <= i < c.len() implies (#[trigger] c[i]).ports.len() > 0 by {
            assert(!portless(c, i));
        }
        assert forall|i: int, j: int, p: u16|
            0 <= i < c.len() && 0 <= j < c.len() && i != j && (#[trigger] c[i]).host == (#[trigger]
            c[j]).host && #[trigger] c[i].ports.contains(p) && c[j].ports.contains(
                p,
            ) implies c[i].server_names.len() > 0 by {
            lemma_names_decide(c, disk, i, j, p);
        }
        assert forall|i: int, j: int, p: u16, n: Seq<char>|
            0 <= i < c.len() && 0 <= j < c.len() && i != j && (#[trigger] c[i]).host == (#[trigger]
            c[j]).host && #[trigger] c[i].ports.contains(p) && c[j].ports.contains(p) && #[trigger]
            c[i].server_names.contains(n) implies !c[j].server_names.contains(n) by {
            lemma_names_decide(c, disk, i, j, p);
        }
        if disk is Some {
            assert forall|i: int, code: u16|
                0 <= i < c.len() && #[trigger] c[i].error_pages.dom().contains(
                    code,
                ) implies disk->0.files.contains(c[i].error_pages[code]) by {
                assert(!missing_page(c, disk, i, code));
            }
            assert forall|i: int, j: int|
                0 <= i < c.len() && 0 <= j < c[i].routes.len() && (#[trigger] c[i].routes[j]).root
                    is Some implies disk->0.directories.contains(c[i].routes[j].root->0) by {
                assert(!missing_root(c, disk, i, j));
            }
        }
        assert forall|i: int, j: int|
            0 <= i < c.len() && 0 <= j < c[i].routes.len() && (#[trigger] c[i].routes[j]).redirect
                is Some implies !text::all_white(c[i].routes[j].redirect->0.target) by {
            assert(!blank_redirect(c, i, j));
            text::lemma_trimmed_away(c[i].routes[j].redirect->0.target);
        }
        assert forall|i: int, j: int, ext: Seq<char>|
            0 <= i < c.len() && 0 <= j < c[i].routes.len() && #[trigger]
            c[i].routes[j].cgi_extensions.dom().contains(ext) implies ({
            let program = c[i].routes[j].cgi_extensions[ext];
            &&& program.len() > 0 && program[0] == '/'
            &&& disk is Some ==> disk->0.files.contains(program)
        }) by {
            assert(!bad_interpreter(c, disk, i, j, ext));
        }
    }
}

/// The first server without a port is named, by its place and its address,
/// whatever else is wrong.
pub proof fn lemma_portless_first(
    c: Seq<ServerView>,
    disk: Option<DiskView>,
    i: int,
    e: ConfigErrorView,
)
    requires
        0 <= i < c.len(),
        c[i].ports.len() == 0,
        forall|k: int| 0 <= k < i ==> (#[trigger] c[k]).ports.len() > 0,
    ensures
        refused(c, disk, e) <==> e == (ConfigErrorView::MissingDirective {
            directive: "port"@,
            context: "server block #"@ + text::decimal((i + 1) as nat) + " (host: "@ + c[i].host
                + ")"@,
        }),
{
    assert(portless(c, i));
    assert forall|k: int| 0 <= k < i implies !#[trigger] portless(c, k) by {
        assert(c[k].ports.len() > 0);
    }
    if refused(c, disk, e) {
        let k = choose|k: int| #[trigger]
            portless(c, k) && e == portless_error(c, k) && forall|l: int|
                0 <= l < k ==> !#[trigger] portless(c, l);
        assert(!portless(c, i) || k <= i);
    }
}

/// Where every server has a port, servers that cannot be told apart are refused
/// with an address and a port that two of them share.
pub proof fn lemma_conflict_next(
    c: Seq<ServerView>,
    disk: Option<DiskView>,
    i: int,
    j: int,
    p: u16,
    e: ConfigErrorView,
)
    requires
        forall|k: int| 0 <= k < c.len() ==> (#[trigger] c[k]).ports.len() > 0,
        0 <= i < c.len(),
        0 <= j < c.len(),
        i != j,
        c[i].host == c[j].host,
        c[i].ports.contains(p),
        c[j].ports.contains(p),
        c[i].server_names.len() == 0,
        refused(c, disk, e),
    ensures
        exists|k: int, l: int, q: u16|
            0 <= k < c.len() && 0 <= l < c.len() && k != l && (#[trigger] c[k]).host == (#[trigger]
            c[l]).host && #[trigger] c[k].ports.contains(q) && c[l].ports.contains(q) && e == (
            ConfigErrorView::DuplicateHostPort { host: c[k].host, port: q }),
{
    assert forall|k: int| !#[trigger] portless(c, k) by {
        if 0 <= k < c.len() {
            assert(c[k].ports.len() > 0);
        }
    }
    let host = c[i].host;
    assert(claims(c[i], host, p) && claims(c[j], host, p) && ambiguous(c[i], c[j]));
    assert(conflict(c, host, p));
    let (h, q) = choose|h: Seq<char>, q: u16| #[trigger]
        conflict(c, h, q) && e == (ConfigErrorView::DuplicateHostPort { host: h, port: q });
    let (k, l) = choose|k: int, l: int|
        0 <= k < c.len() && 0 <= l < c.len() && k != l && claims(#[trigger] c[k], h, q) && claims(
            #[trigger] c[l],
            h,
            q,
        ) && ambiguous(c[k], c[l]);
    assert(c[k].host == c[l].host && c[k].ports.contains(q) && c[l].ports.contains(q));
}

/// An interpreter whose path does not begin with a slash is refused before the
/// disk is looked at, and one that is not there after that.
pub proof fn lemma_interpreters(path: Seq<char>, disk: Option<DiskView>)
    ensures
        path.len() == 0 || path[0] != '/' ==> interpreter_error(path, disk) == Some(
            ConfigErrorView::InvalidValue {
                field: "cgi interpreter"@,
                value: path,
                reason: "CGI interpreter path must be absolute (start with '/')"@,
            },
        ),
        path.len() > 0 && path[0] == '/' && disk is Some && !disk->0.files.contains(path)
            ==> interpreter_error(path, disk) == Some(
            ConfigErrorView::InvalidValue {
                field: "cgi interpreter"@,
                value: path,
                reason: "CGI interpreter not found on disk"@,
            },
        ),
        path.len() > 0 && path[0] == '/' && (disk is None || disk->0.files.contains(path))
            ==> interpreter_error(path, disk) is None,
{
}

} // verus!
