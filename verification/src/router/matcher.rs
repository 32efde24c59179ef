//! Which server answers a request, and which of its routes.

use vstd::prelude::*;
use vstd::string::*;
use vstd::utf8::encode_utf8;

use crate::config::types;
use crate::config::types::{RouteConfig, RouteView, ServerConfig, ServerView};
use crate::text;

verus! {

// ---------------------------------------------------------------------------
// Servers
// ---------------------------------------------------------------------------

/// A `Host` header without the port.
pub open spec fn host_part(header: Seq<char>) -> Seq<char> {
    header.take(text::index_of(header, ':'))
}

/// A server has a name equal to the host, but for the case of letters.
pub open spec fn named(s: ServerView, host: Seq<char>) -> bool {
    exists|n: int|
        0 <= n < s.server_names.len() && text::equal_ignoring_case(
            #[trigger] s.server_names[n],
            host,
        )
}

/// A name such as `*.example.com` covers the hosts under `example.com`: those
/// that end in what follows the star, and have something before it.
pub open spec fn covers(name: Seq<char>, host: Seq<char>) -> bool {
    &&& text::starts_with(name, "*."@)
    &&& text::ends_with(host, name.skip(1))
    &&& host.len() > name.len() - 1
}

/// A server has a name with a star that covers the host.
pub open spec fn wildcard(s: ServerView, host: Seq<char>) -> bool {
    exists|n: int| 0 <= n < s.server_names.len() && covers(#[trigger] s.server_names[n], host)
}

/// The first position from `i` on whose server has a property.
pub open spec fn first_server(c: Seq<ServerView>, i: int, f: spec_fn(ServerView) -> bool) -> Option<
    int,
>
    decreases c.len() - i,
{
    if i < 0 || i >= c.len() {
        None
    } else if f(c[i]) {
        Some(i)
    } else {
        first_server(c, i + 1, f)
    }
}

/// The position of the server that answers: of those on the port, the first
/// with the host among its names, else the first with a name that covers it,
/// else the first of all; and where no server is on the port, the first server.
pub open spec fn selected(c: Seq<ServerView>, header: Seq<char>, port: u16) -> int {
    let host = host_part(header);
    match first_server(c, 0, |s: ServerView| s.ports.contains(port) && named(s, host)) {
        Some(i) => i,
        None => match first_server(
            c,
            0,
            |s: ServerView| s.ports.contains(port) && wildcard(s, host),
        ) {
            Some(i) => i,
            None => match first_server(c, 0, |s: ServerView| s.ports.contains(port)) {
                Some(i) => i,
                None => 0,
            },
        },
    }
}

/// [`first_server`] is the least position with the property.
pub proof fn lemma_first_server(c: Seq<ServerView>, i: int, f: spec_fn(ServerView) -> bool)
    requires
        0 <= i,
    ensures
        first_server(c, i, f) matches Some(k) ==> i <= k < c.len() && f(c[k]) && forall|j: int|
            i <= j < k ==> !#[trigger] f(c[j]),
        first_server(c, i, f) is None ==> forall|j: int| i <= j < c.len() ==> !#[trigger] f(c[j]),
    decreases c.len() - i,
{
    if i < c.len() && !f(c[i]) {
        lemma_first_server(c, i + 1, f);
    }
}

/// The server that answers is one of the configured ones; it is on the port
/// if any server is; and a server on the port that has the host's name is
/// never passed over for one that has not.
pub proof fn lemma_selected(c: Seq<ServerView>, header: Seq<char>, port: u16)
    requires
        c.len() > 0,
    ensures
        0 <= selected(c, header, port) < c.len(),
        (exists|i: int| 0 <= i < c.len() && (#[trigger] c[i]).ports.contains(port))
            ==> c[selected(c, header, port)].ports.contains(port),
        (exists|i: int|
            0 <= i < c.len() && (#[trigger] c[i]).ports.contains(port) && named(
                c[i],
                host_part(header),
            )) ==> named(c[selected(c, header, port)], host_part(header)),
{
    let host = host_part(header);
    let exact = |s: ServerView| s.ports.contains(port) && named(s, host);
    let wild = |s: ServerView| s.ports.contains(port) && wildcard(s, host);
    let any = |s: ServerView| s.ports.contains(port);
    lemma_first_server(c, 0, exact);
    lemma_first_server(c, 0, wild);
    lemma_first_server(c, 0, any);
    if exists|i: int| 0 <= i < c.len() && (#[trigger] c[i]).ports.contains(port) {
        let i = choose|i: int| 0 <= i < c.len() && (#[trigger] c[i]).ports.contains(port);
        assert(any(c[i]));
    }
    if exists|i: int|
        0 <= i < c.len() && (#[trigger] c[i]).ports.contains(port) && named(c[i], host) {
        let i = choose|i: int|
            0 <= i < c.len() && (#[trigger] c[i]).ports.contains(port) && named(c[i], host);
        assert(exact(c[i]));
    }
}

/// A name with a star covers every host under its domain, and neither the domain
/// itself nor a host that merely ends in its letters.
pub proof fn lemma_star(domain: Seq<char>, sub: Seq<char>)
    ensures
        sub.len() > 0 ==> covers("*."@ + domain, sub + "."@ + domain),
        !covers("*."@ + domain, domain),
        sub.len() > 0 && sub.last() != '.' ==> !covers("*."@ + domain, sub + domain),
{
    reveal_strlit("*.");
    reveal_strlit(".");
    let name = "*."@ + domain;
    let host = sub + "."@ + domain;
    assert(name.take(2) =~= "*."@);
    assert(name.skip(1) =~= "."@ + domain);
    assert(host.skip(sub.len() as int) =~= "."@ + domain);
    if sub.len() > 0 {
        let near = sub + domain;
        let at = near.len() - name.skip(1).len();
        assert(at == sub.len() - 1);
        assert(near.skip(at)[0] == sub.last());
        assert(name.skip(1)[0] == '.');
    }
}

fn on_port(s: &ServerConfig, port: u16) -> (r: bool)
    ensures
        r == s@.ports.contains(port),
{
    let mut i: usize = 0;
    while i < s.ports.len()
        invariant
            i <= s.ports@.len(),
            forall|k: int| 0 <= k < i ==> s.ports@[k] != port,
        decreases s.ports@.len() - i,
    {
        if s.ports[i] == port {
            assert(s@.ports.contains(port));
            return true;
        }
        i = i + 1;
    }
    false
}

fn has_name(s: &ServerConfig, host: &str) -> (r: bool)
    ensures
        r == named(s@, host@),
{
    let mut i: usize = 0;
    while i < s.server_names.len()
        invariant
            i <= s.server_names@.len(),
            forall|k: int|
                0 <= k < i ==> !text::equal_ignoring_case(
                    (#[trigger] s.server_names@[k])@,
                    host@,
                ),
        decreases s.server_names@.len() - i,
    {
        if text::eq_ignore_case(s.server_names[i].as_str(), host) {
            assert(text::equal_ignoring_case(s@.server_names[i as int], host@));
            return true;
        }
        i = i + 1;
    }
    proof {
        if named(s@, host@) {
            let n = choose|n: int|
                0 <= n < s@.server_names.len() && text::equal_ignoring_case(
                    #[trigger] s@.server_names[n],
                    host@,
                );
            assert(s.server_names@[n]@ == s@.server_names[n]);
        }
    }
    false
}

fn has_wildcard(s: &ServerConfig, host: &str) -> (r: bool)
    ensures
        r == wildcard(s@, host@),
{
    let mut i: usize = 0;
    while i < s.server_names.len()
        invariant
            i <= s.server_names@.len(),
            forall|k: int| 0 <= k < i ==> !covers((#[trigger] s.server_names@[k])@, host@),
        decreases s.server_names@.len() - i,
    {
        let name: &str = s.server_names[i].as_str();
        if text::has_prefix(name, "*.") {
            proof {
                reveal_strlit("*.");
                assert(name@.skip(1) == name@.subrange(1, name@.len() as int));
            }
            let n: usize = text::chars_of(name).len();
            if text::chars_of(host).len() > n - 1 && text::has_suffix(
                host,
                name.substring_char(1, n),
            ) {
                assert(covers(s@.server_names[i as int], host@));
                return true;
            }
        }
        i = i + 1;
    }
    proof {
        if wildcard(s@, host@) {
            let n = choose|n: int|
                0 <= n < s@.server_names.len() && covers(#[trigger] s@.server_names[n], host@);
            assert(s.server_names@[n]@ == s@.server_names[n]);
        }
    }
    false
}

/// A string up to the first colon.
fn before_colon<'a>(header: &'a str) -> (r: &'a str)
    ensures
        r@ == host_part(header@),
{
    let v = text::chars_of(header);
    let n: usize = text::find_char(v.as_slice(), ':');
    assert(header@.take(n as int) == header@.subrange(0, n as int));
    header.substring_char(0, n)
}

/// The position of the server that answers a request, by its `Host` header and
/// the port on which it came.
pub fn server_index(host_header: &str, port: u16, configs: &[ServerConfig]) -> (r: usize)
    requires
        configs@.len() > 0,
    ensures
        r == selected(types::server_views(configs@), host_header@, port),
        r < configs@.len(),
{
    let ghost c = types::server_views(configs@);
    let host = before_colon(host_header);
    let ghost exact = |s: ServerView| s.ports.contains(port) && named(s, host@);
    let ghost wild = |s: ServerView| s.ports.contains(port) && wildcard(s, host@);
    let ghost any = |s: ServerView| s.ports.contains(port);
    proof {
        lemma_selected(c, host_header@, port);
    }
    let mut i: usize = 0;
    while i < configs.len()
        invariant
            i <= configs@.len(),
            c == types::server_views(configs@),
            exact == (|s: ServerView| s.ports.contains(port) && named(s, host@)),
            host@ == host_part(host_header@),
            first_server(c, 0, exact) == first_server(c, i as int, exact),
            0 <= selected(c, host_header@, port) < c.len(),
        decreases configs@.len() - i,
    {
        assert(c[i as int] == configs@[i as int]@);
        if on_port(&configs[i], port) && has_name(&configs[i], host) {
            return i;
        }
        i = i + 1;
    }
    i = 0;
    while i < configs.len()
        invariant
            i <= configs@.len(),
            c == types::server_views(configs@),
            exact == (|s: ServerView| s.ports.contains(port) && named(s, host@)),
            wild == (|s: ServerView| s.ports.contains(port) && wildcard(s, host@)),
            host@ == host_part(host_header@),
            first_server(c, 0, exact) is None,
            first_server(c, 0, wild) == first_server(c, i as int, wild),
            0 <= selected(c, host_header@, port) < c.len(),
        decreases configs@.len() - i,
    {
        assert(c[i as int] == configs@[i as int]@);
        if on_port(&configs[i], port) && has_wildcard(&configs[i], host) {
            return i;
        }
        i = i + 1;
    }
    i = 0;
    while i < configs.len()
        invariant
            i <= configs@.len(),
            c == types::server_views(configs@),
            exact == (|s: ServerView| s.ports.contains(port) && named(s, host@)),
            wild == (|s: ServerView| s.ports.contains(port) && wildcard(s, host@)),
            any == (|s: ServerView| s.ports.contains(port)),
            host@ == host_part(host_header@),
            first_server(c, 0, exact) is None,
            first_server(c, 0, wild) is None,
            first_server(c, 0, any) == first_server(c, i as int, any),
            0 <= selected(c, host_header@, port) < c.len(),
        decreases configs@.len() - i,
    {
        assert(c[i as int] == configs@[i as int]@);
        if on_port(&configs[i], port) {
            return i;
        }
        i = i + 1;
    }
    0
}

/// Selects the server that answers a request, by its `Host` header and the
/// port on which it came.
pub fn select_server<'a>(host_header: &str, port: u16, configs: &'a [ServerConfig]) -> (r:
    &'a ServerConfig)
    requires
        configs@.len() > 0,
    ensures
        *r == configs@[selected(types::server_views(configs@), host_header@, port)],
        0 <= selected(types::server_views(configs@), host_header@, port) < configs@.len(),
{
    &configs[server_index(host_header, port, configs)]
}

// ---------------------------------------------------------------------------
// Routes
// ---------------------------------------------------------------------------

/// A route's prefix holds of a path: it is `/`, or it begins the path and ends
/// where a segment of the path ends.
pub open spec fn prefix_matches(prefix: Seq<char>, path: Seq<char>) -> bool {
    prefix == "/"@ || (text::starts_with(path, prefix) && (path.len() == prefix.len()
        || path[prefix.len() as int] == '/'))
}

/// The length of a text in bytes.
pub open spec fn byte_len(s: Seq<char>) -> nat {
    encode_utf8(s).len()
}

/// The position of the first route whose path is the given one.
pub open spec fn exact_route(routes: Seq<RouteView>, path: Seq<char>, i: int) -> Option<int>
    decreases routes.len() - i,
{
    if i < 0 || i >= routes.len() {
        None
    } else if routes[i].path == path {
        Some(i)
    } else {
        exact_route(routes, path, i + 1)
    }
}

/// Of the first `n` routes, the position of the one with the longest prefix
/// that holds of the path; of equally long ones, the last.
pub open spec fn longest_prefix(routes: Seq<RouteView>, path: Seq<char>, n: int) -> Option<int>
    decreases n,
{
    if n <= 0 {
        None
    } else {
        let best = longest_prefix(routes, path, n - 1);
        if prefix_matches(routes[n - 1].path, path) && (best is None || byte_len(
            routes[best->0].path,
        ) <= byte_len(routes[n - 1].path)) {
            Some(n - 1)
        } else {
            best
        }
    }
}

/// The position of the route that answers for a path.
pub open spec fn matched(routes: Seq<RouteView>, path: Seq<char>) -> Option<int> {
    match exact_route(routes, path, 0) {
        Some(i) => Some(i),
        None => longest_prefix(routes, path, routes.len() as int),
    }
}

proof fn lemma_exact_route(routes: Seq<RouteView>, path: Seq<char>, i: int)
    requires
        0 <= i,
    ensures
        exact_route(routes, path, i) matches Some(k) ==> i <= k < routes.len() && routes[k].path
            == path,
        exact_route(routes, path, i) is None ==> forall|j: int|
            i <= j < routes.len() ==> (#[trigger] routes[j]).path != path,
    decreases routes.len() - i,
{
    if i < routes.len() && routes[i].path != path {
        lemma_exact_route(routes, path, i + 1);
    }
}

proof fn lemma_longest_prefix(routes: Seq<RouteView>, path: Seq<char>, n: int)
    requires
        n <= routes.len(),
    ensures
        longest_prefix(routes, path, n) matches Some(k) ==> 0 <= k < n && prefix_matches(
            routes[k].path,
            path,
        ) && forall|j: int|
            0 <= j < n && prefix_matches((#[trigger] routes[j]).path, path) ==> byte_len(
                routes[j].path,
            ) <= byte_len(routes[k].path),
        longest_prefix(routes, path, n) is None ==> forall|j: int|
            0 <= j < n ==> !prefix_matches((#[trigger] routes[j]).path, path),
    decreases n,
{
    if n > 0 {
        lemma_longest_prefix(routes, path, n - 1);
    }
}

/// A route with exactly the path answers before all others. Failing that, the
/// answering route's prefix holds of the path, and no longer prefix does. No
/// route answers only when none holds.
pub proof fn lemma_matched(routes: Seq<RouteView>, path: Seq<char>)
    ensures
        matched(routes, path) matches Some(k) ==> 0 <= k < routes.len() && (routes[k].path == path
            || prefix_matches(routes[k].path, path)),
        (exists|j: int| 0 <= j < routes.len() && (#[trigger] routes[j]).path == path) ==> (matched(
            routes,
            path,
        ) matches Some(k) && routes[k].path == path),
        matched(routes, path) matches Some(k) ==> routes[k].path == path || forall|j: int|
            0 <= j < routes.len() && prefix_matches((#[trigger] routes[j]).path, path) ==> byte_len(
                routes[j].path,
            ) <= byte_len(routes[k].path),
        matched(routes, path) is None ==> forall|j: int|
            0 <= j < routes.len() ==> (#[trigger] routes[j]).path != path && !prefix_matches(
                routes[j].path,
                path,
            ),
{
    lemma_exact_route(routes, path, 0);
    lemma_longest_prefix(routes, path, routes.len() as int);
}

/// A route that ends within a segment of the path does not answer for it:
/// `/statics` is not on the route `/static`.
pub proof fn lemma_segment_boundary(prefix: Seq<char>, path: Seq<char>)
    requires
        prefix != "/"@,
        path.len() > prefix.len(),
        path[prefix.len() as int] != '/',
    ensures
        !prefix_matches(prefix, path),
{
}

fn prefix_holds(prefix: &str, path: &str) -> (r: bool)
    ensures
        r == prefix_matches(prefix@, path@),
{
    if text::same(prefix, "/") {
        return true;
    }
    if !text::has_prefix(path, prefix) {
        return false;
    }
    let p = text::chars_of(path);
    let n: usize = text::chars_of(prefix).len();
    p.len() == n || p[n] == '/'
}

/// The position of the route that answers for a path: the one with exactly that
/// path, or else the one with the longest prefix that holds of it.
pub fn route_index(path: &str, routes: &[RouteConfig]) -> (r: Option<usize>)
    ensures
        match matched(types::route_views(routes@), path@) {
            Some(i) => r matches Some(k) && k == i && k < routes@.len(),
            None => r is None,
        },
{
    let ghost v = types::route_views(routes@);
    proof {
        lemma_matched(v, path@);
    }
    let mut i: usize = 0;
    while i < routes.len()
        invariant
            i <= routes@.len(),
            v == types::route_views(routes@),
            exact_route(v, path@, 0) == exact_route(v, path@, i as int),
        decreases routes@.len() - i,
    {
        assert(v[i as int] == routes@[i as int]@);
        if text::same(routes[i].path.as_str(), path) {
            return Some(i);
        }
        i = i + 1;
    }
    let mut best: Option<usize> = None;
    i = 0;
    while i < routes.len()
        invariant
            i <= routes@.len(),
            v == types::route_views(routes@),
            exact_route(v, path@, 0) is None,
            best matches Some(k) ==> k < i,
            longest_prefix(v, path@, i as int) == match best {
                Some(k) => Some(k as int),
                None => None::<int>,
            },
        decreases routes@.len() - i,
    {
        assert(v[i as int] == routes@[i as int]@);
        if prefix_holds(routes[i].path.as_str(), path) {
            let better: bool = match best {
                Some(k) => {
                    assert(v[k as int] == routes@[k as int]@);
                    routes[k].path.as_str().as_bytes().len() <= routes[i].path.as_str().as_bytes().len()
                },
                None => true,
            };
            if better {
                best = Some(i);
            }
        }
        i = i + 1;
    }
    best
}

/// Finds the route that answers for a path.
pub fn match_route<'a>(path: &str, routes: &'a [RouteConfig]) -> (r: Option<&'a RouteConfig>)
    ensures
        match matched(types::route_views(routes@), path@) {
            Some(i) => 0 <= i < routes@.len() && r == Some(&routes@[i]),
            None => r is None,
        },
{
    match route_index(path, routes) {
        Some(k) => Some(&routes[k]),
        None => None,
    }
}

// ---------------------------------------------------------------------------
// Laws
// ---------------------------------------------------------------------------

/// A route holds of its own path and of everything under it, however deep: the
/// path, a slash, and whatever follows. It holds of nothing else, but that the
/// route of the root holds of every path.
pub proof fn lemma_prefix(p: Seq<char>, r: Seq<char>, path: Seq<char>)
    ensures
        prefix_matches(p, p),
        prefix_matches(p, p + seq!['/'] + r),
        prefix_matches(seq!['/'], path),
        p != seq!['/'] && prefix_matches(p, path) ==> path == p || path == p + seq!['/']
            + path.skip(p.len() as int + 1),
{
    reveal_strlit("/");
    assert("/"@ =~= seq!['/']);
    let under = p + seq!['/'] + r;
    assert(p.take(p.len() as int) =~= p);
    assert(under.take(p.len() as int) =~= p);
    if p != seq!['/'] && prefix_matches(p, path) {
        if path.len() == p.len() {
            assert(path.take(p.len() as int) =~= path);
        } else {
            assert(path =~= path.take(p.len() as int) + seq!['/'] + path.skip(
                p.len() as int + 1,
            ));
        }
    }
}

/// Everything under the path of a route is answered: by a route with exactly that
/// path, or by one whose path it lies under and which is no shorter.
pub proof fn lemma_route_found(routes: Seq<RouteView>, i: int, r: Seq<char>)
    requires
        0 <= i < routes.len(),
    ensures
        ({
            let path = routes[i].path + seq!['/'] + r;
            &&& matched(routes, path) matches Some(k)
            &&& 0 <= k < routes.len()
            &&& encode_utf8(routes[i].path).len() <= encode_utf8(routes[k].path).len()
            &&& routes[k].path == path || routes[k].path == seq!['/'] || path
                == routes[k].path + seq!['/'] + path.skip(routes[k].path.len() as int + 1)
        }),
{
    let p = routes[i].path;
    let path = p + seq!['/'] + r;
    lemma_prefix(p, r, path);
    lemma_matched(routes, path);
    let k = matched(routes, path)->0;
    lemma_prefix(routes[k].path, r, path);
    if routes[k].path == path {
        text::lemma_encode_parts(p, seq!['/'] + r);
        assert(path =~= p + (seq!['/'] + r));
    }
}

/// A route with exactly the path answers, the first of them if there are more.
pub proof fn lemma_exact_first(routes: Seq<RouteView>, i: int)
    requires
        0 <= i < routes.len(),
        forall|j: int| 0 <= j < i ==> (#[trigger] routes[j]).path != routes[i].path,
    ensures
        matched(routes, routes[i].path) == Some(i),
{
    lemma_exact_is(routes, routes[i].path, 0, i);
}

proof fn lemma_exact_is(routes: Seq<RouteView>, path: Seq<char>, from: int, i: int)
    requires
        0 <= from <= i < routes.len(),
        routes[i].path == path,
        forall|j: int| from <= j < i ==> (#[trigger] routes[j]).path != path,
    ensures
        exact_route(routes, path, from) == Some(i),
    decreases i - from,
{
    if from < i {
        lemma_exact_is(routes, path, from + 1, i);
    }
}

/// Where no route answers for a path, it neither is the path of any route nor
/// lies under it.
pub proof fn lemma_no_route(routes: Seq<RouteView>, path: Seq<char>, r: Seq<char>)
    requires
        matched(routes, path) is None,
    ensures
        forall|j: int|
            0 <= j < routes.len() ==> (#[trigger] routes[j]).path != path && routes[j].path
                != seq!['/'] && routes[j].path + seq!['/'] + r != path,
{
    lemma_matched(routes, path);
    assert forall|j: int| 0 <= j < routes.len() implies (#[trigger] routes[j]).path != path
        && routes[j].path != seq!['/'] && routes[j].path + seq!['/'] + r != path by {
        lemma_prefix(routes[j].path, r, path);
    }
}

/// Whether a server is on a port and has a name that is the host, but for the
/// case of letters.
pub open spec fn names_host(s: ServerView, host: Seq<char>, port: u16) -> bool {
    s.ports.contains(port) && exists|n: int|
        0 <= n < s.server_names.len() && text::equal_ignoring_case(
            #[trigger] s.server_names[n],
            host,
        )
}

/// Whether a server is on a port and has a name with a star under which the host
/// lies.
pub open spec fn stars_host(s: ServerView, host: Seq<char>, port: u16) -> bool {
    s.ports.contains(port) && exists|n: int, sub: Seq<char>|
        0 <= n < s.server_names.len() && sub.len() > 0 && (#[trigger] s.server_names[n]).len() >= 2
            && s.server_names[n][0] == '*' && s.server_names[n][1] == '.' && host == #[trigger] (sub
            + s.server_names[n].skip(1))
}

proof fn lemma_names_host(s: ServerView, host: Seq<char>, port: u16)
    ensures
        names_host(s, host, port) == (s.ports.contains(port) && named(s, host)),
        stars_host(s, host, port) == (s.ports.contains(port) && wildcard(s, host)),
{
    reveal_strlit("*.");
    if s.ports.contains(port) && wildcard(s, host) {
        let n = choose|n: int| 0 <= n < s.server_names.len() && covers(#[trigger] s.server_names[n], host);
        let name = s.server_names[n];
        let sub = host.take(host.len() - (name.len() - 1));
        assert(name.take(2)[0] == '*' && name.take(2)[1] == '.');
        assert(host =~= sub + name.skip(1));
    }
    if stars_host(s, host, port) {
        let (n, sub) = choose|n: int, sub: Seq<char>|
            0 <= n < s.server_names.len() && sub.len() > 0 && (
            #[trigger] s.server_names[n]).len() >= 2 && s.server_names[n][0] == '*'
                && s.server_names[n][1] == '.' && host == #[trigger] (sub + s.server_names[n].skip(
                1,
            ));
        let name = s.server_names[n];
        assert(name.take(2) =~= "*."@);
        assert(host.skip(sub.len() as int) =~= name.skip(1));
        assert(covers(name, host));
    }
}

/// The server that answers is, of those on the port, the first that has the host
/// among its names; failing that, the first with a name with a star that the host
/// lies under; failing that, the first of all. Where no server is on the port, it
/// is the first that is configured. The port in the `Host` header does not count.
pub proof fn lemma_selection(c: Seq<ServerView>, host: Seq<char>, tail: Seq<char>, port: u16, i: int)
    requires
        !host.contains(':'),
        0 <= i < c.len(),
    ensures
        ({
            let r = selected(c, host, port);
            &&& selected(c, host + seq![':'] + tail, port) == r
            &&& 0 <= r < c.len()
            &&& names_host(c[i], host, port) ==> r <= i && names_host(c[r], host, port)
            &&& (forall|j: int| 0 <= j < c.len() ==> !names_host(#[trigger] c[j], host, port))
                && stars_host(c[i], host, port) ==> r <= i && stars_host(c[r], host, port)
            &&& (forall|j: int|
                0 <= j < c.len() ==> !names_host(#[trigger] c[j], host, port) && !stars_host(
                    c[j],
                    host,
                    port,
                )) && c[i].ports.contains(port) ==> r <= i && c[r].ports.contains(port)
            &&& (forall|j: int| 0 <= j < c.len() ==> !(#[trigger] c[j]).ports.contains(port))
                ==> r == 0
        }),
{
    let whole = host + seq![':'] + tail;
    assert forall|j: int| 0 <= j < host.len() implies whole[j] != ':' by {
        assert(host.contains(host[j]));
    }
    text::lemma_index_of_is(whole, ':', host.len() as int);
    assert(whole.take(host.len() as int) =~= host);
    text::lemma_index_of(host, ':');
    assert forall|j: int| 0 <= j < host.len() implies host[j] != ':' by {
        assert(host.contains(host[j]));
    }
    text::lemma_index_of_is(host, ':', host.len() as int);
    assert(host_part(host) =~= host);
    assert(host_part(whole) =~= host);
    let exact = |s: ServerView| s.ports.contains(port) && named(s, host);
    let wild = |s: ServerView| s.ports.contains(port) && wildcard(s, host);
    let any = |s: ServerView| s.ports.contains(port);
    lemma_first_server(c, 0, exact);
    lemma_first_server(c, 0, wild);
    lemma_first_server(c, 0, any);
    assert forall|j: int| 0 <= j < c.len() implies exact(#[trigger] c[j]) == names_host(
        c[j],
        host,
        port,
    ) && wild(c[j]) == stars_host(c[j], host, port) by {
        lemma_names_host(c[j], host, port);
    }
    lemma_names_host(c[i], host, port);
    assert(exact(c[i]) == names_host(c[i], host, port));
    assert(wild(c[i]) == stars_host(c[i], host, port));
    assert(any(c[i]) == c[i].ports.contains(port));
    if forall|j: int| 0 <= j < c.len() ==> !(#[trigger] c[j]).ports.contains(port) {
        assert forall|j: int| 0 <= j < c.len() implies !exact(#[trigger] c[j]) && !wild(c[j])
            && !any(c[j]) by {
            assert(!c[j].ports.contains(port));
        }
    }
    let r = selected(c, host, port);
    if first_server(c, 0, exact) is None && first_server(c, 0, wild) is None {
        assert forall|j: int| 0 <= j < c.len() implies !names_host(#[trigger] c[j], host, port) by {
            assert(!exact(c[j]));
        }
    }
}

proof fn lemma_longest_last(routes: Seq<RouteView>, path: Seq<char>, n: int)
    requires
        n <= routes.len(),
    ensures
        longest_prefix(routes, path, n) matches Some(k) ==> 0 <= k < n && forall|j: int|
            k < j < n && prefix_matches((#[trigger] routes[j]).path, path) ==> byte_len(
                routes[j].path,
            ) < byte_len(routes[k].path),
    decreases n,
{
    if n > 0 {
        lemma_longest_last(routes, path, n - 1);
        lemma_longest_prefix(routes, path, n - 1);
    }
}

/// Of two routes with the same path, the later answers for what lies under it.
pub proof fn lemma_later_route(routes: Seq<RouteView>, i: int, j: int, r: Seq<char>)
    requires
        0 <= i < j < routes.len(),
        routes[i].path == routes[j].path,
    ensures
        matched(routes, routes[i].path + seq!['/'] + r) != Some(i),
{
    let p = routes[i].path;
    let path = p + seq!['/'] + r;
    lemma_prefix(p, r, path);
    lemma_longest_last(routes, path, routes.len() as int);
    lemma_matched(routes, path);
    assert(path.len() > p.len());
    if matched(routes, path) == Some(i) {
        lemma_exact_found(routes, path, 0);
        assert(prefix_matches(routes[j].path, path));
    }
}

proof fn lemma_exact_found(routes: Seq<RouteView>, path: Seq<char>, from: int)
    ensures
        exact_route(routes, path, from) matches Some(k) ==> 0 <= k < routes.len() && routes[k].path
            == path,
    decreases routes.len() - from,
{
    if 0 <= from < routes.len() && routes[from].path != path {
        lemma_exact_found(routes, path, from + 1);
    }
}

} // verus!
