//! The environment of a script.
//!
//! It holds the variables of CGI/1.1, and each header of the request under its
//! name in capitals behind `HTTP_`. `PATH_INFO` is the path of the script, and
//! `REDIRECT_STATUS` is always there, since some interpreters do not run
//! without it.

use vstd::prelude::*;
use vstd::string::*;
use vstd::utf8::is_ascii_chars;

use crate::config::types::{method_name, ServerConfig, ServerView};
use crate::http::request::types::{header, Headers, Request, RequestView};
use crate::http::response::types::{entry_views, HeaderList};
use crate::server::connection::{PeerAddr, PeerView};
use crate::text;

verus! {

/// Variables, by name, in order.
pub type Variables = HeaderList;

/// What the client asked for: the path, and the query behind a question mark
/// where there is one.
pub open spec fn uri(req: RequestView) -> Seq<char> {
    if req.query.len() == 0 {
        req.path
    } else {
        req.path + "?"@ + req.query
    }
}

/// The name of a server: the first of its names, or its address where it has
/// none.
pub open spec fn server_name(server: ServerView) -> Seq<char> {
    if server.server_names.len() > 0 {
        server.server_names[0]
    } else {
        server.host
    }
}

/// A text with underscores for hyphens.
pub open spec fn underscored(s: Seq<char>) -> Seq<char> {
    s.map_values(
        |c: char|
            if c == '-' {
                '_'
            } else {
                c
            },
    )
}

/// The name of the variable for a header.
pub open spec fn http_name(name: Seq<char>) -> Seq<char> {
    "HTTP_"@ + underscored(text::upper(name))
}

/// The variables for the first `n` headers. Type and length of the body have
/// variables of their own.
pub open spec fn http_variables(h: Headers, names: Seq<Seq<char>>, n: int) -> Variables
    decreases n,
{
    if n <= 0 {
        Seq::empty()
    } else {
        let before = http_variables(h, names, n - 1);
        let name = names[n - 1];
        if name == "content-type"@ || name == "content-length"@ {
            before
        } else {
            before.push((http_name(name), h[name]))
        }
    }
}

/// The variables that speak of the request.
pub open spec fn request_variables(req: RequestView, script: Seq<char>, path_info: Seq<char>) ->
    Variables {
    seq![
        ("GATEWAY_INTERFACE"@, "CGI/1.1"@),
        ("SERVER_PROTOCOL"@, "HTTP/1.1"@),
        ("SERVER_SOFTWARE"@, "localhost/0.1"@),
        ("REDIRECT_STATUS"@, "200"@),
        ("REQUEST_METHOD"@, method_name(req.method)),
        ("SCRIPT_NAME"@, req.path),
        ("SCRIPT_FILENAME"@, script),
        ("PATH_INFO"@, path_info),
        ("PATH_TRANSLATED"@, script),
        ("QUERY_STRING"@, req.query),
        ("REQUEST_URI"@, uri(req)),
        ("CONTENT_LENGTH"@, text::decimal(req.body.len())),
    ]
}

/// The variable that says the type of the body, where a header does.
pub open spec fn type_variable(h: Headers) -> Variables {
    match header(h, "content-type"@) {
        Some(v) => seq![("CONTENT_TYPE"@, v)],
        None => Seq::empty(),
    }
}

/// The variables that speak of the server and the client.
pub open spec fn place_variables(server: ServerView, port: u16, peer: PeerView) -> Variables {
    seq![
        ("SERVER_NAME"@, server_name(server)),
        ("SERVER_PORT"@, text::decimal(port as nat)),
        ("REMOTE_ADDR"@, peer.ip),
        ("REMOTE_PORT"@, text::decimal(peer.port as nat)),
    ]
}

/// The environment of a script. `names` are those of the headers, in order.
pub open spec fn environment(
    req: RequestView,
    names: Seq<Seq<char>>,
    script: Seq<char>,
    path_info: Seq<char>,
    server: ServerView,
    port: u16,
    peer: PeerView,
) -> Variables {
    request_variables(req, script, path_info) + type_variable(req.headers) + place_variables(
        server,
        port,
        peer,
    ) + http_variables(req.headers, names, names.len() as int)
}

fn push(env: &mut Vec<(String, String)>, name: &str, value: &str)
    ensures
        entry_views(final(env)@) == entry_views(old(env)@).push((name@, value@)),
{
    let ghost before = env@;
    env.push((text::owned(name), text::owned(value)));
    assert(entry_views(env@) =~= entry_views(before).push((name@, value@)));
}

/// What the client asked for.
pub fn request_uri(req: &Request) -> (r: String)
    ensures
        r@ == uri(req@),
{
    if text::chars_of(req.query.as_str()).len() == 0 {
        text::owned(req.path.as_str())
    } else {
        let mut s = text::joined(req.path.as_str(), "?");
        s.append(req.query.as_str());
        s
    }
}

/// The name of the variable for a header.
fn http_variable_name(name: &str) -> (r: String)
    ensures
        r@ == http_name(name@),
{
    let upper = text::upper_text(name);
    let v = text::chars_of(upper.as_str());
    let mut s = text::owned("HTTP_");
    let ghost lead = s@;
    let mut i: usize = 0;
    assert(lead + underscored(upper@).take(0) =~= lead);
    while i < v.len()
        invariant
            i <= v@.len(),
            v@ == upper@,
            s@ == lead + underscored(upper@).take(i as int),
        decreases v@.len() - i,
    {
        if v[i] == '-' {
            s.push('_');
        } else {
            s.push(v[i]);
        }
        assert(s@ =~= lead + underscored(upper@).take(i + 1));
        i = i + 1;
    }
    assert(underscored(upper@).take(i as int) =~= underscored(upper@));
    s
}

/// Adds the variables for the headers of a request.
fn push_headers(env: &mut Vec<(String, String)>, req: &Request)
    ensures
        entry_views(final(env)@) == entry_views(old(env)@) + http_variables(
            req.headers@,
            req.headers.names(),
            req.headers.names().len() as int,
        ),
{
    let ghost before = entry_views(env@);
    let ghost names = req.headers.names();
    let ghost h = req.headers@;
    let all = req.headers.iter();
    let mut i: usize = 0;
    assert(before + http_variables(h, names, 0) =~= before);
    while i < all.len()
        invariant
            i <= all@.len(),
            all@.len() == names.len(),
            forall|j: int| #![trigger all@[j]]
                0 <= j < all@.len() ==> all@[j].0@ == names[j] && all@[j].1@ == h[names[j]],
            entry_views(env@) == before + http_variables(h, names, i as int),
        decreases all@.len() - i,
    {
        let (name, value) = all[i];
        assert(all@[i as int].0@ == names[i as int]);
        if !text::same(name, "content-type") && !text::same(name, "content-length") {
            push(env, http_variable_name(name).as_str(), value);
            assert(entry_views(env@) =~= before + http_variables(h, names, i + 1));
        }
        i = i + 1;
    }
}

/// The environment of a script.
pub fn build_env(
    req: &Request,
    script_path: &str,
    path_info: &str,
    server: &ServerConfig,
    server_port: u16,
    peer: &PeerAddr,
) -> (r: Vec<(String, String)>)
    ensures
        entry_views(r@) == environment(
            req@,
            req.headers.names(),
            script_path@,
            path_info@,
            server@,
            server_port,
            peer@,
        ),
{
    let mut env: Vec<(String, String)> = Vec::new();
    assert(entry_views(env@) =~= Seq::empty());
    push(&mut env, "GATEWAY_INTERFACE", "CGI/1.1");
    push(&mut env, "SERVER_PROTOCOL", "HTTP/1.1");
    push(&mut env, "SERVER_SOFTWARE", "localhost/0.1");
    push(&mut env, "REDIRECT_STATUS", "200");
    push(&mut env, "REQUEST_METHOD", req.method.as_str());
    push(&mut env, "SCRIPT_NAME", req.path.as_str());
    push(&mut env, "SCRIPT_FILENAME", script_path);
    push(&mut env, "PATH_INFO", path_info);
    push(&mut env, "PATH_TRANSLATED", script_path);
    push(&mut env, "QUERY_STRING", req.query.as_str());
    push(&mut env, "REQUEST_URI", request_uri(req).as_str());
    push(&mut env, "CONTENT_LENGTH", text::decimal_text(req.body.len() as u64).as_str());
    assert(entry_views(env@) =~= request_variables(req@, script_path@, path_info@));
    if let Some(kind) = req.headers.get("content-type") {
        push(&mut env, "CONTENT_TYPE", kind);
    }
    let ghost lead = request_variables(req@, script_path@, path_info@) + type_variable(
        req.headers@,
    );
    assert(entry_views(env@) =~= lead);
    let name: &str = if server.server_names.len() > 0 {
        server.server_names[0].as_str()
    } else {
        server.host.as_str()
    };
    push(&mut env, "SERVER_NAME", name);
    push(&mut env, "SERVER_PORT", text::decimal_text(server_port as u64).as_str());
    push(&mut env, "REMOTE_ADDR", peer.ip.as_str());
    push(&mut env, "REMOTE_PORT", text::decimal_text(peer.port as u64).as_str());
    assert(entry_views(env@) =~= lead + place_variables(server@, server_port, peer@));
    push_headers(&mut env, req);
    env
}

proof fn lemma_http_variables(h: Headers, names: Seq<Seq<char>>, n: int, i: int)
    requires
        n <= names.len(),
        0 <= i < http_variables(h, names, n).len(),
    ensures
        exists|k: int|
            0 <= k < n && #[trigger] names[k] != "content-type"@ && names[k] != "content-length"@
                && http_variables(h, names, n)[i] == (http_name(names[k]), h[names[k]]),
    decreases n,
{
    if n > 0 {
        let before = http_variables(h, names, n - 1);
        if i < before.len() {
            lemma_http_variables(h, names, n - 1, i);
            let k = choose|k: int|
                0 <= k < n - 1 && #[trigger] names[k] != "content-type"@ && names[k]
                    != "content-length"@ && before[i] == (http_name(names[k]), h[names[k]]);
            assert(names[k] != "content-type"@);
        } else {
            assert(names[n - 1] != "content-type"@);
        }
    }
}

/// Every variable behind `HTTP_` is that of a header of the request, with its
/// value, and neither the type nor the length of the body is among them.
pub proof fn lemma_header_variables(h: Headers, names: Seq<Seq<char>>)
    ensures
        forall|i: int| #![trigger http_variables(h, names, names.len() as int)[i]]
            0 <= i < http_variables(h, names, names.len() as int).len() ==> exists|k: int|
                0 <= k < names.len() && #[trigger] names[k] != "content-type"@ && names[k]
                    != "content-length"@ && http_variables(h, names, names.len() as int)[i] == (
                http_name(names[k]),
                h[names[k]],
                ),
{
    let v = http_variables(h, names, names.len() as int);
    assert forall|i: int| #![trigger v[i]] 0 <= i < v.len() implies exists|k: int|
        0 <= k < names.len() && #[trigger] names[k] != "content-type"@ && names[k]
            != "content-length"@ && v[i] == (http_name(names[k]), h[names[k]]) by {
        lemma_http_variables(h, names, names.len() as int, i);
    }
}

proof fn lemma_http_variable(h: Headers, names: Seq<Seq<char>>, n: int, k: int)
    requires
        0 <= k < n <= names.len(),
        names[k] != "content-type"@,
        names[k] != "content-length"@,
    ensures
        http_variables(h, names, n).contains((http_name(names[k]), h[names[k]])),
    decreases n,
{
    let v = http_variables(h, names, n);
    let before = http_variables(h, names, n - 1);
    if k < n - 1 {
        lemma_http_variable(h, names, n - 1, k);
        let i = choose|i: int| 0 <= i < before.len() && before[i] == (http_name(names[k]), h[names[k]]);
        assert(v[i] == before[i]);
    } else {
        assert(v[before.len() as int] == (http_name(names[k]), h[names[k]]));
    }
}

/// A script sees every header of the request: each but type and length of the
/// body is in its environment, under its own name, with its value.
pub proof fn lemma_every_header(
    req: RequestView,
    names: Seq<Seq<char>>,
    script: Seq<char>,
    path_info: Seq<char>,
    server: ServerView,
    port: u16,
    peer: PeerView,
    name: Seq<char>,
)
    requires
        names.contains(name),
        name != "content-type"@,
        name != "content-length"@,
    ensures
        environment(req, names, script, path_info, server, port, peer).contains(
            (http_name(name), req.headers[name]),
        ),
{
    let k = choose|k: int| 0 <= k < names.len() && names[k] == name;
    lemma_http_variable(req.headers, names, names.len() as int, k);
    let rest = http_variables(req.headers, names, names.len() as int);
    let lead = request_variables(req, script, path_info) + type_variable(req.headers)
        + place_variables(server, port, peer);
    let i = choose|i: int| 0 <= i < rest.len() && rest[i] == (http_name(name), req.headers[name]);
    let all = environment(req, names, script, path_info, server, port, peer);
    assert(all =~= lead + rest);
    assert(all[lead.len() + i] == rest[i]);
}

/// The variable of a header has the name of the header in capitals, with
/// underscores for hyphens, behind `HTTP_`.
pub proof fn lemma_http_name(name: Seq<char>)
    requires
        is_ascii_chars(name),
    ensures
        http_name(name).len() == 5 + name.len(),
        http_name(name).take(5) == seq!['H', 'T', 'T', 'P', '_'],
        forall|i: int|
            #![trigger name[i]]
            0 <= i < name.len() ==> http_name(name)[5 + i] as int == if name[i] == '-' {
                '_' as int
            } else if 'a' <= name[i] <= 'z' {
                name[i] as int - 32
            } else {
                name[i] as int
            },
{
    reveal_strlit("HTTP_");
    assert(http_name(name).take(5) =~= seq!['H', 'T', 'T', 'P', '_']);
    assert forall|i: int| #![trigger name[i]] 0 <= i < name.len() implies http_name(name)[5
        + i] as int == if name[i] == '-' {
        '_' as int
    } else if 'a' <= name[i] <= 'z' {
        name[i] as int - 32
    } else {
        name[i] as int
    } by {
        assert(text::upper(name)[i] == text::ascii_upper_char(name[i]));
        assert(http_name(name)[5 + i] == underscored(text::upper(name))[i]);
    }
}

/// A script sees the request: method, path, query, length and type of the body,
/// where it stands itself, and who serves and who asks.
pub proof fn lemma_core_variables(
    req: RequestView,
    names: Seq<Seq<char>>,
    script: Seq<char>,
    path_info: Seq<char>,
    server: ServerView,
    port: u16,
    peer: PeerView,
)
    ensures
        ({
            let v = environment(req, names, script, path_info, server, port, peer);
            &&& v.contains(("GATEWAY_INTERFACE"@, "CGI/1.1"@))
            &&& v.contains(("SERVER_PROTOCOL"@, "HTTP/1.1"@))
            &&& v.contains(("SERVER_SOFTWARE"@, "localhost/0.1"@))
            &&& v.contains(("REDIRECT_STATUS"@, "200"@))
            &&& v.contains(("REQUEST_METHOD"@, method_name(req.method)))
            &&& v.contains(("SCRIPT_NAME"@, req.path))
            &&& v.contains(("SCRIPT_FILENAME"@, script))
            &&& v.contains(("PATH_INFO"@, path_info))
            &&& v.contains(("PATH_TRANSLATED"@, script))
            &&& v.contains(("QUERY_STRING"@, req.query))
            &&& req.query.len() == 0 ==> v.contains(("REQUEST_URI"@, req.path))
            &&& req.query.len() > 0 ==> v.contains(
                ("REQUEST_URI"@, req.path + seq!['?'] + req.query),
            )
            &&& v.contains(("CONTENT_LENGTH"@, text::decimal(req.body.len())))
            &&& header(req.headers, "content-type"@) matches Some(t) ==> v.contains(
                ("CONTENT_TYPE"@, t),
            )
            &&& server.server_names.len() > 0 ==> v.contains(
                ("SERVER_NAME"@, server.server_names[0]),
            )
            &&& server.server_names.len() == 0 ==> v.contains(("SERVER_NAME"@, server.host))
            &&& v.contains(("SERVER_PORT"@, text::decimal(port as nat)))
            &&& v.contains(("REMOTE_ADDR"@, peer.ip))
            &&& v.contains(("REMOTE_PORT"@, text::decimal(peer.port as nat)))
        }),
{
    reveal_strlit("?");
    assert("?"@ =~= seq!['?']);
    let a = request_variables(req, script, path_info);
    let b = type_variable(req.headers);
    let c = place_variables(server, port, peer);
    let d = http_variables(req.headers, names, names.len() as int);
    let v = environment(req, names, script, path_info, server, port, peer);
    assert(v == a + b + c + d);
    assert forall|i: int| 0 <= i < a.len() implies v.contains(#[trigger] a[i]) by {
        assert(v[i] == a[i]);
    }
    assert forall|i: int| 0 <= i < b.len() implies v.contains(#[trigger] b[i]) by {
        assert(v[a.len() + i] == b[i]);
    }
    assert forall|i: int| 0 <= i < c.len() implies v.contains(#[trigger] c[i]) by {
        assert(v[a.len() + b.len() + i] == c[i]);
    }
    assert(a[0] == ("GATEWAY_INTERFACE"@, "CGI/1.1"@));
    assert(a[1] == ("SERVER_PROTOCOL"@, "HTTP/1.1"@));
    assert(a[2] == ("SERVER_SOFTWARE"@, "localhost/0.1"@));
    assert(a[3] == ("REDIRECT_STATUS"@, "200"@));
    assert(a[4] == ("REQUEST_METHOD"@, method_name(req.method)));
    assert(a[5] == ("SCRIPT_NAME"@, req.path));
    assert(a[6] == ("SCRIPT_FILENAME"@, script));
    assert(a[7] == ("PATH_INFO"@, path_info));
    assert(a[8] == ("PATH_TRANSLATED"@, script));
    assert(a[9] == ("QUERY_STRING"@, req.query));
    assert(a[10] == ("REQUEST_URI"@, uri(req)));
    assert(a[11] == ("CONTENT_LENGTH"@, text::decimal(req.body.len())));
    if let Some(t) = header(req.headers, "content-type"@) {
        assert(b[0] == ("CONTENT_TYPE"@, t));
    }
    assert(c[0] == ("SERVER_NAME"@, server_name(server)));
    assert(c[1] == ("SERVER_PORT"@, text::decimal(port as nat)));
    assert(c[2] == ("REMOTE_ADDR"@, peer.ip));
    assert(c[3] == ("REMOTE_PORT"@, text::decimal(peer.port as nat)));
}

} // verus!
