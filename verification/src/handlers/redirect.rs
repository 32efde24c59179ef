//! Redirects.

use vstd::prelude::*;
use vstd::string::*;

use crate::http::response::builder;
use crate::http::response::types::{Response, ResponseView, StatusCode};
use crate::text;

verus! {

/// What is wrong with the target of a redirect, if anything. A target is an
/// `http` or `https` URL, or a path from the root of the site; `//host`, which
/// names another host, is neither.
pub open spec fn target_fault(target: Seq<char>) -> Option<Seq<char>> {
    if target.len() == 0 {
        Some("empty redirect target"@)
    } else if text::starts_with(target, "http://"@) || text::starts_with(target, "https://"@) {
        None
    } else if text::starts_with(target, "/"@) {
        if text::starts_with(target, "//"@) {
            Some("protocol-relative URLs not allowed"@)
        } else {
            None
        }
    } else {
        Some("target must be an absolute path or http(s):// URL"@)
    }
}

/// The answer of a redirect: the redirect itself, or a refusal where the target
/// is not one that a client may be sent to.
pub open spec fn redirected(code: u16, target: Seq<char>) -> ResponseView {
    if target_fault(target) is None {
        builder::redirect_view(code, target)
    } else {
        builder::detail_view(400, "redirect target is not a valid URL"@)
    }
}

/// Checks the target of a redirect.
pub fn validate_redirect_target(target: &str) -> (r: Result<(), &'static str>)
    ensures
        match r {
            Ok(_) => target_fault(target@) is None,
            Err(e) => target_fault(target@) == Some(e@),
        },
{
    if text::chars_of(target).len() == 0 {
        return Err("empty redirect target");
    }
    if text::has_prefix(target, "http://") || text::has_prefix(target, "https://") {
        return Ok(());
    }
    if text::has_prefix(target, "/") {
        if text::has_prefix(target, "//") {
            return Err("protocol-relative URLs not allowed");
        }
        return Ok(());
    }
    Err("target must be an absolute path or http(s):// URL")
}

/// Redirects to a target, if clients may be sent there.
pub fn redirect(code: StatusCode, target: &str) -> (r: Response)
    ensures
        r@ == redirected(code.0, target@),
{
    match validate_redirect_target(target) {
        Ok(_) => builder::redirect(code.code(), target),
        Err(_) => builder::bad_request("redirect target is not a valid URL"),
    }
}

/// Clients are sent nowhere but to `http` and `https` URLs and to paths of the
/// site itself: any other target is answered with 400, and so is `//host`.
pub proof fn lemma_redirect_targets(code: u16, target: Seq<char>)
    requires
        code != 400,
    ensures
        redirected(code, target).status == code ==> text::starts_with(target, "http://"@)
            || text::starts_with(target, "https://"@) || (text::starts_with(target, "/"@)
            && !text::starts_with(target, "//"@)),
        redirected(code, target).status == code || redirected(code, target).status == 400,
{
}

/// A redirect leads to its target as it is written, where that is a web address
/// or a path of this server; other targets, a path that begins with two slashes
/// among them, are refused with 400.
pub proof fn lemma_redirect_followed(code: u16, rest: Seq<char>, other: Seq<char>)
    requires
        other.len() > 0 ==> other[0] != '/' && other[0] != 'h',
    ensures
        redirected(code, "http://"@ + rest) == builder::redirect_view(code, "http://"@ + rest),
        redirected(code, "https://"@ + rest) == builder::redirect_view(code, "https://"@ + rest),
        !(rest.len() > 0 && rest[0] == '/') ==> redirected(code, seq!['/'] + rest)
            == builder::redirect_view(code, seq!['/'] + rest),
        redirected(code, seq!['/', '/'] + rest).status == 400,
        redirected(code, other).status == 400,
        target_fault(seq!['/', '/'] + rest) == Some("protocol-relative URLs not allowed"@),
        target_fault(Seq::empty()) == Some("empty redirect target"@),
        other.len() > 0 ==> target_fault(other) == Some(
            "target must be an absolute path or http(s):// URL"@,
        ),
{
    reveal_strlit("http://");
    reveal_strlit("https://");
    reveal_strlit("/");
    reveal_strlit("//");
    let a = "http://"@ + rest;
    let b = "https://"@ + rest;
    let c = seq!['/'] + rest;
    let d = seq!['/', '/'] + rest;
    assert(a.take(7) =~= "http://"@);
    assert(b.take(8) =~= "https://"@);
    assert(c.take(1) =~= "/"@);
    assert(d.take(1) =~= "/"@);
    assert(d.take(2) =~= "//"@);
    if c.len() >= 2 {
        assert(c.take(2)[1] == rest[0]);
    }
    if d.len() >= 7 {
        assert(d.take(7)[0] == '/');
    }
    if d.len() >= 8 {
        assert(d.take(8)[0] == '/');
    }
    if other.len() >= 1 {
        assert(other.take(1)[0] == other[0]);
    }
    if other.len() >= 7 {
        assert(other.take(7)[0] == other[0]);
    }
    if other.len() >= 8 {
        assert(other.take(8)[0] == other[0]);
    }
}

} // verus!
