//! Error pages.

use vstd::prelude::*;
use vstd::string::*;
use vstd::utf8::encode_utf8;

use crate::config::types::{ServerConfig, ServerView};
use crate::http::response::builder;
use crate::http::response::types;
use crate::http::response::types::{Response, ResponseView, StatusCode};
use crate::text;

verus! {

/// The built-in page for a status code.
pub open spec fn default_page(code: u16) -> Seq<char> {
    "<!DOCTYPE html>\n<html>\n<head><meta charset=\"utf-8\"><title>"@ + types::status_text(code)
        + "</title></head>\n<body>\n<h1>"@ + types::status_text(code)
        + "</h1>\n</body>\n</html>\n"@
}

/// An error response of no special kind.
pub open spec fn generic_view(code: u16, page: Option<Seq<char>>) -> ResponseView {
    builder::html(
        code,
        encode_utf8(
            match page {
                Some(p) => p,
                None => default_page(code),
            },
        ),
    )
}

/// The response for an error. `page` is what could be read of the custom page,
/// which counts only where the server has one for the code.
pub open spec fn rendered(code: u16, server: ServerView, page: Option<Seq<char>>) -> ResponseView {
    let custom = if server.page(code) is Some {
        page
    } else {
        None
    };
    match custom {
        Some(p) => builder::html(code, encode_utf8(p)),
        None => if code == 400 {
            builder::detail_view(400, "Bad Request"@)
        } else if code == 403 || code == 404 || code == 500 {
            builder::error_view(code, None)
        } else if code == 413 {
            builder::too_large_view()
        } else {
            generic_view(code, None)
        },
    }
}

/// The response for an error, with the custom page of the server where it has
/// one that could be read.
pub fn render(code: u16, server: &ServerConfig, page: Option<&str>) -> (r: Response)
    ensures
        r@ == rendered(code, server@, text::opt_str(page)),
{
    let custom: Option<&str> = if server.error_page(code).is_some() {
        page
    } else {
        None
    };
    if let Some(p) = custom {
        return builder::error(code, vstd::slice::slice_to_vec(p.as_bytes()));
    }
    if code == StatusCode::BAD_REQUEST {
        builder::bad_request("Bad Request")
    } else if code == StatusCode::FORBIDDEN {
        builder::forbidden(None)
    } else if code == StatusCode::NOT_FOUND {
        builder::not_found(None)
    } else if code == StatusCode::PAYLOAD_TOO_LARGE {
        builder::payload_too_large()
    } else if code == StatusCode::INTERNAL_SERVER_ERROR {
        builder::internal_server_error(None)
    } else {
        render_generic(StatusCode(code), None)
    }
}

/// An error response of no special kind, with a custom page where there is one.
pub fn render_generic(status: StatusCode, custom_content: Option<&str>) -> (r: Response)
    ensures
        r@ == generic_view(status.0, text::opt_str(custom_content)),
{
    match custom_content {
        Some(p) => builder::error(status.code(), vstd::slice::slice_to_vec(p.as_bytes())),
        None => {
            let page = default_html(status);
            builder::error(status.code(), vstd::slice::slice_to_vec(page.as_str().as_bytes()))
        },
    }
}

/// The built-in page for a status code.
pub fn default_html(status: StatusCode) -> (r: String)
    ensures
        r@ == default_page(status.0),
{
    let text = status.to_string();
    let mut s = text::joined(
        "<!DOCTYPE html>\n<html>\n<head><meta charset=\"utf-8\"><title>",
        text.as_str(),
    );
    s.append("</title></head>\n<body>\n<h1>");
    s.append(text.as_str());
    s.append("</h1>\n</body>\n</html>\n");
    s
}

/// The response for an error has the code of the error, and says how long its
/// page is. Where the server has a custom page for the code that could be read,
/// that page is the body.
pub proof fn lemma_rendered(code: u16, server: ServerView, page: Option<Seq<char>>)
    ensures
        rendered(code, server, page).status == code,
        rendered(code, server, page).sized(),
        server.page(code) is Some && page is Some ==> rendered(code, server, page).body
            == encode_utf8(page->0),
{
    let r = rendered(code, server, page);
    builder::lemma_content_length(code, Seq::empty(), r.body, Seq::empty(), Seq::empty());
}

/// The page of an error, where none was set for it: a page with its code and
/// phrase, in one of two forms, and for 400 and 413 with a remark.
pub proof fn lemma_built_in(code: u16, server: ServerView, page: Option<Seq<char>>)
    requires
        server.page(code) is None || page is None,
    ensures
        code == 400 ==> rendered(code, server, page) == builder::detail_view(400, "Bad Request"@),
        code == 413 ==> rendered(code, server, page) == builder::detail_view(
            413,
            "Request body exceeds the configured limit."@,
        ),
        code == 403 || code == 404 || code == 500 ==> rendered(code, server, page)
            == builder::error_view(code, None),
        code != 400 && code != 413 && code != 403 && code != 404 && code != 500 ==> rendered(
            code,
            server,
            page,
        ).body == encode_utf8(
            "<!DOCTYPE html>\n<html>\n<head><meta charset=\"utf-8\"><title>"@
                + types::status_text(code) + "</title></head>\n<body>\n<h1>"@
                + types::status_text(code) + "</h1>\n</body>\n</html>\n"@,
        ),
        types::value_of(rendered(code, server, page).headers, "Content-Type"@) == Some(
            "text/html; charset=utf-8"@,
        ),
{
    builder::lemma_typed(
        code,
        "text/html; charset=utf-8"@,
        rendered(code, server, page).body,
    );
}

/// A page that is handed over is sent as it is, with the code and as HTML.
pub proof fn lemma_generic(code: u16, page: Seq<char>)
    ensures
        generic_view(code, Some(page)).status == code,
        generic_view(code, Some(page)).body == encode_utf8(page),
        generic_view(code, None).status == code,
        generic_view(code, None).body == encode_utf8(default_page(code)),
        types::value_of(generic_view(code, Some(page)).headers, "Content-Type"@) == Some(
            "text/html; charset=utf-8"@,
        ),
{
    builder::lemma_typed(code, "text/html; charset=utf-8"@, encode_utf8(page));
}

} // verus!
