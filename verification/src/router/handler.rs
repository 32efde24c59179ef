//! What is done with a request on a route.

use vstd::prelude::*;
use vstd::string::*;

use crate::cgi;
use crate::cgi::{CgiTarget, TargetView};
use crate::config::types::{Method, RouteConfig, RouteView, ServerConfig, ServerView};
use crate::handlers::delete;
use crate::handlers::delete::{DeleteStep, DeleteView};
use crate::handlers::redirect;
use crate::handlers::static_file;
use crate::handlers::static_file::{ServeStep, ServeView};
use crate::handlers::upload;
use crate::handlers::upload::{PlanView, UploadPlan};
use crate::handlers::{Observed, ObservedView};
use crate::http::request::types::{Request, RequestView};
use crate::http::response::builder;
use crate::http::response::types;
use crate::http::response::types::{value_of, Response, ResponseView, StatusCode};
use crate::text;

verus! {

/// What is to be done about a request.
#[derive(Debug)]
pub enum DispatchOutcome {
    /// Answer at once.
    Response(Response),
    /// Run this script.
    StartCgi(CgiTarget),
    /// Serve from the disk, and answer as [`static_answer`] says.
    Serve(ServeStep),
    /// Write files.
    Upload(UploadPlan),
    /// Remove something.
    Delete(DeleteStep),
}

/// A [`DispatchOutcome`] with views for its parts.
#[verifier::ext_equal]
pub enum OutcomeView {
    Response(ResponseView),
    StartCgi(TargetView),
    Serve(ServeView),
    Upload(PlanView),
    Delete(DeleteView),
}

impl View for DispatchOutcome {
    type V = OutcomeView;

    open spec fn view(&self) -> OutcomeView {
        match self {
            DispatchOutcome::Response(r) => OutcomeView::Response(r@),
            DispatchOutcome::StartCgi(t) => OutcomeView::StartCgi(t@),
            DispatchOutcome::Serve(s) => OutcomeView::Serve(s@),
            DispatchOutcome::Upload(p) => OutcomeView::Upload(p@),
            DispatchOutcome::Delete(d) => OutcomeView::Delete(d@),
        }
    }
}

impl DispatchOutcome {
    /// The answer, where there is one at once.
    pub fn unwrap_response(self) -> (r: Response)
        requires
            self is Response,
        ensures
            self == DispatchOutcome::Response(r),
    {
        match self {
            DispatchOutcome::Response(r) => r,
            _ => vstd::pervasive::unreached(),
        }
    }
}

/// The answer of a file or a listing: to `HEAD`, it is without its body.
pub open spec fn for_method(method: Method, r: ResponseView) -> ResponseView {
    if method == Method::Head {
        ResponseView { body: Seq::empty(), ..r }
    } else {
        r
    }
}

/// The answer of a file or a listing, for the method it was asked with.
pub fn static_answer(method: Method, response: Response) -> (r: Response)
    ensures
        r@ == for_method(method, response@),
{
    let mut resp = response;
    if method == Method::Head {
        resp.body.clear();
    }
    resp
}

/// The methods that a route answers to, when asked.
pub open spec fn offered(route: RouteView) -> Seq<Method> {
    if route.methods.len() == 0 {
        seq![Method::Get, Method::Head, Method::Post, Method::Delete, Method::Options]
    } else if route.methods.contains(Method::Options) {
        route.methods
    } else {
        route.methods.push(Method::Options)
    }
}

/// The answer to `OPTIONS`.
pub open spec fn options_view(route: RouteView) -> ResponseView {
    ResponseView {
        status: 204,
        headers: seq![("Content-Length"@, "0"@), ("Allow"@, builder::method_list(offered(route)))],
        body: Seq::empty(),
    }
}

/// The answer to `OPTIONS`: the methods that the route answers to.
pub fn options_response(route: &RouteConfig) -> (r: Response)
    ensures
        r@ == options_view(route@),
{
    let mut methods: Vec<Method> = Vec::new();
    if route.methods.len() == 0 {
        methods.push(Method::Get);
        methods.push(Method::Head);
        methods.push(Method::Post);
        methods.push(Method::Delete);
        methods.push(Method::Options);
    } else {
        let mut i: usize = 0;
        let mut found: bool = false;
        while i < route.methods.len()
            invariant
                i <= route.methods@.len(),
                methods@ == route.methods@.take(i as int),
                found == route.methods@.take(i as int).contains(Method::Options),
            decreases route.methods@.len() - i,
        {
            let m: Method = route.methods[i];
            methods.push(m);
            proof {
                let t = route.methods@.take(i as int);
                let u = route.methods@.take(i + 1);
                assert(u =~= t.push(m));
                if t.contains(Method::Options) {
                    let k = choose|k: int| 0 <= k < t.len() && t[k] == Method::Options;
                    assert(u[k] == Method::Options);
                }
                if m == Method::Options {
                    assert(u[i as int] == Method::Options);
                }
                if u.contains(Method::Options) && m != Method::Options {
                    let k = choose|k: int| 0 <= k < u.len() && u[k] == Method::Options;
                    assert(t[k] == Method::Options);
                }
            }
            if m == Method::Options {
                found = true;
            }
            i = i + 1;
        }
        assert(route.methods@.take(i as int) =~= route.methods@);
        if !found {
            methods.push(Method::Options);
        }
    }
    assert(methods@ =~= offered(route@));
    let list = builder::method_list_text(methods.as_slice());
    let mut resp = builder::no_content();
    resp.headers.append("Allow", list.as_str());
    assert(resp@.headers =~= options_view(route@).headers);
    resp
}

/// The largest body that a request may have: that of the route, or of the
/// server where the route sets none.
pub open spec fn body_limit(route: RouteView, server: ServerView) -> usize {
    match route.client_body_limit {
        Some(n) => n,
        None => server.client_body_limit,
    }
}

/// What is to be done about a request that asks for no script.
pub open spec fn by_method(
    req: RequestView,
    route: RouteView,
    server: ServerView,
    page_404: Option<Seq<char>>,
    seen: ObservedView,
) -> OutcomeView {
    match req.method {
        Method::Get | Method::Head => {
            let page = if server.page(404) is Some {
                page_404
            } else {
                None
            };
            match static_file::step_for(req, route, page, seen) {
                ServeView::Respond(r) => OutcomeView::Response(for_method(req.method, r)),
                step => OutcomeView::Serve(step),
            }
        },
        Method::Post => OutcomeView::Upload(upload::planned(req, route, body_limit(route, server))),
        Method::Delete => match delete::decided(req, route, seen) {
            DeleteView::Respond(r) => OutcomeView::Response(r),
            step => OutcomeView::Delete(step),
        },
        Method::Put => OutcomeView::Response(
            builder::not_allowed_view(seq![Method::Get, Method::Post, Method::Delete]),
        ),
        Method::Options => OutcomeView::Response(options_view(route)),
    }
}

/// What is to be done about a request.
pub open spec fn dispatched(
    req: RequestView,
    route: RouteView,
    server: ServerView,
    page_404: Option<Seq<char>>,
    seen: ObservedView,
) -> OutcomeView {
    if !route.allows(req.method) {
        OutcomeView::Response(builder::not_allowed_view(route.methods))
    } else if route.redirect is Some {
        OutcomeView::Response(
            redirect::redirected(route.redirect->0.code, route.redirect->0.target),
        )
    } else if req.body.len() > body_limit(route, server) {
        OutcomeView::Response(builder::too_large_view())
    } else {
        match cgi::target(req, route, seen) {
            Some(t) => OutcomeView::StartCgi(t),
            None => by_method(req, route, server, page_404, seen),
        }
    }
}

fn dispatch_by_method(
    request: &Request,
    route: &RouteConfig,
    server: &ServerConfig,
    page_404: Option<&str>,
    seen: &Observed,
) -> (r: DispatchOutcome)
    ensures
        r@ == by_method(request@, route@, server@, text::opt_str(page_404), seen@),
{
    match request.method {
        Method::Get | Method::Head => {
            let page: Option<&str> = if server.error_page(StatusCode::NOT_FOUND).is_some() {
                page_404
            } else {
                None
            };
            match static_file::serve(request, route, page, seen) {
                ServeStep::Respond(resp) => DispatchOutcome::Response(
                    static_answer(request.method, resp),
                ),
                step => DispatchOutcome::Serve(step),
            }
        },
        Method::Post => {
            let limit: usize = match route.client_body_limit {
                Some(n) => n,
                None => server.body_limit(),
            };
            DispatchOutcome::Upload(upload::handle(request, route, limit))
        },
        Method::Delete => match delete::handle(request, route, seen) {
            DeleteStep::Respond(resp) => DispatchOutcome::Response(resp),
            step => DispatchOutcome::Delete(step),
        },
        Method::Put => {
            let mut allowed: Vec<Method> = Vec::new();
            allowed.push(Method::Get);
            allowed.push(Method::Post);
            allowed.push(Method::Delete);
            assert(allowed@ =~= seq![Method::Get, Method::Post, Method::Delete]);
            DispatchOutcome::Response(builder::method_not_allowed(allowed.as_slice()))
        },
        Method::Options => DispatchOutcome::Response(options_response(route)),
    }
}

/// Decides what is done with a request on a route, in this order:
///
/// 1. A method that the route does not allow is refused with 405.
/// 2. A route with a redirect redirects.
/// 3. A body over the limit is refused with 413.
/// 4. A script is run, if the path is that of one.
/// 5. Otherwise the method decides: files are served, uploads written, and
///    things removed.
///
/// `page_404` is what could be read of the server's custom page for 404, and
/// `seen` what was found on disk for the request. The session of the request is
/// there for handlers that keep something for it.
pub fn dispatch(
    request: &Request,
    route: &RouteConfig,
    server: &ServerConfig,
    _active_session_id: Option<&str>,
    page_404: Option<&str>,
    seen: &Observed,
) -> (r: DispatchOutcome)
    ensures
        r@ == dispatched(request@, route@, server@, text::opt_str(page_404), seen@),
{
    if !route.allows_method(&request.method) {
        return DispatchOutcome::Response(builder::method_not_allowed(route.methods.as_slice()));
    }
    if let Some(to) = &route.redirect {
        return DispatchOutcome::Response(
            redirect::redirect(StatusCode(to.code), to.target.as_str()),
        );
    }
    let limit: usize = match route.client_body_limit {
        Some(n) => n,
        None => server.body_limit(),
    };
    if request.body.len() > limit {
        return DispatchOutcome::Response(builder::payload_too_large());
    }
    match cgi::cgi_target(request, route, seen) {
        Some(target) => DispatchOutcome::StartCgi(target),
        None => dispatch_by_method(request, route, server, page_404, seen),
    }
}

// ---------------------------------------------------------------------------
// Laws
// ---------------------------------------------------------------------------

/// Nothing is touched on disk for a request with a method that the route does
/// not allow, on a route that redirects, or with a body over the limit: the
/// answer is 405, the redirect, or 413.
pub proof fn lemma_refused(
    req: RequestView,
    route: RouteView,
    server: ServerView,
    page_404: Option<Seq<char>>,
    seen: ObservedView,
)
    ensures
        !route.allows(req.method) ==> (dispatched(req, route, server, page_404, seen) matches
            OutcomeView::Response(r) && r.status == 405),
        route.allows(req.method) && route.redirect is Some ==> dispatched(
            req,
            route,
            server,
            page_404,
            seen,
        ) == OutcomeView::Response(
            redirect::redirected(route.redirect->0.code, route.redirect->0.target),
        ),
        route.allows(req.method) && route.redirect is None && req.body.len() > body_limit(
            route,
            server,
        ) ==> (dispatched(req, route, server, page_404, seen) matches OutcomeView::Response(r)
            && r.status == 413),
{
}

/// A request writes only with `POST`, and removes only with `DELETE`.
pub proof fn lemma_changes(
    req: RequestView,
    route: RouteView,
    server: ServerView,
    page_404: Option<Seq<char>>,
    seen: ObservedView,
)
    ensures
        dispatched(req, route, server, page_404, seen) is Upload ==> req.method == Method::Post,
        dispatched(req, route, server, page_404, seen) is Delete ==> req.method == Method::Delete,
{
}

/// The answer to `HEAD` has the status and headers of the answer to `GET`, and
/// no body.
pub proof fn lemma_head_answer(r: ResponseView)
    ensures
        for_method(Method::Head, r).body.len() == 0,
        for_method(Method::Head, r).status == for_method(Method::Get, r).status,
        for_method(Method::Head, r).headers == for_method(Method::Get, r).headers,
        for_method(Method::Get, r) == r,
{
}

/// What is done about a request that nothing refuses, and that asks for no
/// script: files and directories are served to `GET` and `HEAD`, uploads planned
/// for `POST`, removals for `DELETE`, `OPTIONS` is answered with the methods of the
/// route, and `PUT` is refused. An answer that is there at once loses its body for
/// `HEAD` alone.
pub proof fn lemma_by_method(
    req: RequestView,
    route: RouteView,
    server: ServerView,
    page_404: Option<Seq<char>>,
    seen: ObservedView,
)
    requires
        route.allows(req.method),
        route.redirect is None,
        req.body.len() <= body_limit(route, server),
        cgi::target(req, route, seen) is None,
    ensures
        ({
            let done = dispatched(req, route, server, page_404, seen);
            let page = if server.page(404) is Some {
                page_404
            } else {
                None
            };
            let step = static_file::step_for(req, route, page, seen);
            let removal = delete::decided(req, route, seen);
            &&& req.method == Method::Get && !(step is Respond) ==> done == OutcomeView::Serve(step)
            &&& req.method == Method::Head && !(step is Respond) ==> done == OutcomeView::Serve(
                step,
            )
            &&& req.method == Method::Get && step is Respond ==> done == OutcomeView::Response(
                step->Respond_0,
            )
            &&& req.method == Method::Head && step is Respond ==> done == OutcomeView::Response(
                ResponseView { body: Seq::empty(), ..step->Respond_0 },
            )
            &&& req.method == Method::Post ==> done == OutcomeView::Upload(
                upload::planned(req, route, body_limit(route, server)),
            )
            &&& req.method == Method::Delete && !(removal is Respond) ==> done
                == OutcomeView::Delete(removal)
            &&& req.method == Method::Delete && removal is Respond ==> done
                == OutcomeView::Response(removal->Respond_0)
            &&& req.method == Method::Put ==> done == OutcomeView::Response(
                builder::not_allowed_view(seq![Method::Get, Method::Post, Method::Delete]),
            )
            &&& req.method == Method::Options ==> done == OutcomeView::Response(options_view(route))
        }),
{
}

/// A script runs where the path is that of one, whatever the method, as long as
/// nothing refuses the request; a refusal names the methods of the route.
pub proof fn lemma_script_first(
    req: RequestView,
    route: RouteView,
    server: ServerView,
    page_404: Option<Seq<char>>,
    seen: ObservedView,
    t: TargetView,
)
    ensures
        route.allows(req.method) && route.redirect is None && req.body.len() <= body_limit(
            route,
            server,
        ) && cgi::target(req, route, seen) == Some(t) ==> dispatched(
            req,
            route,
            server,
            page_404,
            seen,
        ) == OutcomeView::StartCgi(t),
        !route.allows(req.method) ==> dispatched(req, route, server, page_404, seen)
            == OutcomeView::Response(builder::not_allowed_view(route.methods)),
{
}

/// The limit of a route goes before that of the server.
pub proof fn lemma_limit(route: RouteView, server: ServerView, n: usize)
    ensures
        route.client_body_limit == Some(n) ==> body_limit(route, server) == n,
        route.client_body_limit is None ==> body_limit(route, server) == server.client_body_limit,
{
}

/// `OPTIONS` is answered without a body, with the methods of the route, of which
/// `OPTIONS` is one in any case; a route that names none has the five that are
/// served.
pub proof fn lemma_options(route: RouteView, m: Method)
    ensures
        options_view(route).status == 204,
        options_view(route).body.len() == 0,
        value_of(options_view(route).headers, "Allow"@) == Some(
            builder::method_list(offered(route)),
        ),
        offered(route).contains(Method::Options),
        route.methods.len() > 0 ==> (offered(route).contains(m) <==> route.methods.contains(m) || m
            == Method::Options),
        route.methods.len() > 0 ==> offered(route).take(route.methods.len() as int)
            == route.methods,
        route.methods.len() == 0 ==> offered(route) == seq![
            Method::Get,
            Method::Head,
            Method::Post,
            Method::Delete,
            Method::Options,
        ],
{
    reveal_strlit("Content-Length");
    reveal_strlit("Allow");
    types::lemma_names_differ("Content-Length"@, "Allow"@);
    reveal_with_fuel(types::value_from, 3);
    let o = offered(route);
    if route.methods.len() == 0 {
        assert(o[4] == Method::Options);
    } else {
        assert(o.take(route.methods.len() as int) =~= route.methods);
        if !route.methods.contains(Method::Options) {
            assert(o[route.methods.len() as int] == Method::Options);
            if route.methods.contains(m) {
                let k = choose|k: int| 0 <= k < route.methods.len() && route.methods[k] == m;
                assert(o[k] == m);
            }
            if o.contains(m) && m != Method::Options {
                let k = choose|k: int| 0 <= k < o.len() && o[k] == m;
                assert(route.methods[k] == m);
            }
        }
    }
}

} // verus!
