//! Dispatch of a request to its route, and the responses of the file routes.

use vstd::prelude::*;
use crate::bytes::{copy_range, has_prefix, lit, starts_with, bytes_eq};
use crate::request::{header_lookup, HttpMethod, HttpRequest, RequestView};
use crate::response::{HttpResponse, ResponseView};

verus! {

/// What a request calls for.
pub enum Route {
    /// A response made from the request alone.
    Respond(HttpResponse),
    /// Read the named file under the served directory.
    ReadFile(Vec<u8>),
    /// Write the request body to the named file under the served directory.
    WriteFile(Vec<u8>),
}

pub enum RouteView {
    Respond(ResponseView),
    ReadFile(Seq<u8>),
    WriteFile(Seq<u8>),
}

impl View for Route {
    type V = RouteView;

    open spec fn view(&self) -> RouteView {
        match self {
            Route::Respond(r) => RouteView::Respond(r@),
            Route::ReadFile(n) => RouteView::ReadFile(n@),
            Route::WriteFile(n) => RouteView::WriteFile(n@),
        }
    }
}

/// A response with the given status, content type and body.
pub open spec fn response_of(status: &str, content_type: &str, body: Seq<u8>) -> ResponseView {
    ResponseView {
        status: lit(status),
        headers: seq![(lit("Content-Type"), lit(content_type))],
        body,
    }
}

/// The route table, first match winning.
pub open spec fn route_spec(req: RequestView) -> RouteView {
    let p = req.path;
    if p == lit("/") {
        RouteView::Respond(response_of("200 OK", "text/plain", Seq::empty()))
    } else if has_prefix(p, lit("/echo/")) {
        RouteView::Respond(
            response_of("200 OK", "text/plain", p.subrange(lit("/echo/").len() as int, p.len() as int)),
        )
    } else if p == lit("/user-agent") {
        RouteView::Respond(
            response_of(
                "200 OK",
                "text/plain",
                match header_lookup(req.headers, lit("user-agent")) {
                    Some(v) => v,
                    None => Seq::empty(),
                },
            ),
        )
    } else if has_prefix(p, lit("/files/")) {
        let name = p.subrange(lit("/files/").len() as int, p.len() as int);
        match req.method {
            HttpMethod::Get => RouteView::ReadFile(name),
            HttpMethod::Post => RouteView::WriteFile(name),
        }
    } else {
        RouteView::Respond(response_of("404 Not Found", "text/plain", Seq::empty()))
    }
}

/// Picks the route for a request.
pub fn route(req: &HttpRequest) -> (r: Route)
    ensures
        r@ == route_spec(req@),
        r matches Route::Respond(res) ==> res.well_formed(),
{
    let p = req.path.as_slice();
    if bytes_eq(p, "/".as_bytes()) {
        Route::Respond(HttpResponse::new("200 OK", "text/plain", Vec::new()))
    } else if starts_with(p, "/echo/".as_bytes()) {
        let content = copy_range(p, "/echo/".as_bytes().len(), p.len());
        Route::Respond(HttpResponse::new("200 OK", "text/plain", content))
    } else if bytes_eq(p, "/user-agent".as_bytes()) {
        let ua = match req.header("user-agent".as_bytes()) {
            Some(v) => {
                assert(v@.subrange(0, v@.len() as int) =~= v@);
                copy_range(v.as_slice(), 0, v.len())
            },
            None => Vec::new(),
        };
        Route::Respond(HttpResponse::new("200 OK", "text/plain", ua))
    } else if starts_with(p, "/files/".as_bytes()) {
        let name = copy_range(p, "/files/".as_bytes().len(), p.len());
        match req.method {
            HttpMethod::Get => Route::ReadFile(name),
            HttpMethod::Post => Route::WriteFile(name),
        }
    } else {
        Route::Respond(HttpResponse::new("404 Not Found", "text/plain", Vec::new()))
    }
}

/// The answer to a file read: the content when the file could be read,
/// `None` when it does not exist.
pub fn file_read_response(content: Option<Vec<u8>>) -> (r: HttpResponse)
    ensures
        r@ == match content {
            Some(c) => response_of("200 OK", "application/octet-stream", c@),
            None => response_of("404 Not Found", "text/plain", Seq::empty()),
        },
        r.well_formed(),
{
    match content {
        Some(c) => HttpResponse::new("200 OK", "application/octet-stream", c),
        None => HttpResponse::new("404 Not Found", "text/plain", Vec::new()),
    }
}

/// The answer to a file write, by whether it succeeded.
pub fn file_write_response(written: bool) -> (r: HttpResponse)
    ensures
        r@ == if written {
            response_of("201 Created", "text/plain", Seq::empty())
        } else {
            response_of("500 Internal Server Error", "text/plain", Seq::empty())
        },
        r.well_formed(),
{
    if written {
        HttpResponse::new("201 Created", "text/plain", Vec::new())
    } else {
        HttpResponse::new("500 Internal Server Error", "text/plain", Vec::new())
    }
}

} // verus!
