//! Responses: construction, negotiation against the request, and the bytes
//! sent on the wire.

use vstd::prelude::*;
use crate::bytes::{
    append_bytes, bytes_eq, copy_range, decimal, lit, push_decimal, trim, trim_bytes,
};
use crate::request::{
    close_requested, distinct_names, find_header, header_lookup, headers_view, put_header,
    set_header, HeaderView, HttpRequest,
};
use crate::utils::{compress_body, gzip_of};

verus! {

/// A response: status fragment (such as `200 OK`), headers with distinct
/// names in the case given, and body.
#[derive(Debug)]
pub struct HttpResponse {
    status: Vec<u8>,
    headers: Vec<(Vec<u8>, Vec<u8>)>,
    body: Vec<u8>,
}

pub struct ResponseView {
    pub status: Seq<u8>,
    pub headers: Seq<HeaderView>,
    pub body: Seq<u8>,
}

impl View for HttpResponse {
    type V = ResponseView;

    closed spec fn view(&self) -> ResponseView {
        ResponseView {
            status: self.status@,
            headers: headers_view(self.headers@),
            body: self.body@,
        }
    }
}

/// `s[a..b]` is one item of the comma-separated list `s`.
pub open spec fn list_item(s: Seq<u8>, a: int, b: int) -> bool {
    &&& 0 <= a <= b <= s.len()
    &&& (a == 0 || s[a - 1] == 0x2c)
    &&& (b == s.len() || s[b] == 0x2c)
    &&& forall|k: int| a <= k < b ==> s[k] != 0x2c
}

/// Some item of the comma-separated list `s`, once trimmed, equals `t`.
pub open spec fn list_has(s: Seq<u8>, t: Seq<u8>) -> bool {
    exists|a: int, b: int| #[trigger] list_item(s, a, b) && trim(s.subrange(a, b)) == t
}

/// The request's `accept-encoding` lists `gzip`.
pub open spec fn gzip_accepted(req_headers: Seq<HeaderView>) -> bool {
    match header_lookup(req_headers, lit("accept-encoding")) {
        Some(v) => list_has(v, lit("gzip")),
        None => false,
    }
}

/// The response as sent for a request with headers `req_headers`: the body
/// gzip-encoded when the client accepts it, `Content-Length` set to the
/// length of the body sent, and `Connection: close` echoed.
pub open spec fn negotiated(r: ResponseView, req_headers: Seq<HeaderView>) -> ResponseView {
    let gz = gzip_accepted(req_headers);
    let body = if gz {
        gzip_of(r.body)
    } else {
        r.body
    };
    let h1 = if gz {
        set_header(r.headers, lit("Content-Encoding"), lit("gzip"))
    } else {
        r.headers
    };
    let h2 = set_header(h1, lit("Content-Length"), decimal(body.len()));
    let h3 = if close_requested(req_headers) {
        set_header(h2, lit("Connection"), lit("close"))
    } else {
        h2
    };
    ResponseView { status: r.status, headers: h3, body }
}

/// The header lines, each `name: value` and CRLF.
pub open spec fn header_bytes(hs: Seq<HeaderView>) -> Seq<u8>
    decreases hs.len(),
{
    if hs.len() == 0 {
        Seq::empty()
    } else {
        header_bytes(hs.drop_last()) + hs.last().0 + lit(": ") + hs.last().1 + lit("\r\n")
    }
}

/// Status line, header lines, blank line, body.
pub open spec fn wire(r: ResponseView) -> Seq<u8> {
    lit("HTTP/1.1 ") + r.status + lit("\r\n") + header_bytes(r.headers) + lit("\r\n") + r.body
}

fn str_bytes(s: &str) -> (r: Vec<u8>)
    ensures
        r@ == lit(s),
{
    let b = s.as_bytes();
    copy_range(b, 0, b.len())
}

fn list_contains(s: &[u8], t: &[u8]) -> (r: bool)
    ensures
        r == list_has(s@, t@),
{
    let n = s.len();
    let mut start: usize = 0;
    let mut pos: usize = 0;
    loop
        invariant
            n == s@.len(),
            start <= pos <= n,
            start == 0 || s@[start - 1] == 0x2c,
            forall|k: int| start <= k < pos ==> s@[k] != 0x2c,
            forall|a: int, b: int|
                #[trigger] list_item(s@, a, b) && b < start ==> trim(s@.subrange(a, b)) != t@,
        decreases n - pos,
    {
        if pos == n || s[pos] == 0x2c {
            let item = trim_bytes(vstd::slice::slice_subrange(s, start, pos));
            assert(list_item(s@, start as int, pos as int));
            if bytes_eq(item.as_slice(), t) {
                return true;
            }
            assert forall|a: int, b: int|
                #[trigger] list_item(s@, a, b) && b < pos + 1 implies trim(s@.subrange(a, b)) != t@ by {
                if b >= start {
                    if b < pos {
                        assert(s@[b] != 0x2c);
                    }
                    if a < start {
                        assert(s@[start - 1] == 0x2c);
                    }
                    if a > start {
                        assert(s@[a - 1] == 0x2c);
                    }
                }
            }
            if pos == n {
                return false;
            }
            pos = pos + 1;
            start = pos;
        } else {
            pos = pos + 1;
        }
    }
}

impl HttpResponse {
    /// Headers with distinct names.
    pub open spec fn well_formed(&self) -> bool {
        distinct_names(self@.headers)
    }

    /// A response with the given status, a `Content-Type` header and a body.
    pub fn new(status: &str, content_type: &str, body: Vec<u8>) -> (r: Self)
        ensures
            r@ == (ResponseView {
                status: lit(status),
                headers: seq![(lit("Content-Type"), lit(content_type))],
                body: body@,
            }),
            r.well_formed(),
    {
        let mut headers: Vec<(Vec<u8>, Vec<u8>)> = Vec::new();
        headers.push((str_bytes("Content-Type"), str_bytes(content_type)));
        let r = HttpResponse { status: str_bytes(status), headers, body };
        assert(r@.headers =~= seq![(lit("Content-Type"), lit(content_type))]);
        r
    }

    /// Sets header `name` to `value`, keeping names distinct.
    fn set_header(&mut self, name: Vec<u8>, value: Vec<u8>)
        requires
            old(self).well_formed(),
        ensures
            final(self)@ == (ResponseView {
                headers: set_header(old(self)@.headers, name@, value@),
                ..old(self)@
            }),
            final(self).well_formed(),
    {
        put_header(&mut self.headers, name, value);
    }

    /// Readies the response for the request it answers: gzip when the
    /// request accepts it, `Content-Length` of the final body, and the
    /// `Connection: close` echo.
    pub fn negotiate(self, req: &HttpRequest) -> (r: HttpResponse)
        requires
            self.well_formed(),
        ensures
            r@ == negotiated(self@, req@.headers),
            r.well_formed(),
    {
        let mut res = self;
        let gz = match find_header(&req.headers, "accept-encoding".as_bytes()) {
            Some(v) => list_contains(v.as_slice(), "gzip".as_bytes()),
            None => false,
        };
        if gz {
            res.body = compress_body(res.body.as_slice());
            res.set_header(str_bytes("Content-Encoding"), str_bytes("gzip"));
        }
        let mut len: Vec<u8> = Vec::new();
        push_decimal(&mut len, res.body.len());
        assert(len@ =~= decimal(res.body@.len()));
        res.set_header(str_bytes("Content-Length"), len);
        if req.wants_close() {
            res.set_header(str_bytes("Connection"), str_bytes("close"));
        }
        res
    }

    /// The bytes of the response on the wire.
    pub fn to_bytes(&self) -> (r: Vec<u8>)
        ensures
            r@ == wire(self@),
    {
        let mut out = str_bytes("HTTP/1.1 ");
        append_bytes(&mut out, self.status.as_slice());
        append_bytes(&mut out, "\r\n".as_bytes());
        let ghost prefix = out@;
        let ghost hs = self@.headers;
        let mut i: usize = 0;
        while i < self.headers.len()
            invariant
                i <= self.headers@.len(),
                hs == headers_view(self.headers@),
                out@ == prefix + header_bytes(hs.subrange(0, i as int)),
            decreases self.headers@.len() - i,
        {
            append_bytes(&mut out, self.headers[i].0.as_slice());
            append_bytes(&mut out, ": ".as_bytes());
            append_bytes(&mut out, self.headers[i].1.as_slice());
            append_bytes(&mut out, "\r\n".as_bytes());
            i = i + 1;
            assert(hs.subrange(0, i as int).drop_last() =~= hs.subrange(0, i - 1));
            assert(out@ =~= prefix + header_bytes(hs.subrange(0, i as int)));
        }
        assert(hs.subrange(0, hs.len() as int) =~= hs);
        append_bytes(&mut out, "\r\n".as_bytes());
        append_bytes(&mut out, self.body.as_slice());
        assert(out@ =~= wire(self@));
        out
    }

    pub fn status(&self) -> (r: &Vec<u8>)
        ensures
            r@ == self@.status,
    {
        &self.status
    }

    pub fn body(&self) -> (r: &Vec<u8>)
        ensures
            r@ == self@.body,
    {
        &self.body
    }

    /// The value of the header named exactly `name`, if present.
    pub fn header(&self, name: &[u8]) -> (r: Option<&Vec<u8>>)
        ensures
            match r {
                Some(v) => header_lookup(self@.headers, name@) == Some(v@),
                None => header_lookup(self@.headers, name@) is None,
            },
    {
        find_header(&self.headers, name)
    }

    /// Negotiates against the request and renders the result: the bytes to
    /// send in answer to `req`.
    pub fn encode(self, req: &HttpRequest) -> (r: Vec<u8>)
        requires
            self.well_formed(),
        ensures
            r@ == wire(negotiated(self@, req@.headers)),
    {
        self.negotiate(req).to_bytes()
    }
}

} // verus!
