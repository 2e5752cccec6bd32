//! Requests and the incremental request parser.

use vstd::prelude::*;
use vstd::utf8::valid_utf8;
use crate::bytes::{
    bytes_eq, copy_range, lemma_skip_space_bounds, lemma_skip_word_bounds, lit, parse_usize,
    parse_usize_bytes, skip_space, skip_space_from, skip_word, skip_word_from, trim, trim_bytes,
};
use crate::text::{is_utf8, lower_utf8, to_lower_utf8};

verus! {

#[derive(Clone, Copy, Debug, PartialEq, Eq, Structural)]
pub enum HttpMethod {
    Get,
    Post,
}

/// A header as a name and a value.
pub type HeaderView = (Seq<u8>, Seq<u8>);

/// A parsed request. Header names are lower-case and distinct: a later
/// line of a name replaces the value of an earlier one.
#[derive(Debug)]
pub struct HttpRequest {
    pub method: HttpMethod,
    pub path: Vec<u8>,
    pub headers: Vec<(Vec<u8>, Vec<u8>)>,
    pub body: Vec<u8>,
}

pub struct RequestView {
    pub method: HttpMethod,
    pub path: Seq<u8>,
    pub headers: Seq<HeaderView>,
    pub body: Seq<u8>,
}

pub open spec fn headers_view(hs: Seq<(Vec<u8>, Vec<u8>)>) -> Seq<HeaderView> {
    hs.map_values(|h: (Vec<u8>, Vec<u8>)| (h.0@, h.1@))
}

impl View for HttpRequest {
    type V = RequestView;

    open spec fn view(&self) -> RequestView {
        RequestView {
            method: self.method,
            path: self.path@,
            headers: headers_view(self.headers@),
            body: self.body@,
        }
    }
}

/// The value of the last header named `key`.
pub open spec fn header_lookup(hs: Seq<HeaderView>, key: Seq<u8>) -> Option<Seq<u8>>
    decreases hs.len(),
{
    if hs.len() == 0 {
        None
    } else if hs.last().0 == key {
        Some(hs.last().1)
    } else {
        header_lookup(hs.drop_last(), key)
    }
}

/// The body length that the headers announce: 0 when absent or not a number.
pub open spec fn content_length(hs: Seq<HeaderView>) -> nat {
    match header_lookup(hs, lit("content-length")) {
        Some(v) => match parse_usize(v) {
            Some(n) => n,
            None => 0,
        },
        None => 0,
    }
}

/// Whether the client asked for the connection to end after this exchange.
pub open spec fn close_requested(hs: Seq<HeaderView>) -> bool {
    match header_lookup(hs, lit("connection")) {
        Some(v) => valid_utf8(v) && lower_utf8(v) == lit("close"),
        None => false,
    }
}

/// Method and target of a request line: the first two whitespace-separated
/// words, the first selecting POST when it is exactly `POST` and GET otherwise.
pub open spec fn request_line(line: Seq<u8>) -> Option<(HttpMethod, Seq<u8>)> {
    let a = skip_space(line, 0);
    let b = skip_word(line, a);
    let c = skip_space(line, b);
    let d = skip_word(line, c);
    if a < line.len() && c < line.len() {
        Some(
            (
                if line.subrange(a, b) == lit("POST") {
                    HttpMethod::Post
                } else {
                    HttpMethod::Get
                },
                line.subrange(c, d),
            ),
        )
    } else {
        None
    }
}

/// The first index at or after `i` where `: ` starts.
pub open spec fn separator_from(s: Seq<u8>, i: int) -> Option<int>
    decreases s.len() - i,
{
    if i < 0 || i + 1 >= s.len() {
        None
    } else if s[i] == 0x3a && s[i + 1] == 0x20 {
        Some(i)
    } else {
        separator_from(s, i + 1)
    }
}

/// A header line split at its first `: `: the lower-cased name and the
/// trimmed value. A line without the separator, or whose name is not UTF-8,
/// carries no header.
pub open spec fn header_line(line: Seq<u8>) -> Option<HeaderView> {
    match separator_from(line, 0) {
        Some(i) => if valid_utf8(line.subrange(0, i)) {
            Some((lower_utf8(line.subrange(0, i)), trim(line.subrange(i + 2, line.len() as int))))
        } else {
            None
        },
        None => None,
    }
}

/// Index of the first line feed at or after `i`, or `s.len()` when none follows.
pub open spec fn newline_from(s: Seq<u8>, i: int) -> int
    decreases s.len() - i,
{
    if 0 <= i < s.len() && s[i] != 0x0a {
        newline_from(s, i + 1)
    } else {
        i
    }
}

/// A line from `start` to the line feed at `nl` holds nothing but an optional carriage return.
pub open spec fn blank_line(s: Seq<u8>, start: int, nl: int) -> bool {
    nl == start || (nl == start + 1 && s[start] == 0x0d)
}

/// The header block of `s` from the line that starts at `start`, scanned so
/// far up to `pos`: the headers up to the first blank line, and the index
/// just past that blank line. `None` while no blank line has arrived.
pub open spec fn head_scan(s: Seq<u8>, start: int, pos: int) -> Option<(Seq<HeaderView>, int)>
    decreases s.len() - pos,
{
    if !(0 <= start <= pos && pos < s.len()) {
        None
    } else if s[pos] != 0x0a {
        head_scan(s, start, pos + 1)
    } else if blank_line(s, start, pos) {
        Some((Seq::empty(), pos + 1))
    } else {
        match head_scan(s, pos + 1, pos + 1) {
            None => None,
            Some(rest) => Some(
                (
                    match header_line(s.subrange(start, pos)) {
                        Some(h) => seq![h] + rest.0,
                        None => rest.0,
                    },
                    rest.1,
                ),
            ),
        }
    }
}

/// What the parser makes of the bytes buffered on a connection.
pub enum ParsedView {
    /// More bytes are needed.
    Incomplete,
    /// The peer closed the stream before a request began.
    Closed,
    /// The request line is unusable, the head is not UTF-8, or the stream
    /// closed inside the head.
    Malformed,
    /// A request, and how many bytes of the buffer it took.
    Complete(RequestView, nat),
}

/// The outcome of parsing the buffered bytes `s`; `eof` tells whether the peer
/// has closed its side, after which no more bytes will arrive.
pub open spec fn parse_spec(s: Seq<u8>, eof: bool) -> ParsedView {
    let e = newline_from(s, 0);
    if e >= s.len() {
        if !eof {
            ParsedView::Incomplete
        } else if s.len() == 0 {
            ParsedView::Closed
        } else {
            ParsedView::Malformed
        }
    } else if !valid_utf8(s.subrange(0, e)) {
        ParsedView::Malformed
    } else {
        match request_line(s.subrange(0, e)) {
            None => ParsedView::Malformed,
            Some(line) => match head_scan(s, e + 1, e + 1) {
                None => if eof {
                    ParsedView::Malformed
                } else {
                    ParsedView::Incomplete
                },
                Some(head) => if !valid_utf8(s.subrange(e + 1, head.1)) {
                    ParsedView::Malformed
                } else {
                    let headers = header_set_of(head.0);
                    let n = content_length(headers);
                    let h = head.1;
                    if h + n <= s.len() {
                        ParsedView::Complete(
                            RequestView {
                                method: line.0,
                                path: line.1,
                                headers: headers,
                                body: s.subrange(h, h + n),
                            },
                            (h + n) as nat,
                        )
                    } else if eof {
                        ParsedView::Complete(
                            RequestView {
                                method: line.0,
                                path: line.1,
                                headers: headers,
                                body: s.subrange(h, s.len() as int),
                            },
                            s.len(),
                        )
                    } else {
                        ParsedView::Incomplete
                    }
                },
            },
        }
    }
}

pub enum ParseOutcome {
    Incomplete,
    Closed,
    Malformed,
    Complete(HttpRequest, usize),
}

impl View for ParseOutcome {
    type V = ParsedView;

    open spec fn view(&self) -> ParsedView {
        match self {
            ParseOutcome::Incomplete => ParsedView::Incomplete,
            ParseOutcome::Closed => ParsedView::Closed,
            ParseOutcome::Malformed => ParsedView::Malformed,
            ParseOutcome::Complete(r, n) => ParsedView::Complete(r@, *n as nat),
        }
    }
}

pub proof fn lemma_newline_from_bounds(s: Seq<u8>, i: int)
    requires
        0 <= i <= s.len(),
    ensures
        i <= newline_from(s, i) <= s.len(),
        newline_from(s, i) < s.len() ==> s[newline_from(s, i)] == 0x0a,
        forall|k: int| i <= k < newline_from(s, i) ==> #[trigger] s[k] != 0x0a,
    decreases s.len() - i,
{
    if i < s.len() && s[i] != 0x0a {
        lemma_newline_from_bounds(s, i + 1);
    }
}

pub proof fn lemma_head_scan_bounds(s: Seq<u8>, start: int, pos: int)
    ensures
        head_scan(s, start, pos) matches Some(r) ==> pos < r.1 <= s.len(),
    decreases s.len() - pos,
{
    if 0 <= start <= pos && pos < s.len() {
        if s[pos] != 0x0a {
            lemma_head_scan_bounds(s, start, pos + 1);
        } else if !blank_line(s, start, pos) {
            lemma_head_scan_bounds(s, pos + 1, pos + 1);
        }
    }
}

fn find_newline(s: &[u8], start: usize) -> (r: usize)
    requires
        start <= s@.len(),
    ensures
        r == newline_from(s@, start as int),
{
    let mut i = start;
    while i < s.len() && s[i] != 0x0a
        invariant
            start <= i <= s@.len(),
            newline_from(s@, i as int) == newline_from(s@, start as int),
        decreases s@.len() - i,
    {
        i = i + 1;
    }
    i
}

/// The value of the last header named `key`.
pub fn find_header<'a>(headers: &'a Vec<(Vec<u8>, Vec<u8>)>, key: &[u8]) -> (r: Option<&'a Vec<u8>>)
    ensures
        match r {
            Some(v) => header_lookup(headers_view(headers@), key@) == Some(v@),
            None => header_lookup(headers_view(headers@), key@) is None,
        },
{
    let ghost hs = headers_view(headers@);
    let mut i = headers.len();
    assert(hs.subrange(0, i as int) =~= hs);
    while i > 0
        invariant
            i <= headers@.len(),
            hs == headers_view(headers@),
            header_lookup(hs, key@) == header_lookup(hs.subrange(0, i as int), key@),
        decreases i,
    {
        let ghost pre = hs.subrange(0, i as int);
        assert(pre.drop_last() =~= hs.subrange(0, i - 1));
        if bytes_eq(headers[i - 1].0.as_slice(), key) {
            return Some(&headers[i - 1].1);
        }
        i = i - 1;
    }
    None
}

/// The headers as a mapping from name to value, later entries replacing
/// earlier ones of the same name.
pub open spec fn header_map(hs: Seq<HeaderView>) -> Map<Seq<u8>, Seq<u8>>
    decreases hs.len(),
{
    if hs.len() == 0 {
        Map::empty()
    } else {
        header_map(hs.drop_last()).insert(hs.last().0, hs.last().1)
    }
}

/// No two headers share a name.
pub open spec fn distinct_names(hs: Seq<HeaderView>) -> bool {
    forall|i: int, j: int| 0 <= i < j < hs.len() ==> #[trigger] hs[i].0 != #[trigger] hs[j].0
}

/// Sets header `k` to `v`: in place when a header of that name exists,
/// appended otherwise.
pub open spec fn set_header(hs: Seq<HeaderView>, k: Seq<u8>, v: Seq<u8>) -> Seq<HeaderView> {
    if exists|i: int| 0 <= i < hs.len() && hs[i].0 == k {
        let i = choose|i: int| 0 <= i < hs.len() && hs[i].0 == k;
        hs.update(i, (k, v))
    } else {
        hs.push((k, v))
    }
}

/// Sets header `name` to `value` in a list with distinct names.
pub fn put_header(headers: &mut Vec<(Vec<u8>, Vec<u8>)>, name: Vec<u8>, value: Vec<u8>)
    requires
        distinct_names(headers_view(old(headers)@)),
    ensures
        headers_view(final(headers)@) == set_header(headers_view(old(headers)@), name@, value@),
        distinct_names(headers_view(final(headers)@)),
{
    let ghost hs = headers_view(headers@);
    let mut i: usize = 0;
    while i < headers.len()
        invariant
            i <= headers@.len(),
            hs == headers_view(headers@),
            headers@ == old(headers)@,
            distinct_names(hs),
            forall|k: int| 0 <= k < i ==> #[trigger] hs[k].0 != name@,
        decreases headers@.len() - i,
    {
        if bytes_eq(headers[i].0.as_slice(), name.as_slice()) {
            let ghost nv = name@;
            let ghost vv = value@;
            headers.set(i, (name, value));
            proof {
                assert(hs[i as int].0 == nv);
                let j = choose|j: int| 0 <= j < hs.len() && hs[j].0 == nv;
                assert(j == i);
                assert(headers_view(headers@) =~= hs.update(i as int, (nv, vv)));
                let hs2 = headers_view(headers@);
                assert forall|a: int, b: int| 0 <= a < b < hs2.len() implies #[trigger] hs2[a].0
                    != #[trigger] hs2[b].0 by {
                    assert(hs[a].0 != hs[b].0);
                }
            }
            return;
        }
        i = i + 1;
    }
    let ghost nv = name@;
    let ghost vv = value@;
    headers.push((name, value));
    proof {
        assert(headers_view(headers@) =~= hs.push((nv, vv)));
        let hs2 = headers_view(headers@);
        assert forall|a: int, b: int| 0 <= a < b < hs2.len() implies #[trigger] hs2[a].0
            != #[trigger] hs2[b].0 by {
            if b < hs.len() {
                assert(hs[a].0 != hs[b].0);
            } else {
                assert(hs[a].0 != nv);
            }
        }
    }
}

/// The header lines applied in order: a later line of a name replaces the
/// value of an earlier one, so names are distinct.
pub open spec fn header_set_of(hs: Seq<HeaderView>) -> Seq<HeaderView>
    decreases hs.len(),
{
    if hs.len() == 0 {
        Seq::empty()
    } else {
        set_header(header_set_of(hs.drop_last()), hs.last().0, hs.last().1)
    }
}

fn distinct_headers(raw: &Vec<(Vec<u8>, Vec<u8>)>) -> (r: Vec<(Vec<u8>, Vec<u8>)>)
    ensures
        headers_view(r@) == header_set_of(headers_view(raw@)),
        distinct_names(headers_view(r@)),
{
    let ghost all = headers_view(raw@);
    let mut out: Vec<(Vec<u8>, Vec<u8>)> = Vec::new();
    assert(headers_view(out@) =~= header_set_of(all.subrange(0, 0)));
    let mut i: usize = 0;
    while i < raw.len()
        invariant
            i <= raw@.len(),
            all == headers_view(raw@),
            headers_view(out@) == header_set_of(all.subrange(0, i as int)),
            distinct_names(headers_view(out@)),
        decreases raw@.len() - i,
    {
        let k = copy_range(raw[i].0.as_slice(), 0, raw[i].0.len());
        let v = copy_range(raw[i].1.as_slice(), 0, raw[i].1.len());
        proof {
            assert(raw@[i as int].0@.subrange(0, raw@[i as int].0@.len() as int) =~= raw@[i as int].0@);
            assert(raw@[i as int].1@.subrange(0, raw@[i as int].1@.len() as int) =~= raw@[i as int].1@);
            assert(all.subrange(0, i + 1).drop_last() =~= all.subrange(0, i as int));
        }
        put_header(&mut out, k, v);
        i = i + 1;
    }
    assert(all.subrange(0, all.len() as int) =~= all);
    out
}

/// The announced body length of a header list.
fn body_length(headers: &Vec<(Vec<u8>, Vec<u8>)>) -> (r: usize)
    ensures
        r as nat == content_length(headers_view(headers@)),
{
    match find_header(headers, "content-length".as_bytes()) {
        Some(v) => match parse_usize_bytes(v.as_slice()) {
            Some(n) => n,
            None => 0,
        },
        None => 0,
    }
}

/// The header block from `first` through its blank line.
fn parse_headers(s: &[u8], first: usize) -> (r: Option<(Vec<(Vec<u8>, Vec<u8>)>, usize)>)
    requires
        first <= s@.len(),
    ensures
        match r {
            Some(p) => head_scan(s@, first as int, first as int) == Some(
                (headers_view(p.0@), p.1 as int),
            ),
            None => head_scan(s@, first as int, first as int) is None,
        },
{
    let mut headers: Vec<(Vec<u8>, Vec<u8>)> = Vec::new();
    let mut start = first;
    let mut pos = first;
    proof {
        match head_scan(s@, first as int, first as int) {
            Some(rest) => {
                assert(headers_view(headers@) + rest.0 =~= rest.0);
            },
            None => {},
        }
    }
    loop
        invariant
            first <= start <= pos <= s@.len(),
            head_scan(s@, first as int, first as int) == match head_scan(
                s@,
                start as int,
                pos as int,
            ) {
                None => None,
                Some(rest) => Some((headers_view(headers@) + rest.0, rest.1)),
            },
        decreases s@.len() - pos,
    {
        if pos >= s.len() {
            return None;
        }
        if s[pos] != 0x0a {
            pos = pos + 1;
        } else if pos == start || (pos == start + 1 && s[start] == 0x0d) {
            assert(headers_view(headers@) + Seq::<HeaderView>::empty() =~= headers_view(headers@));
            return Some((headers, pos + 1));
        } else {
            let line = vstd::slice::slice_subrange(s, start, pos);
            let parsed = HttpRequest::parse_header_line(line);
            let ghost before = headers_view(headers@);
            match parsed {
                Some(h) => {
                    headers.push(h);
                    proof {
                        assert(headers_view(headers@) =~= before + seq![(h.0@, h.1@)]);
                        match head_scan(s@, pos + 1, pos + 1) {
                            Some(rest) => {
                                assert(before + (seq![(h.0@, h.1@)] + rest.0) =~= headers_view(
                                    headers@,
                                ) + rest.0);
                            },
                            None => {},
                        }
                    }
                },
                None => {},
            }
            pos = pos + 1;
            start = pos;
        }
    }
}

impl HttpRequest {
    /// Header names are distinct, as the parser leaves them.
    pub open spec fn well_formed(&self) -> bool {
        distinct_names(self@.headers)
    }

    /// The value of the header `key` (given in lower case), if present.
    pub fn header(&self, key: &[u8]) -> (r: Option<&Vec<u8>>)
        ensures
            match r {
                Some(v) => header_lookup(self@.headers, key@) == Some(v@),
                None => header_lookup(self@.headers, key@) is None,
            },
    {
        find_header(&self.headers, key)
    }

    /// Whether the request asks for its connection to end after the response.
    pub fn wants_close(&self) -> (r: bool)
        ensures
            r == close_requested(self@.headers),
    {
        match find_header(&self.headers, "connection".as_bytes()) {
            Some(v) => match to_lower_utf8(v.as_slice()) {
                Some(l) => bytes_eq(l.as_slice(), "close".as_bytes()),
                None => false,
            },
            None => false,
        }
    }

    /// Parses one request from the front of the bytes buffered on a
    /// connection. `at_eof` tells whether the peer has closed its side.
    /// Bytes after the request stay in the buffer for the next one.
    pub fn parse(s: &[u8], at_eof: bool) -> (r: ParseOutcome)
        ensures
            r@ == parse_spec(s@, at_eof),
            r matches ParseOutcome::Complete(_, n) ==> 0 < n <= s@.len(),
            r matches ParseOutcome::Complete(req, _) ==> req.well_formed(),
    {
        let e = find_newline(s, 0);
        if e >= s.len() {
            return if !at_eof {
                ParseOutcome::Incomplete
            } else if s.len() == 0 {
                ParseOutcome::Closed
            } else {
                ParseOutcome::Malformed
            };
        }
        let line = vstd::slice::slice_subrange(s, 0, e);
        if !is_utf8(line) {
            return ParseOutcome::Malformed;
        }
        let (method, path) = match HttpRequest::parse_request_line(line) {
            Some(p) => p,
            None => {
                return ParseOutcome::Malformed;
            },
        };
        let (headers, h) = match parse_headers(s, e + 1) {
            Some(p) => p,
            None => {
                return if at_eof {
                    ParseOutcome::Malformed
                } else {
                    ParseOutcome::Incomplete
                };
            },
        };
        proof {
            lemma_head_scan_bounds(s@, e + 1, e + 1);
        }
        if !is_utf8(vstd::slice::slice_subrange(s, e + 1, h)) {
            return ParseOutcome::Malformed;
        }
        let headers = distinct_headers(&headers);
        let n = body_length(&headers);
        if n <= s.len() - h {
            let body = copy_range(s, h, h + n);
            let req = HttpRequest { method, path, headers, body };
            ParseOutcome::Complete(req, h + n)
        } else if at_eof {
            let body = copy_range(s, h, s.len());
            let req = HttpRequest { method, path, headers, body };
            ParseOutcome::Complete(req, s.len())
        } else {
            ParseOutcome::Incomplete
        }
    }

    /// Splits a request line into method and target.
    pub fn parse_request_line(line: &[u8]) -> (r: Option<(HttpMethod, Vec<u8>)>)
        ensures
            match r {
                Some(p) => request_line(line@) == Some((p.0, p.1@)),
                None => request_line(line@) is None,
            },
    {
        proof {
            lemma_skip_space_bounds(line@, 0);
        }
        let a = skip_space_from(line, 0);
        proof {
            lemma_skip_word_bounds(line@, a as int);
        }
        let b = skip_word_from(line, a);
        proof {
            lemma_skip_space_bounds(line@, b as int);
        }
        let c = skip_space_from(line, b);
        proof {
            lemma_skip_word_bounds(line@, c as int);
        }
        let d = skip_word_from(line, c);
        if a >= line.len() || c >= line.len() {
            return None;
        }
        let word = copy_range(line, a, b);
        let method = if bytes_eq(word.as_slice(), "POST".as_bytes()) {
            HttpMethod::Post
        } else {
            HttpMethod::Get
        };
        Some((method, copy_range(line, c, d)))
    }

    /// Splits a header line at its first `: `.
    pub fn parse_header_line(line: &[u8]) -> (r: Option<(Vec<u8>, Vec<u8>)>)
        ensures
            match r {
                Some(h) => header_line(line@) == Some((h.0@, h.1@)),
                None => header_line(line@) is None,
            },
    {
        let mut i: usize = 0;
        while line.len() > 1 && i < line.len() - 1
            invariant
                i <= line@.len(),
                separator_from(line@, 0) == separator_from(line@, i as int),
            decreases line@.len() - i,
        {
            if line[i] == 0x3a && line[i + 1] == 0x20 {
                let name = copy_range(line, 0, i);
                let value = copy_range(line, i + 2, line.len());
                let key = match to_lower_utf8(name.as_slice()) {
                    Some(k) => k,
                    None => {
                        return None;
                    },
                };
                let v = trim_bytes(value.as_slice());
                return Some((key, v));
            }
            i = i + 1;
        }
        None
    }
}

} // verus!
