//! Properties of the protocol core, stated over the models of its functions.

use vstd::prelude::*;
use vstd::utf8::valid_utf8;
use crate::bytes::{lit, skip_space, skip_word, space_len, trim};
use crate::text::lower_utf8;
use crate::bytes::decimal;
use crate::request::{
    blank_line, head_scan, lemma_head_scan_bounds, newline_from, parse_spec, ParsedView,
    close_requested, header_line, header_map, header_lookup, request_line, separator_from, HeaderView,
    HttpMethod,
};
use crate::request::{distinct_names, set_header};
use crate::response::{gzip_accepted, header_bytes, negotiated, wire, ResponseView};
use crate::utils::gzip_of;

verus! {

proof fn lemma_skip_word_to(s: Seq<u8>, i: int, j: int)
    requires
        0 <= i <= j <= s.len(),
        forall|k: int| i <= k < j ==> #[trigger] space_len(s, k) == 0,
        j == s.len() || space_len(s, j) > 0,
    ensures
        skip_word(s, i) == j,
    decreases j - i,
{
    if i < j {
        lemma_skip_word_to(s, i + 1, j);
    }
}

/// A request line `M P HTTP/1.1`, with `M` and `P` non-empty words in which
/// no whitespace character starts, parses to target `P` and to POST exactly when `M` is `POST`:
/// `GET` gives GET, and so does any other verb.
pub proof fn law_request_line(m: Seq<u8>, p: Seq<u8>)
    requires
        m.len() > 0,
        p.len() > 0,
        forall|i: int| 0 <= i < m.len() ==> #[trigger] space_len(m, i) == 0,
        forall|i: int| 0 <= i < p.len() ==> #[trigger] space_len(p, i) == 0,
    ensures
        request_line(m + lit(" ") + p + lit(" HTTP/1.1")) == Some(
            (
                if m == lit("POST") {
                    HttpMethod::Post
                } else {
                    HttpMethod::Get
                },
                p,
            ),
        ),
        m == lit("GET") ==> request_line(m + lit(" ") + p + lit(" HTTP/1.1")) == Some(
            (HttpMethod::Get, p),
        ),
{
    reveal_strlit(" ");
    reveal_strlit(" HTTP/1.1");
    reveal_strlit("GET");
    reveal_strlit("POST");
    vstd::string::is_ascii_spec_bytes(" ");
    vstd::string::is_ascii_spec_bytes(" HTTP/1.1");
    vstd::string::is_ascii_spec_bytes("GET");
    vstd::string::is_ascii_spec_bytes("POST");
    let line = m + lit(" ") + p + lit(" HTTP/1.1");
    let ml = m.len() as int;
    let pl = p.len() as int;
    assert(lit(" ") =~= seq![0x20u8]);
    assert(lit(" HTTP/1.1")[0] == 0x20u8);
    assert(line[ml] == 0x20u8);
    assert(line[ml + 1 + pl] == 0x20u8);
    assert(lit(" HTTP/1.1")[1] == 0x48u8);
    assert forall|k: int| 0 <= k < ml implies #[trigger] space_len(line, k) == 0 by {
        assert(space_len(m, k) == 0);
        assert(line[k] == m[k]);
        if k + 1 < ml {
            assert(line[k + 1] == m[k + 1]);
        }
        if k + 2 < ml {
            assert(line[k + 2] == m[k + 2]);
        }
        if k + 2 == ml {
            assert(line[k + 1] == m[k + 1]);
        }
    }
    assert forall|k: int| ml + 1 <= k < ml + 1 + pl implies #[trigger] space_len(line, k) == 0 by {
        assert(space_len(p, k - ml - 1) == 0);
        assert(line[k] == p[k - ml - 1]);
        if k + 1 < ml + 1 + pl {
            assert(line[k + 1] == p[k + 1 - ml - 1]);
        }
        if k + 2 < ml + 1 + pl {
            assert(line[k + 2] == p[k + 2 - ml - 1]);
        }
        if k + 2 == ml + 1 + pl {
            assert(line[k + 1] == p[k + 1 - ml - 1]);
            assert(line[k + 2] == 0x20u8);
        }
        if k + 1 == ml + 1 + pl {
            assert(line[k + 1] == 0x20u8);
            assert(line[k + 2] == 0x48u8);
        }
    }
    assert(space_len(line, ml) == 1);
    assert(space_len(line, ml + 1 + pl) == 1);
    assert(space_len(line, 0) == 0);
    assert(space_len(line, ml + 1) == 0);
    assert(skip_space(line, 0) == 0);
    assert(skip_space(line, ml + 1) == ml + 1);
    assert(skip_space(line, ml) == ml + 1);
    lemma_skip_word_to(line, 0, ml);
    lemma_skip_word_to(line, ml + 1, ml + 1 + pl);
    assert(line.subrange(0, ml) =~= m);
    assert(line.subrange(ml + 1, ml + 1 + pl) =~= p);
    assert(lit("GET") != lit("POST")) by {
        assert(lit("GET").len() != lit("POST").len());
    }
}

proof fn lemma_separator_after(k: Seq<u8>, line: Seq<u8>, i: int)
    requires
        0 <= i <= k.len(),
        k.len() + 2 <= line.len(),
        line.subrange(0, k.len() as int) == k,
        line[k.len() as int] == 0x3a,
        line[k.len() as int + 1] == 0x20,
        forall|j: int| 0 <= j < k.len() ==> #[trigger] k[j] != 0x3a,
    ensures
        separator_from(line, i) == Some(k.len() as int),
    decreases k.len() - i,
{
    if i < k.len() {
        assert(line[i] == line.subrange(0, k.len() as int)[i]);
        lemma_separator_after(k, line, i + 1);
    }
}

/// Header names are matched without regard to case: a line `K: V`, with `K`
/// UTF-8 text free of `:`, yields the header named by the lower-cased `K` with the
/// trimmed `V`, and a lookup under that lower-case name finds the value when
/// it is the last line of that name.
pub proof fn law_header_case(k: Seq<u8>, v: Seq<u8>, earlier: Seq<HeaderView>)
    requires
        forall|j: int| 0 <= j < k.len() ==> #[trigger] k[j] != 0x3a,
        valid_utf8(k),
    ensures
        header_line(k + lit(": ") + v) == Some((lower_utf8(k), trim(v))),
        header_lookup(earlier.push((lower_utf8(k), trim(v))), lower_utf8(k)) == Some(trim(v)),
{
    reveal_strlit(": ");
    vstd::string::is_ascii_spec_bytes(": ");
    let line = k + lit(": ") + v;
    let kl = k.len() as int;
    assert(lit(": ") =~= seq![0x3au8, 0x20u8]);
    assert(line.subrange(0, kl) =~= k);
    assert(line[kl] == 0x3a);
    assert(line[kl + 1] == 0x20);
    lemma_separator_after(k, line, 0);
    assert(line.subrange(kl + 2, line.len() as int) =~= v);
    assert(earlier.push((lower_utf8(k), trim(v))).drop_last() =~= earlier);
}

/// Some header is named `k`.
pub open spec fn has_name(hs: Seq<HeaderView>, k: Seq<u8>) -> bool {
    exists|i: int| 0 <= i < hs.len() && #[trigger] hs[i].0 == k
}

/// Every header named `k` carries `v`, and there is one.
pub open spec fn carries(hs: Seq<HeaderView>, k: Seq<u8>, v: Seq<u8>) -> bool {
    has_name(hs, k) && forall|i: int| 0 <= i < hs.len() && #[trigger] hs[i].0 == k ==> hs[i].1 == v
}

proof fn lemma_set_header(hs: Seq<HeaderView>, k: Seq<u8>, v: Seq<u8>)
    requires
        distinct_names(hs),
    ensures
        distinct_names(set_header(hs, k, v)),
        carries(set_header(hs, k, v), k, v),
        forall|n: Seq<u8>| n != k ==> (has_name(set_header(hs, k, v), n) <==> has_name(hs, n)),
        forall|n: Seq<u8>, w: Seq<u8>|
            n != k ==> (carries(set_header(hs, k, v), n, w) <==> carries(hs, n, w)),
{
    let out = set_header(hs, k, v);
    if exists|i: int| 0 <= i < hs.len() && hs[i].0 == k {
        let i = choose|i: int| 0 <= i < hs.len() && hs[i].0 == k;
        assert(out == hs.update(i, (k, v)));
        assert(out[i].0 == k);
        assert forall|n: Seq<u8>| n != k implies (has_name(out, n) <==> has_name(hs, n)) by {
            if has_name(out, n) {
                let j = choose|j: int| 0 <= j < out.len() && #[trigger] out[j].0 == n;
                assert(hs[j].0 == n);
            }
            if has_name(hs, n) {
                let j = choose|j: int| 0 <= j < hs.len() && #[trigger] hs[j].0 == n;
                assert(out[j].0 == n);
            }
        }
    } else {
        assert(out == hs.push((k, v)));
        assert(out[hs.len() as int].0 == k);
        assert forall|n: Seq<u8>| n != k implies (has_name(out, n) <==> has_name(hs, n)) by {
            if has_name(out, n) {
                let j = choose|j: int| 0 <= j < out.len() && #[trigger] out[j].0 == n;
                assert(hs[j].0 == n);
            }
            if has_name(hs, n) {
                let j = choose|j: int| 0 <= j < hs.len() && #[trigger] hs[j].0 == n;
                assert(out[j].0 == n);
            }
        }
    }
}

proof fn lemma_names_differ()
    ensures
        lit("Content-Length") != lit("Content-Encoding"),
        lit("Content-Length") != lit("Connection"),
        lit("Content-Encoding") != lit("Connection"),
{
    reveal_strlit("Content-Length");
    reveal_strlit("Content-Encoding");
    reveal_strlit("Connection");
    vstd::string::is_ascii_spec_bytes("Content-Length");
    vstd::string::is_ascii_spec_bytes("Content-Encoding");
    vstd::string::is_ascii_spec_bytes("Connection");
    assert(lit("Content-Length").len() == 14);
    assert(lit("Content-Encoding").len() == 16);
    assert(lit("Connection").len() == 10);
}

/// The headers of a negotiated response: names stay distinct, the length
/// header is set, and the encoding and connection headers are set exactly
/// when negotiation calls for them.
proof fn lemma_negotiated_headers(r: ResponseView, req_headers: Seq<HeaderView>)
    requires
        distinct_names(r.headers),
    ensures
        distinct_names(negotiated(r, req_headers).headers),
        carries(
            negotiated(r, req_headers).headers,
            lit("Content-Length"),
            decimal(negotiated(r, req_headers).body.len()),
        ),
        gzip_accepted(req_headers) ==> carries(
            negotiated(r, req_headers).headers,
            lit("Content-Encoding"),
            lit("gzip"),
        ),
        !gzip_accepted(req_headers) ==> (has_name(
            negotiated(r, req_headers).headers,
            lit("Content-Encoding"),
        ) <==> has_name(r.headers, lit("Content-Encoding"))),
        close_requested(req_headers) ==> carries(
            negotiated(r, req_headers).headers,
            lit("Connection"),
            lit("close"),
        ),
        !close_requested(req_headers) ==> (has_name(
            negotiated(r, req_headers).headers,
            lit("Connection"),
        ) <==> has_name(r.headers, lit("Connection"))),
{
    lemma_names_differ();
    let out = negotiated(r, req_headers);
    let gz = gzip_accepted(req_headers);
    let h1 = if gz {
        set_header(r.headers, lit("Content-Encoding"), lit("gzip"))
    } else {
        r.headers
    };
    if gz {
        lemma_set_header(r.headers, lit("Content-Encoding"), lit("gzip"));
    }
    lemma_set_header(h1, lit("Content-Length"), decimal(out.body.len()));
    let h2 = set_header(h1, lit("Content-Length"), decimal(out.body.len()));
    if close_requested(req_headers) {
        lemma_set_header(h2, lit("Connection"), lit("close"));
    }
}

/// Whatever the request, the response sent carries a `Content-Length`
/// header, and every header of that name gives the exact length of the body
/// sent, compressed or not.
pub proof fn law_content_length(r: ResponseView, req_headers: Seq<HeaderView>)
    requires
        distinct_names(r.headers),
    ensures
        carries(
            negotiated(r, req_headers).headers,
            lit("Content-Length"),
            decimal(negotiated(r, req_headers).body.len()),
        ),
{
    lemma_negotiated_headers(r, req_headers);
}

/// When the request's `accept-encoding` lists `gzip`, the body sent is the
/// gzip encoding of the payload and the response says `Content-Encoding: gzip`.
/// Otherwise the body goes out unchanged and no `Content-Encoding` header is
/// added.
pub proof fn law_gzip_negotiation(r: ResponseView, req_headers: Seq<HeaderView>)
    requires
        distinct_names(r.headers),
    ensures
        gzip_accepted(req_headers) ==> negotiated(r, req_headers).body == gzip_of(r.body) && carries(
            negotiated(r, req_headers).headers,
            lit("Content-Encoding"),
            lit("gzip"),
        ),
        !gzip_accepted(req_headers) ==> negotiated(r, req_headers).body == r.body && (has_name(
            negotiated(r, req_headers).headers,
            lit("Content-Encoding"),
        ) <==> has_name(r.headers, lit("Content-Encoding"))),
{
    lemma_negotiated_headers(r, req_headers);
}

/// The response says `Connection: close` exactly when the request's
/// `connection` header, lower-cased, is `close` (for a response that did not
/// name that header itself).
pub proof fn law_connection_echo(r: ResponseView, req_headers: Seq<HeaderView>)
    requires
        distinct_names(r.headers),
        !has_name(r.headers, lit("Connection")),
    ensures
        close_requested(req_headers) ==> carries(
            negotiated(r, req_headers).headers,
            lit("Connection"),
            lit("close"),
        ),
        !close_requested(req_headers) ==> !has_name(
            negotiated(r, req_headers).headers,
            lit("Connection"),
        ),
{
    lemma_negotiated_headers(r, req_headers);
}

proof fn lemma_newline_prefix(s: Seq<u8>, k: int, i: int)
    requires
        0 <= i <= k <= s.len(),
    ensures
        newline_from(s.subrange(0, k), i) == if newline_from(s, i) < k {
            newline_from(s, i)
        } else {
            k
        },
    decreases k - i,
{
    if i < k {
        assert(s.subrange(0, k)[i] == s[i]);
        lemma_newline_prefix(s, k, i + 1);
    } else {
        crate::request::lemma_newline_from_bounds(s, i);
    }
}

proof fn lemma_head_scan_prefix(s: Seq<u8>, k: int, start: int, pos: int)
    requires
        0 <= start <= pos,
        0 <= k <= s.len(),
    ensures
        match head_scan(s, start, pos) {
            Some(r) => if r.1 <= k {
                head_scan(s.subrange(0, k), start, pos) == Some(r)
            } else {
                head_scan(s.subrange(0, k), start, pos) is None
            },
            None => head_scan(s.subrange(0, k), start, pos) is None,
        },
    decreases s.len() - pos,
{
    let t = s.subrange(0, k);
    lemma_head_scan_bounds(s, start, pos);
    if pos < k {
        assert(t[pos] == s[pos]);
        if s[pos] != 0x0a {
            lemma_head_scan_prefix(s, k, start, pos + 1);
        } else if blank_line(s, start, pos) {
            assert(blank_line(t, start, pos));
        } else {
            assert(!blank_line(t, start, pos));
            assert(t.subrange(start, pos) =~= s.subrange(start, pos));
            lemma_head_scan_prefix(s, k, pos + 1, pos + 1);
        }
    }
}

/// A request delivered in pieces, split anywhere at `k`: while any of its
/// bytes is still missing the parser asks for more, and once the second
/// piece has been appended to the first the body it yields is all of the
/// announced bytes, in order: the last `content-length` bytes of the stream.
pub proof fn law_partial_delivery(s: Seq<u8>, k: int)
    requires
        parse_spec(s, false) matches ParsedView::Complete(_, n) && n == s.len(),
        0 <= k < s.len(),
    ensures
        parse_spec(s.subrange(0, k), false) == ParsedView::Incomplete,
        s.subrange(0, k) + s.subrange(k, s.len() as int) == s,
        parse_spec(s.subrange(0, k) + s.subrange(k, s.len() as int), false) matches ParsedView::Complete(
            req,
            _,
        ) && req.body.len() == crate::request::content_length(req.headers) && req.body == s.subrange(
            s.len() - req.body.len(),
            s.len() as int,
        ),
{
    assert(s.subrange(0, k) + s.subrange(k, s.len() as int) =~= s);
    crate::request::lemma_newline_from_bounds(s, 0);
    lemma_head_scan_bounds(s, newline_from(s, 0) + 1, newline_from(s, 0) + 1);
    let t = s.subrange(0, k);
    let e = newline_from(s, 0);
    lemma_newline_prefix(s, k, 0);
    crate::request::lemma_newline_from_bounds(s, 0);
    assert(e < s.len());
    if e < k {
        assert(newline_from(t, 0) == e);
        assert(t.subrange(0, e) =~= s.subrange(0, e));
        lemma_head_scan_prefix(s, k, e + 1, e + 1);
        lemma_head_scan_bounds(s, e + 1, e + 1);
        let r = head_scan(s, e + 1, e + 1).unwrap();
        let n = crate::request::content_length(crate::request::header_set_of(r.0));
        assert(r.1 + n == s.len());
        if r.1 <= k {
            assert(head_scan(t, e + 1, e + 1) == Some(r));
            assert(t.subrange(e + 1, r.1) =~= s.subrange(e + 1, r.1));
        } else {
            assert(head_scan(t, e + 1, e + 1) is None);
        }
    } else {
        assert(newline_from(t, 0) == k);
    }
}

/// Bytes that follow a complete request do not change it: the same request
/// is parsed and the same count of bytes is taken, whatever arrives after it
/// and whether or not the stream has ended.
pub proof fn law_extension(s: Seq<u8>, t: Seq<u8>, eof: bool)
    requires
        parse_spec(s, false) is Complete,
    ensures
        parse_spec(s + t, eof) == parse_spec(s, false),
{
    let long = s + t;
    let k = s.len() as int;
    assert(long.subrange(0, k) =~= s);
    lemma_newline_prefix(long, k, 0);
    let e = newline_from(long, 0);
    crate::request::lemma_newline_from_bounds(long, 0);
    assert(long.subrange(0, e) =~= s.subrange(0, e));
    lemma_head_scan_prefix(long, k, e + 1, e + 1);
    crate::request::lemma_newline_from_bounds(s, 0);
    assert(newline_from(s, 0) < k);
    assert(e == newline_from(s, 0));
    lemma_head_scan_bounds(s, e + 1, e + 1);
    match head_scan(s, e + 1, e + 1) {
        Some(r) => {
            let n = crate::request::content_length(crate::request::header_set_of(r.0));
            assert(r.1 + n <= k);
            assert(long.subrange(e + 1, r.1) =~= s.subrange(e + 1, r.1));
            assert(long.subrange(r.1, r.1 + n) =~= s.subrange(r.1, r.1 + n));
        },
        None => {},
    }
}

/// The request headers form a mapping: a lookup by name gives the value
/// that the mapping holds for it, which is that of the last line of that name.
pub proof fn law_headers_are_a_map(hs: Seq<HeaderView>, k: Seq<u8>)
    ensures
        header_lookup(hs, k) == if header_map(hs).contains_key(k) {
            Some(header_map(hs)[k])
        } else {
            None
        },
    decreases hs.len(),
{
    if hs.len() > 0 {
        law_headers_are_a_map(hs.drop_last(), k);
    }
}

proof fn lemma_header_line_on_wire(hs: Seq<HeaderView>, i: int)
    requires
        0 <= i < hs.len(),
    ensures
        exists|a: int|
            0 <= a && a + (hs[i].0 + lit(": ") + hs[i].1 + lit("\r\n")).len() <= header_bytes(hs).len()
                && #[trigger] header_bytes(hs).subrange(
                a,
                a + (hs[i].0 + lit(": ") + hs[i].1 + lit("\r\n")).len(),
            ) == hs[i].0 + lit(": ") + hs[i].1 + lit("\r\n"),
    decreases hs.len(),
{
    let line = hs[i].0 + lit(": ") + hs[i].1 + lit("\r\n");
    let pre = header_bytes(hs.drop_last());
    if i == hs.len() - 1 {
        let a = pre.len() as int;
        assert(header_bytes(hs) =~= pre + line);
        assert(header_bytes(hs).subrange(a, a + line.len()) =~= line);
    } else {
        lemma_header_line_on_wire(hs.drop_last(), i);
        assert(hs.drop_last()[i] == hs[i]);
        let a = choose|a: int|
            0 <= a && a + line.len() <= pre.len() && #[trigger] pre.subrange(a, a + line.len())
                == line;
        let last = hs.last().0 + lit(": ") + hs.last().1 + lit("\r\n");
        assert(header_bytes(hs) =~= pre + last);
        assert(header_bytes(hs).subrange(a, a + line.len()) =~= pre.subrange(a, a + line.len()));
    }
}

/// On a request whose `accept-encoding` lists `gzip`, the bytes sent hold the
/// header line `Content-Encoding: gzip` followed by CRLF.
pub proof fn law_gzip_line_on_wire(r: ResponseView, req_headers: Seq<HeaderView>)
    requires
        distinct_names(r.headers),
        gzip_accepted(req_headers),
    ensures
        exists|a: int|
            0 <= a && a + (lit("Content-Encoding") + lit(": ") + lit("gzip") + lit("\r\n")).len()
                <= wire(negotiated(r, req_headers)).len() && #[trigger] wire(
                negotiated(r, req_headers),
            ).subrange(
                a,
                a + (lit("Content-Encoding") + lit(": ") + lit("gzip") + lit("\r\n")).len(),
            ) == lit("Content-Encoding") + lit(": ") + lit("gzip") + lit("\r\n"),
{
    lemma_negotiated_headers(r, req_headers);
    let out = negotiated(r, req_headers);
    let hs = out.headers;
    let i = choose|i: int| 0 <= i < hs.len() && #[trigger] hs[i].0 == lit("Content-Encoding");
    assert(hs[i].1 == lit("gzip"));
    lemma_header_line_on_wire(hs, i);
    let line = hs[i].0 + lit(": ") + hs[i].1 + lit("\r\n");
    let hb = header_bytes(hs);
    let a = choose|a: int|
        0 <= a && a + line.len() <= hb.len() && #[trigger] hb.subrange(a, a + line.len()) == line;
    let head = lit("HTTP/1.1 ") + out.status + lit("\r\n");
    let w = wire(out);
    assert(w =~= head + hb + lit("\r\n") + out.body);
    let b = head.len() + a;
    assert(w.subrange(b, b + line.len()) =~= hb.subrange(a, a + line.len()));
}

} // verus!
