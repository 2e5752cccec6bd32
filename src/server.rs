//! The per-connection state machine: it holds the bytes read so far and
//! decides, request after request, whether to read, serve or close. The
//! caller performs the reads and writes it asks for.

use vstd::prelude::*;
use crate::bytes::append_bytes;
use crate::request::{close_requested, parse_spec, HttpRequest, ParseOutcome, ParsedView};

verus! {

pub struct Connection {
    buffer: Vec<u8>,
    at_eof: bool,
    done: bool,
}

pub struct ConnectionView {
    /// Bytes received and not yet taken by a request.
    pub pending: Seq<u8>,
    /// The peer has closed its side.
    pub eof: bool,
    /// No further request will be served.
    pub finished: bool,
}

impl View for Connection {
    type V = ConnectionView;

    closed spec fn view(&self) -> ConnectionView {
        ConnectionView { pending: self.buffer@, eof: self.at_eof, finished: self.done }
    }
}

/// What the caller is to do next.
pub enum Step {
    /// Read more bytes and hand them over, or report the end of input.
    ReadMore,
    /// Answer this request, then report it back.
    Serve(HttpRequest),
    /// Release the connection.
    Close,
}

impl Connection {
    pub fn new() -> (r: Self)
        ensures
            r@ == (ConnectionView { pending: Seq::empty(), eof: false, finished: false }),
    {
        Connection { buffer: Vec::new(), at_eof: false, done: false }
    }

    /// Takes bytes read from the peer.
    pub fn receive(&mut self, chunk: &[u8])
        ensures
            final(self)@ == (ConnectionView { pending: old(self)@.pending + chunk@, ..old(self)@ }),
    {
        append_bytes(&mut self.buffer, chunk);
    }

    /// Records that the peer closed its side.
    pub fn end_of_input(&mut self)
        ensures
            final(self)@ == (ConnectionView { eof: true, ..old(self)@ }),
    {
        self.at_eof = true;
    }

    /// Decides what happens next from the bytes at hand. A complete request
    /// is taken off the front of the pending bytes; the rest stays for the
    /// next one. End of stream and malformed input both end the connection.
    pub fn next_step(&mut self) -> (r: Step)
        ensures
            final(self)@.eof == old(self)@.eof,
            old(self)@.finished ==> r is Close && final(self)@ == old(self)@,
            !old(self)@.finished ==> match parse_spec(old(self)@.pending, old(self)@.eof) {
                ParsedView::Incomplete => r is ReadMore && final(self)@ == old(self)@,
                ParsedView::Closed => r is Close && final(self)@ == (ConnectionView {
                    finished: true,
                    ..old(self)@
                }),
                ParsedView::Malformed => r is Close && final(self)@ == (ConnectionView {
                    finished: true,
                    ..old(self)@
                }),
                ParsedView::Complete(req, n) => r matches Step::Serve(x) && x@ == req
                    && final(self)@ == (ConnectionView {
                    pending: old(self)@.pending.subrange(n as int, old(self)@.pending.len() as int),
                    ..old(self)@
                }),
            },
    {
        if self.done {
            return Step::Close;
        }
        match HttpRequest::parse(self.buffer.as_slice(), self.at_eof) {
            ParseOutcome::Incomplete => Step::ReadMore,
            ParseOutcome::Closed => {
                self.done = true;
                Step::Close
            },
            ParseOutcome::Malformed => {
                self.done = true;
                Step::Close
            },
            ParseOutcome::Complete(req, n) => {
                let rest = self.buffer.split_off(n);
                self.buffer = rest;
                Step::Serve(req)
            },
        }
    }

    /// Reports that `req` was answered; the connection ends here when the
    /// request asked for it.
    pub fn served(&mut self, req: &HttpRequest)
        ensures
            final(self)@ == (ConnectionView {
                finished: old(self)@.finished || close_requested(req@.headers),
                ..old(self)@
            }),
    {
        if req.wants_close() {
            self.done = true;
        }
    }

    /// Whether no further request will be served.
    pub fn is_finished(&self) -> (r: bool)
        ensures
            r == self@.finished,
    {
        self.done
    }
}

} // verus!
