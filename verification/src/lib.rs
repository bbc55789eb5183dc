//! Incremental HTTP/1.1 request assembly: bytes arrive in arbitrary pieces and
//! are folded into a request line, an ordered header set, framing state and a
//! body boundary.

use crate::block::{end_of_line, read_headers};
use crate::errors::Errors;
use crate::framing::Framing;
use crate::headers::{render, Headers};
use crate::model::{terminator, RequestView};
use crate::text::{append_bytes, find, CR, LF};
use vstd::prelude::*;
use vstd::slice::{slice_subrange, slice_to_vec};
use vstd::utf8::*;

pub mod block;
pub mod errors;
pub mod framing;
pub mod headers;
pub mod laws;
pub mod model;
pub mod text;

verus! {

/// How far the search for the end of the header block has come.
#[derive(Debug, Clone, Copy, PartialEq, Eq, PartialOrd, Structural)]
pub enum HeadersEnd {
    /// No search has begun.
    Unset,
    /// Not found yet; the block cannot end before this offset.
    Scanning(usize),
    /// The header block ends at this offset, where its terminator begins.
    FoundAt(usize),
}

/// The body length that the request declares.
#[derive(Debug, Clone, Copy, PartialEq, Eq, PartialOrd, Structural)]
pub enum ContentLength {
    Unset,
    Value(usize),
}

/// Whether the request declares chunked framing.
#[derive(Debug, Clone, Copy, PartialEq, Eq, PartialOrd, Structural)]
pub enum Chunked {
    Unset,
    /// A final `chunked` coding was declared.
    Processing,
    /// Kept for a decoder of chunked bodies; nothing here sets it.
    Complete,
}

impl Default for HeadersEnd {
    fn default() -> (r: HeadersEnd)
        ensures
            r == HeadersEnd::Unset,
    {
        HeadersEnd::Unset
    }
}

impl Default for ContentLength {
    fn default() -> (r: ContentLength)
        ensures
            r == ContentLength::Unset,
    {
        ContentLength::Unset
    }
}

impl Default for Chunked {
    fn default() -> (r: Chunked)
        ensures
            r == Chunked::Unset,
    {
        Chunked::Unset
    }
}

/// One HTTP/1.1 request under construction.
#[derive(Debug, Clone)]
pub struct Request {
    /// The first line of the message, once its line break was seen.
    pub request_line: String,
    /// The headers, in wire order.
    pub headers: Headers,
    /// How far the search for the end of the header block has come.
    pub headers_end: HeadersEnd,
    /// Everything received so far.
    pub raw: Vec<u8>,
    /// The declared body length.
    pub content_length: ContentLength,
    /// Whether chunked framing was declared.
    pub is_chunked: Chunked,
}

impl View for Request {
    type V = RequestView;

    open spec fn view(&self) -> RequestView {
        RequestView {
            request_line: self.request_line@,
            headers: self.headers@,
            headers_end: self.headers_end,
            raw: self.raw@,
            content_length: self.content_length,
            is_chunked: self.is_chunked,
        }
    }
}

impl Default for Request {
    fn default() -> (r: Request)
        ensures
            r@ == RequestView::fresh(),
    {
        Request {
            request_line: String::new(),
            headers: Headers::default(),
            headers_end: HeadersEnd::Unset,
            raw: Vec::new(),
            content_length: ContentLength::Unset,
            is_chunked: Chunked::Unset,
        }
    }
}

impl Request {
    /// The request written out again from its parts; nothing while the body
    /// is not complete.
    pub fn dump(&self) -> (out: Vec<u8>)
        ensures
            out@ == self@.dump(),
    {
        if !self.body_complete() {
            return vec![];
        }
        let mut out: Vec<u8> = Vec::new();
        append_bytes(&mut out, self.request_line.as_str().as_bytes());
        out.push(CR);
        out.push(LF);
        let ghost head = out@;
        let mut k: usize = 0;
        while k < self.headers.values.len()
            invariant
                k <= self.headers.values.len(),
                out@ == head + model::joined(self@.headers.subrange(0, k as int)),
            decreases self.headers.values.len() - k,
        {
            if k > 0 {
                out.push(CR);
                out.push(LF);
            }
            let header = &self.headers.values[k];
            let line = render(header.key.as_str(), header.value.as_str());
            append_bytes(&mut out, line.as_slice());
            proof {
                let upto = self@.headers.subrange(0, k + 1);
                assert(upto.drop_last() =~= self@.headers.subrange(0, k as int));
                assert(upto.last() == header@);
                assert(out@ =~= head + model::joined(upto));
            }
            k += 1;
        }
        assert(self@.headers.subrange(0, k as int) =~= self@.headers);
        out.push(CR);
        out.push(LF);
        out.push(CR);
        out.push(LF);
        let mut body = self.body();
        out.append(&mut body);
        assert(out@ =~= self@.dump());
        out
    }

    /// The bytes after the terminator of the header block; none while the
    /// end of the block is not found.
    pub fn body(&self) -> (body: Vec<u8>)
        ensures
            body@ == self@.body(),
    {
        match self.headers_end {
            HeadersEnd::FoundAt(at) => {
                let len = self.raw.len();
                if at <= len && len - at >= 4 {
                    slice_to_vec(slice_subrange(self.raw.as_slice(), at + 4, len))
                } else {
                    vec![]
                }
            },
            _ => vec![],
        }
    }

    /// Whether the headers have ended and the body has the length that the
    /// request declares. Always `false` under chunked framing.
    pub fn body_complete(&self) -> (complete: bool)
        ensures
            complete == self@.body_complete(),
    {
        match self.headers_end {
            HeadersEnd::Unset => false,
            HeadersEnd::Scanning(_) => false,
            HeadersEnd::FoundAt(at) => {
                match self.is_chunked {
                    Chunked::Processing => {
                        return false;
                    },
                    _ => {},
                }
                match self.content_length {
                    ContentLength::Unset => true,
                    ContentLength::Value(content_length) => {
                        let len = self.raw.len();
                        let received = if at <= len && len - at >= 4 {
                            len - at - 4
                        } else {
                            0
                        };
                        received == content_length
                    },
                }
            },
        }
    }

    /// Feeds `data` to the request: it joins what was received, and while
    /// the headers have not ended, their end is looked for from where the
    /// last search left off. `data` is left empty.
    pub fn update_raw(&mut self, data: &mut Vec<u8>) -> (res: Result<(), Errors>)
        ensures
            final(self)@ == old(self)@.fed(old(data)@).0,
            match old(self)@.fed(old(data)@).1 {
                None => res is Ok,
                Some(failure) => res matches Err(e) && e@ == failure,
            },
            final(data)@ == Seq::<u8>::empty(),
            old(self).headers.wf() ==> final(self).headers.wf(),
    {
        self.raw.append(data);

        match self.headers_end {
            HeadersEnd::Unset => self.attempt_header_parsing(0),
            HeadersEnd::Scanning(index) => self.attempt_header_parsing(index),
            HeadersEnd::FoundAt(_) => Ok(()),
        }
    }

    /// Looks for the terminator of the header block from `at` on. Found, it
    /// ends the headers and the block is read; not found, the next search is
    /// set to resume the length of a terminator before the end of what was
    /// received. A request whose headers have ended is left as it is.
    pub fn attempt_header_parsing(&mut self, at: usize) -> (res: Result<(), Errors>)
        ensures
            final(self)@ == old(self)@.scanned(at as int).0,
            match old(self)@.scanned(at as int).1 {
                None => res is Ok,
                Some(failure) => res matches Err(e) && e@ == failure,
            },
            old(self).headers.wf() ==> final(self).headers.wf(),
    {
        if let HeadersEnd::FoundAt(_) = self.headers_end {
            return Ok(());
        }
        let len = self.raw.len();
        let from = if at <= len {
            at
        } else {
            len
        };
        let word: [u8; 4] = [CR, LF, CR, LF];
        assert(word@ =~= terminator());
        let found = find(self.raw.as_slice(), from, word.as_slice());
        if found < len {
            self.headers_end = HeadersEnd::FoundAt(found);
            self.parse_and_fill_headers()
        } else {
            self.headers_end = HeadersEnd::Scanning(len.saturating_sub(4));
            Ok(())
        }
    }

    /// Reads the header block: the request line, then the headers, each
    /// taken into the framing. The headers join the set only when all of
    /// them were read.
    pub fn parse_and_fill_headers(&mut self) -> (res: Result<(), Errors>)
        ensures
            final(self)@ == old(self)@.filled().0,
            match old(self)@.filled().1 {
                None => res is Ok,
                Some(failure) => res matches Err(e) && e@ == failure,
            },
            old(self).headers.wf() ==> final(self).headers.wf(),
    {
        let end = match self.headers_end {
            HeadersEnd::FoundAt(end) => end,
            _ => {
                return Err(Errors::CannotFillHeaders);
            },
        };
        if end > self.raw.len() {
            return Err(Errors::CannotFillHeaders);
        }
        let block = slice_subrange(self.raw.as_slice(), 0, end);
        let first = end_of_line(block, 0);
        match String::from_utf8(slice_to_vec(slice_subrange(block, 0, first))) {
            Ok(line) => {
                proof {
                    encode_utf8_decode_utf8(line@);
                }
                self.request_line = line;
            },
            Err(e) => {
                return Err(Errors::Parse(e));
            },
        }
        let mut framing = Framing {
            content_length: self.content_length,
            is_chunked: self.is_chunked,
        };
        let read = read_headers(block, first, &mut framing);
        self.content_length = framing.content_length;
        self.is_chunked = framing.is_chunked;
        match read {
            Ok(mut headers) => {
                let ghost before = self.headers.values@;
                let ghost read = headers@;
                self.headers.values.append(&mut headers);
                assert(self.headers@ =~= headers::views(before) + headers::views(read));
                Ok(())
            },
            Err(e) => Err(e),
        }
    }
}

} // verus!
