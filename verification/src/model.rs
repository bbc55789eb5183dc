//! The request as a mathematical value, and what each operation on it means.

use crate::block::{line_break, line_end, read_lines};
use crate::errors::Failure;
use crate::framing::Framing;
use crate::headers::{rendered, HeaderView};
use crate::text::{first_occurrence, CR, LF};
use crate::{Chunked, ContentLength, HeadersEnd};
use vstd::prelude::*;
use vstd::utf8::*;

verus! {

/// What ends the header block: two line breaks in a row.
pub open spec fn terminator() -> Seq<u8> {
    seq![CR, LF, CR, LF]
}

/// The lines that headers are written as, with a line break between each two.
pub open spec fn joined(headers: Seq<HeaderView>) -> Seq<u8>
    decreases headers.len(),
{
    if headers.len() == 0 {
        Seq::empty()
    } else if headers.len() == 1 {
        rendered(headers[0].key, headers[0].value)
    } else {
        joined(headers.drop_last()) + line_break() + rendered(
            headers.last().key,
            headers.last().value,
        )
    }
}

/// The mathematical value of a [`crate::Request`].
pub struct RequestView {
    pub request_line: Seq<char>,
    pub headers: Seq<HeaderView>,
    pub headers_end: HeadersEnd,
    pub raw: Seq<u8>,
    pub content_length: ContentLength,
    pub is_chunked: Chunked,
}

impl RequestView {
    /// The request to which nothing has been fed.
    pub open spec fn fresh() -> RequestView {
        RequestView {
            request_line: Seq::empty(),
            headers: Seq::empty(),
            headers_end: HeadersEnd::Unset,
            raw: Seq::empty(),
            content_length: ContentLength::Unset,
            is_chunked: Chunked::Unset,
        }
    }

    /// What the request declares of its body.
    pub open spec fn framing(self) -> Framing {
        Framing { content_length: self.content_length, is_chunked: self.is_chunked }
    }

    /// The bytes after the terminator of the header block; none while the
    /// end of the block is not found, or lies beyond what was received.
    pub open spec fn body(self) -> Seq<u8> {
        match self.headers_end {
            HeadersEnd::FoundAt(at) => if at + 4 <= self.raw.len() {
                self.raw.subrange(at + 4, self.raw.len() as int)
            } else {
                Seq::empty()
            },
            _ => Seq::empty(),
        }
    }

    /// The headers have ended, the framing is not chunked, and the body has
    /// the length that was declared, if one was.
    pub open spec fn body_complete(self) -> bool {
        &&& self.headers_end is FoundAt
        &&& self.is_chunked != Chunked::Processing
        &&& match self.content_length {
            ContentLength::Unset => true,
            ContentLength::Value(n) => self.body().len() == n,
        }
    }

    /// The request written out again from its parts: the request line, a line
    /// break, the headers as `key: value` with a line break between each two,
    /// the terminator, the body. Nothing while the body is not complete.
    pub open spec fn dump(self) -> Seq<u8> {
        if self.body_complete() {
            encode_utf8(self.request_line) + line_break() + joined(self.headers) + terminator()
                + self.body()
        } else {
            Seq::empty()
        }
    }

    /// The header block: what was received before the offset at which the
    /// headers end.
    pub open spec fn block(self) -> Seq<u8> {
        match self.headers_end {
            HeadersEnd::FoundAt(end) => self.raw.subrange(0, end as int),
            _ => Seq::empty(),
        }
    }

    /// The request once its header block is read, and the failure, if there
    /// is one.
    ///
    /// The end of the block must be known and lie within what was received.
    /// The first line is the request line and must be UTF-8. The lines after
    /// it are read as headers, each taken into the framing. The headers join
    /// the set only when all of them were read; the framing stays as the
    /// reading left it.
    pub open spec fn filled(self) -> (RequestView, Option<Failure>) {
        let block = self.block();
        let first = line_end(block, 0);
        let reading = read_lines(block, first, self.framing());
        if !(self.headers_end matches HeadersEnd::FoundAt(end) && end <= self.raw.len()) {
            (self, Some(Failure::CannotFillHeaders))
        } else if !valid_utf8(block.subrange(0, first)) {
            (self, Some(Failure::Parse))
        } else {
            (
                RequestView {
                    request_line: decode_utf8(block.subrange(0, first)),
                    headers: if reading.refused is Some {
                        self.headers
                    } else {
                        self.headers + reading.headers
                    },
                    content_length: reading.framing.content_length,
                    is_chunked: reading.framing.is_chunked,
                    ..self
                },
                reading.refused,
            )
        }
    }

    /// The offset that a search resumes from when the terminator is not in
    /// what was received: the length of a terminator before the end, and
    /// never below the start.
    pub open spec fn resume_at(self) -> usize {
        if self.raw.len() >= 4 {
            (self.raw.len() - 4) as usize
        } else {
            0
        }
    }

    /// The request once the terminator is looked for from `from` on, and the
    /// failure, if there is one. A request whose headers have ended is not
    /// searched again. Where the terminator is found, the headers end there
    /// and the block is read; where it is not, the next search resumes at
    /// [`Self::resume_at`].
    pub open spec fn scanned(self, from: int) -> (RequestView, Option<Failure>) {
        let at = first_occurrence(self.raw, from, terminator());
        if self.headers_end is FoundAt {
            (self, None)
        } else if at < self.raw.len() {
            (RequestView { headers_end: HeadersEnd::FoundAt(at as usize), ..self }).filled()
        } else {
            (RequestView { headers_end: HeadersEnd::Scanning(self.resume_at()), ..self }, None)
        }
    }

    /// The request once `data` is fed to it, and the failure, if there is
    /// one: `data` joins what was received, and the terminator is looked for
    /// from where the last search left off.
    pub open spec fn fed(self, data: Seq<u8>) -> (RequestView, Option<Failure>) {
        let grown = RequestView { raw: self.raw + data, ..self };
        match self.headers_end {
            HeadersEnd::Unset => grown.scanned(0),
            HeadersEnd::Scanning(from) => grown.scanned(from as int),
            HeadersEnd::FoundAt(_) => (grown, None),
        }
    }

    /// The request once each of `chunks` is fed to it, one after another;
    /// what a feed reports is left aside.
    pub open spec fn fed_all(self, chunks: Seq<Seq<u8>>) -> RequestView
        decreases chunks.len(),
    {
        if chunks.len() == 0 {
            self
        } else {
            self.fed_all(chunks.drop_last()).fed(chunks.last()).0
        }
    }
}

/// The bytes of `chunks`, one chunk after another.
pub open spec fn chained(chunks: Seq<Seq<u8>>) -> Seq<u8>
    decreases chunks.len(),
{
    if chunks.len() == 0 {
        Seq::empty()
    } else {
        chained(chunks.drop_last()) + chunks.last()
    }
}

} // verus!
