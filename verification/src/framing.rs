//! How a header changes the framing of a request: what `Content-Length` and
//! `Transfer-Encoding` declare, and what they may not declare together.

use crate::errors::{Errors, Failure};
use crate::headers::{lemma_parsed_header, Header, HeaderView};
use crate::text::{contains, ends, ends_with, has};
use crate::{Chunked, ContentLength};
use std::num::ParseIntError;
use vstd::prelude::*;
use vstd::string::*;
use vstd::utf8::*;

verus! {

/// The lower-case form of an ASCII letter; any other byte as it is.
pub open spec fn lower_byte(b: u8) -> u8 {
    if 65 <= b <= 90 {
        (b + 32) as u8
    } else {
        b
    }
}

/// `s` with every ASCII letter in lower case.
pub open spec fn lower(s: Seq<u8>) -> Seq<u8> {
    Seq::new(s.len(), |i: int| lower_byte(s[i]))
}

/// SPACE, TAB, LF, VT, FF or CR.
pub open spec fn is_whitespace(b: u8) -> bool {
    b == 32 || 9 <= b <= 13
}

/// `s` without the whitespace it begins with.
pub open spec fn trim_start(s: Seq<u8>) -> Seq<u8>
    decreases s.len(),
{
    if s.len() > 0 && is_whitespace(s[0]) {
        trim_start(s.drop_first())
    } else {
        s
    }
}

/// `s` without the whitespace it ends with.
pub open spec fn trim_end(s: Seq<u8>) -> Seq<u8>
    decreases s.len(),
{
    if s.len() > 0 && is_whitespace(s.last()) {
        trim_end(s.drop_last())
    } else {
        s
    }
}

/// `s` without the whitespace at either end.
pub open spec fn trimmed(s: Seq<u8>) -> Seq<u8> {
    trim_end(trim_start(s))
}

/// The number that a run of decimal digits writes.
pub open spec fn digits_value(digits: Seq<u8>) -> nat
    decreases digits.len(),
{
    if digits.len() == 0 {
        0
    } else {
        digits_value(digits.drop_last()) * 10 + (digits.last() - 48) as nat
    }
}

/// Every byte is one of `0` to `9`.
pub open spec fn all_digits(digits: Seq<u8>) -> bool {
    forall|i: int| 0 <= i < digits.len() ==> 48 <= #[trigger] digits[i] <= 57
}

/// The number that `s` writes in decimal: an optional `+`, then one digit or
/// more, and nothing else.
pub open spec fn decimal(s: Seq<u8>) -> Option<nat> {
    let digits = if s.len() > 0 && s[0] == 43 {
        s.drop_first()
    } else {
        s
    };
    if digits.len() > 0 && all_digits(digits) {
        Some(digits_value(digits))
    } else {
        None
    }
}

/// The length that a `Content-Length` value declares: the number that the
/// value, without the whitespace around it, writes in decimal, where that
/// number fits a `usize`.
pub open spec fn declared_length(value: Seq<u8>) -> Option<usize> {
    match decimal(trimmed(value)) {
        Some(n) => if n <= usize::MAX {
            Some(n as usize)
        } else {
            None
        },
        None => None,
    }
}

/// `str::parse::<usize>`: succeeds exactly on an optional `+` followed by
/// decimal digits whose number fits a `usize`, and returns that number.
#[verifier::external_body]
fn parse_usize(s: &str) -> (r: Result<usize, ParseIntError>)
    ensures
        r is Ok <==> (decimal(s.spec_bytes()) matches Some(n) && n <= usize::MAX),
        r matches Ok(n) ==> decimal(s.spec_bytes()) == Some(n as nat),
{
    s.parse::<usize>()
}

/// The lower-case form of an ASCII letter; any other byte as it is.
pub fn to_lower(b: u8) -> (r: u8)
    ensures
        r == lower_byte(b),
{
    if 65 <= b && b <= 90 {
        b + 32
    } else {
        b
    }
}

/// A copy of `bytes` with every ASCII letter in lower case.
pub fn lowered(bytes: &[u8]) -> (r: Vec<u8>)
    ensures
        r@ == lower(bytes@),
{
    let mut r: Vec<u8> = Vec::new();
    let mut k: usize = 0;
    while k < bytes.len()
        invariant
            k <= bytes.len(),
            r@ == lower(bytes@.subrange(0, k as int)),
        decreases bytes.len() - k,
    {
        r.push(to_lower(bytes[k]));
        k += 1;
        assert(r@ =~= lower(bytes@.subrange(0, k as int)));
    }
    assert(bytes@.subrange(0, bytes.len() as int) == bytes@);
    r
}

/// Whether `b` is whitespace.
pub fn whitespace(b: u8) -> (r: bool)
    ensures
        r == is_whitespace(b),
{
    b == 32 || (9 <= b && b <= 13)
}

/// Removing whitespace from the front of `s` leaves the part of `s` from the
/// first byte on that is not whitespace.
proof fn lemma_trim_start(s: Seq<u8>, from: int)
    requires
        0 <= from <= s.len(),
        forall|j: int| 0 <= j < from ==> is_whitespace(#[trigger] s[j]),
        from < s.len() ==> !is_whitespace(s[from]),
    ensures
        trim_start(s) == s.subrange(from, s.len() as int),
    decreases from,
{
    if from == 0 {
        assert(s.subrange(0, s.len() as int) =~= s);
    } else {
        let rest = s.drop_first();
        assert(is_whitespace(s[0]));
        assert forall|j: int| 0 <= j < from - 1 implies is_whitespace(#[trigger] rest[j]) by {
            assert(rest[j] == s[j + 1]);
        }
        lemma_trim_start(rest, from - 1);
        assert(rest.subrange(from - 1, rest.len() as int) =~= s.subrange(from, s.len() as int));
    }
}

/// Removing whitespace from the back of `s` leaves the part of `s` up to the
/// last byte that is not whitespace.
proof fn lemma_trim_end(s: Seq<u8>, to: int)
    requires
        0 <= to <= s.len(),
        forall|j: int| to <= j < s.len() ==> is_whitespace(#[trigger] s[j]),
        to > 0 ==> !is_whitespace(s[to - 1]),
    ensures
        trim_end(s) == s.subrange(0, to),
    decreases s.len() - to,
{
    if to == s.len() {
        assert(s.subrange(0, s.len() as int) =~= s);
    } else {
        let rest = s.drop_last();
        assert(is_whitespace(s[s.len() - 1]));
        assert forall|j: int| to <= j < rest.len() implies is_whitespace(#[trigger] rest[j]) by {
            assert(rest[j] == s[j]);
        }
        lemma_trim_end(rest, to);
        assert(rest.subrange(0, to) =~= s.subrange(0, to));
    }
}

/// The bounds within `bytes` of what is left when the whitespace at either
/// end is removed.
pub fn trim(bytes: &[u8]) -> (r: (usize, usize))
    ensures
        r.0 <= r.1 <= bytes.len(),
        bytes@.subrange(r.0 as int, r.1 as int) == trimmed(bytes@),
{
    let mut from: usize = 0;
    while from < bytes.len() && whitespace(bytes[from])
        invariant
            from <= bytes.len(),
            forall|j: int| 0 <= j < from ==> is_whitespace(#[trigger] bytes@[j]),
        decreases bytes.len() - from,
    {
        from += 1;
    }
    let mut to: usize = bytes.len();
    while to > from && whitespace(bytes[to - 1])
        invariant
            from <= to <= bytes.len(),
            forall|j: int| to <= j < bytes.len() ==> is_whitespace(#[trigger] bytes@[j]),
        decreases to,
    {
        to -= 1;
    }
    proof {
        let s = bytes@;
        let rest = s.subrange(from as int, s.len() as int);
        lemma_trim_start(s, from as int);
        assert forall|j: int| to - from <= j < rest.len() implies is_whitespace(
            #[trigger] rest[j],
        ) by {
            assert(rest[j] == s[j + from]);
        }
        lemma_trim_end(rest, to - from);
        assert(rest.subrange(0, to - from) =~= s.subrange(from as int, to as int));
    }
    (from, to)
}

/// The length that the value of a `Content-Length` header declares, or the
/// error that reading it as a number gives.
pub fn read_length(value: &str) -> (r: Result<usize, ParseIntError>)
    requires
        is_ascii_chars(value@),
    ensures
        match declared_length(value.spec_bytes()) {
            Some(n) => r == Ok::<usize, ParseIntError>(n),
            None => r is Err,
        },
{
    broadcast use is_ascii_spec_bytes;

    assert(is_ascii(value));
    let (from, to) = trim(value.as_bytes());
    let digits = value.substring_ascii(from, to);
    assert(digits.spec_bytes() =~= value.spec_bytes().subrange(from as int, to as int));
    parse_usize(digits)
}

/// The key of `h` is `name`, whatever the case of its letters.
pub open spec fn is_named(h: HeaderView, name: &str) -> bool {
    lower(encode_utf8(h.key)) == name.spec_bytes()
}

/// Whether the key of `header` is `name`, whatever the case of its letters.
pub fn named(header: &Header, name: &str) -> (r: bool)
    ensures
        r == is_named(header@, name),
{
    let key = header.key.as_str().as_bytes();
    let want = name.as_bytes();
    if key.len() != want.len() {
        return false;
    }
    let mut k: usize = 0;
    while k < key.len()
        invariant
            k <= key.len(),
            key.len() == want.len(),
            key@ == encode_utf8(header.key@),
            want@ == name.spec_bytes(),
            forall|j: int| 0 <= j < k ==> lower_byte(key@[j]) == #[trigger] want@[j],
        decreases key.len() - k,
    {
        if to_lower(key[k]) != want[k] {
            assert(lower(key@)[k as int] != want@[k as int]);
            return false;
        }
        k += 1;
    }
    assert(lower(key@) =~= want@);
    true
}

/// What a request declares of its body: a length, chunked framing, or neither.
#[derive(Debug, Clone, PartialEq, Eq, Structural)]
pub struct Framing {
    pub content_length: ContentLength,
    pub is_chunked: Chunked,
}

impl Framing {
    /// The framing once a `Content-Length` header is taken in, and the error
    /// where the header is refused. A header of another name changes nothing.
    /// One length may be declared; a second is refused, and so is a value that
    /// is no number.
    pub open spec fn after_length(self, h: HeaderView) -> (Framing, Option<Failure>) {
        if !is_named(h, "content-length") {
            (self, None)
        } else {
            match self.content_length {
                ContentLength::Value(_) => (
                    self,
                    Some(Failure::Header("Content-Length header must appear only once"@)),
                ),
                ContentLength::Unset => match declared_length(encode_utf8(h.value)) {
                    Some(n) => (
                        Framing { content_length: ContentLength::Value(n), ..self },
                        None,
                    ),
                    None => (self, Some(Failure::ContentLength)),
                },
            }
        }
    }

    /// The framing once a `Transfer-Encoding` header is taken in, and the
    /// error where the header is refused. A header of another name changes
    /// nothing. The value is read in lower case: `chunked` in it must stand at
    /// its end, and may be declared once.
    pub open spec fn after_coding(self, h: HeaderView) -> (Framing, Option<Failure>) {
        let value = lower(encode_utf8(h.value));
        let word = "chunked".spec_bytes();
        if !is_named(h, "transfer-encoding") {
            (self, None)
        } else if contains(value, word) && !ends_with(value, word) {
            (
                self,
                Some(
                    Failure::Header(
                        "chunked must appear at the very end of the Transfer-Encoding header value"@,
                    ),
                ),
            )
        } else if ends_with(value, word) {
            match self.is_chunked {
                Chunked::Processing => (
                    self,
                    Some(Failure::Header("Transfer-Encoding must appear only once"@)),
                ),
                Chunked::Complete => (
                    self,
                    Some(Failure::Header("Unexpected chunked status: Complete"@)),
                ),
                Chunked::Unset => (Framing { is_chunked: Chunked::Processing, ..self }, None),
            }
        } else {
            (self, None)
        }
    }

    /// A length and chunked framing are both declared.
    pub open spec fn conflicting(self) -> bool {
        self.content_length is Value && self.is_chunked != Chunked::Unset
    }

    /// The framing once the header `h` is taken in, and the error where `h`
    /// is refused: first as a `Content-Length`, then as a
    /// `Transfer-Encoding`, then for declaring, with what came before, both a
    /// length and chunked framing.
    pub open spec fn after(self, h: HeaderView) -> (Framing, Option<Failure>) {
        let (first, refused) = self.after_length(h);
        if refused is Some {
            (first, refused)
        } else {
            let (second, refused) = first.after_coding(h);
            if refused is Some {
                (second, refused)
            } else if second.conflicting() {
                (
                    second,
                    Some(
                        Failure::Header(
                            "Transfer-Encoding and Content-Length headers are mutually exclusive"@,
                        ),
                    ),
                )
            } else {
                (second, None)
            }
        }
    }

    /// Takes the header in.
    pub fn apply(&mut self, header: &Header) -> (res: Result<(), Errors<'static>>)
        requires
            header.wf(),
        ensures
            *final(self) == old(self).after(header@).0,
            match old(self).after(header@).1 {
                None => res is Ok,
                Some(f) => res matches Err(e) && e@ == f,
            },
    {
        proof {
            lemma_parsed_header(header.bytes@, header@);
        }
        if named(header, "content-length") {
            match self.content_length {
                ContentLength::Value(_) => {
                    return Err(Errors::Header("Content-Length header must appear only once"));
                },
                ContentLength::Unset => {
                    match read_length(header.value.as_str()) {
                        Ok(n) => {
                            self.content_length = ContentLength::Value(n);
                        },
                        Err(e) => {
                            return Err(Errors::ContentLength(e));
                        },
                    }
                },
            }
        }
        if named(header, "transfer-encoding") {
            let value = lowered(header.value.as_str().as_bytes());
            let word = "chunked".as_bytes();
            let last = ends(value.as_slice(), word);
            if has(value.as_slice(), word) && !last {
                return Err(
                    Errors::Header(
                        "chunked must appear at the very end of the Transfer-Encoding header value",
                    ),
                );
            }
            if last {
                match self.is_chunked {
                    Chunked::Processing => {
                        return Err(Errors::Header("Transfer-Encoding must appear only once"));
                    },
                    Chunked::Complete => {
                        return Err(Errors::Header("Unexpected chunked status: Complete"));
                    },
                    Chunked::Unset => {
                        self.is_chunked = Chunked::Processing;
                    },
                }
            }
        }
        let length_set = match self.content_length {
            ContentLength::Unset => false,
            _ => true,
        };
        let chunked_set = match self.is_chunked {
            Chunked::Unset => false,
            _ => true,
        };
        if length_set && chunked_set {
            return Err(
                Errors::Header(
                    "Transfer-Encoding and Content-Length headers are mutually exclusive",
                ),
            );
        }
        Ok(())
    }
}

} // verus!
