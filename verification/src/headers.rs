//! One header, read from one logical header line, and the ordered set of them.

use crate::errors::{Errors, Failure};
use crate::text::{
    all_ascii, append_bytes, ascii_string, ascii_text, find_of, first_of, lemma_ascii_is_utf8,
    lemma_first_of, ByteClass, COLON, SPACE, TAB,
};
use vstd::prelude::*;
use vstd::slice::slice_subrange;
use vstd::string::*;
use vstd::utf8::*;

pub mod encoded_words;

verus! {

/// A field name, a field value, and the bytes of the line they were read from.
#[derive(Debug, Clone, PartialEq)]
pub struct Header {
    pub key: String,
    pub value: String,
    pub bytes: Vec<u8>,
}

/// The mathematical value of a [`Header`].
pub struct HeaderView {
    pub key: Seq<char>,
    pub value: Seq<char>,
    pub bytes: Seq<u8>,
}

impl View for Header {
    type V = HeaderView;

    open spec fn view(&self) -> HeaderView {
        HeaderView { key: self.key@, value: self.value@, bytes: self.bytes@ }
    }
}

/// What a logical header line reads as.
///
/// The line is scanned from the left, and the first thing that is wrong with
/// it decides the error. It must be UTF-8. The field name runs up to the first
/// colon; a SPACE, a TAB or a byte above 127 before that colon is refused, and
/// so is a line without a colon or with the colon in front. No byte after the
/// colon may be above 127. The value starts at the first byte after the colon
/// that is neither a SPACE nor a TAB, and runs to the end of the line.
pub open spec fn parse_header(bytes: Seq<u8>) -> Result<HeaderView, Failure> {
    let stop = first_of(bytes, 0, ByteClass::NameEnd);
    if !valid_utf8(bytes) {
        Err(Failure::HeaderFromUtf8)
    } else if stop >= bytes.len() {
        Err(Failure::HeaderIsEmpty)
    } else if bytes[stop] > 127 {
        Err(Failure::HeaderNonAsciiByteAt(stop as usize))
    } else if bytes[stop] != COLON {
        Err(Failure::HeaderKeyWhitespace)
    } else if stop == 0 {
        Err(Failure::HeaderIsEmpty)
    } else {
        let bad = first_of(bytes, stop + 1, ByteClass::NonAscii);
        if bad < bytes.len() {
            Err(Failure::HeaderNonAsciiByteAt(bad as usize))
        } else {
            let start = first_of(bytes, stop + 1, ByteClass::NotBlank);
            Ok(
                HeaderView {
                    key: ascii_text(bytes.subrange(0, stop)),
                    value: ascii_text(bytes.subrange(start, bytes.len() as int)),
                    bytes,
                },
            )
        }
    }
}

/// The line that a key and a value are written as: the key, a colon, a SPACE,
/// the value.
pub open spec fn rendered(key: Seq<char>, value: Seq<char>) -> Seq<u8> {
    encode_utf8(key) + seq![COLON, SPACE] + encode_utf8(value)
}

/// What every header that a line reads as has: the line is ASCII; the key is
/// not empty and holds no colon, SPACE or TAB; the value does not begin with
/// a SPACE or a TAB; and key, colon and value together are the line again,
/// but for the SPACEs and TABs that followed the colon.
pub proof fn lemma_parsed_header(bytes: Seq<u8>, h: HeaderView)
    requires
        parse_header(bytes) == Ok::<HeaderView, Failure>(h),
    ensures
        all_ascii(bytes),
        h.bytes == bytes,
        h.key.len() > 0,
        is_ascii_chars(h.key),
        is_ascii_chars(h.value),
        forall|i: int|
            0 <= i < h.key.len() ==> #[trigger] h.key[i] != ':' && h.key[i] != ' ' && h.key[i]
                != '\t',
        h.value.len() > 0 ==> h.value[0] != ' ' && h.value[0] != '\t',
        encode_utf8(h.key) == bytes.subrange(0, h.key.len() as int),
        bytes[h.key.len() as int] == COLON,
        encode_utf8(h.value) == bytes.subrange(bytes.len() - h.value.len(), bytes.len() as int),
        forall|i: int|
            h.key.len() < i < bytes.len() - h.value.len() ==> #[trigger] bytes[i] == SPACE
                || bytes[i] == TAB,
{
    let stop = first_of(bytes, 0, ByteClass::NameEnd);
    let start = first_of(bytes, stop + 1, ByteClass::NotBlank);
    lemma_first_of(bytes, 0, ByteClass::NameEnd);
    lemma_first_of(bytes, stop + 1, ByteClass::NonAscii);
    lemma_first_of(bytes, stop + 1, ByteClass::NotBlank);
    assert(all_ascii(bytes)) by {
        assert forall|i: int| 0 <= i < bytes.len() implies #[trigger] bytes[i] <= 127 by {
            if i < stop {
                assert(!ByteClass::NameEnd.has(bytes[i]));
            } else if i > stop {
                assert(!ByteClass::NonAscii.has(bytes[i]));
            }
        }
    }
    let key = bytes.subrange(0, stop);
    let value = bytes.subrange(start, bytes.len() as int);
    lemma_ascii_is_utf8(key);
    lemma_ascii_is_utf8(value);
    assert forall|i: int| 0 <= i < h.key.len() implies #[trigger] h.key[i] != ':' && h.key[i]
        != ' ' && h.key[i] != '\t' by {
        assert(!ByteClass::NameEnd.has(bytes[i]));
        assert(key[i] == bytes[i]);
    }
    if h.value.len() > 0 {
        assert(ByteClass::NotBlank.has(bytes[start]));
        assert(value[0] == bytes[start]);
    }
    assert forall|i: int| h.key.len() < i < bytes.len() - h.value.len() implies #[trigger] bytes[i]
        == SPACE || bytes[i] == TAB by {
        assert(!ByteClass::NotBlank.has(bytes[i]));
    }
}

impl Header {
    /// The header agrees with the line it holds.
    pub open spec fn wf(&self) -> bool {
        parse_header(self.bytes@) == Ok::<HeaderView, Failure>(self@)
    }

    /// Reads a header from the bytes of one logical header line.
    pub fn new(raw: Vec<u8>) -> (res: Result<Header, Errors<'static>>)
        ensures
            match parse_header(raw@) {
                Ok(h) => res matches Ok(header) && header@ == h && header.wf(),
                Err(f) => res matches Err(e) && e@ == f,
            },
    {
        match String::from_utf8(raw.clone()) {
            Ok(_) => {},
            Err(e) => {
                return Err(Errors::HeaderFromUtf8(e));
            },
        }
        let len = raw.len();
        let stop = find_of(raw.as_slice(), 0, ByteClass::NameEnd);
        proof {
            lemma_first_of(raw@, 0, ByteClass::NameEnd);
        }
        if stop >= len {
            return Err(Errors::HeaderIsEmpty);
        }
        let byte = raw[stop];
        if byte > 127 {
            return Err(Errors::HeaderNonAsciiByteAt(stop));
        }
        if byte != COLON {
            return Err(Errors::HeaderKeyWhitespace);
        }
        if stop == 0 {
            return Err(Errors::HeaderIsEmpty);
        }
        let bad = find_of(raw.as_slice(), stop + 1, ByteClass::NonAscii);
        if bad < len {
            return Err(Errors::HeaderNonAsciiByteAt(bad));
        }
        let start = find_of(raw.as_slice(), stop + 1, ByteClass::NotBlank);
        proof {
            lemma_parsed_header(raw@, parse_header(raw@)->Ok_0);
            lemma_first_of(raw@, stop + 1, ByteClass::NotBlank);
        }
        let key = ascii_string(slice_subrange(raw.as_slice(), 0, stop));
        let value = ascii_string(slice_subrange(raw.as_slice(), start, len));
        Ok(Header { key, value, bytes: raw })
    }

    /// A copy of the header.
    pub fn copy(&self) -> (r: Header)
        ensures
            r@ == self@,
    {
        Header { key: self.key.clone(), value: self.value.clone(), bytes: self.bytes.clone() }
    }

    /// The header as text: the key, a colon, a SPACE, the value.
    pub fn to_string(&self) -> (r: String)
        ensures
            r@ == self.key@ + seq![':', ' '] + self.value@,
    {
        proof {
            reveal_strlit(": ");
        }
        let mut text = self.key.clone();
        text.append(": ");
        text.append(self.value.as_str());
        assert(": "@ =~= seq![':', ' ']);
        text
    }
}

impl Default for Header {
    fn default() -> (r: Header)
        ensures
            r@ == (HeaderView { key: Seq::empty(), value: Seq::empty(), bytes: Seq::empty() }),
    {
        Header { key: String::new(), value: String::new(), bytes: Vec::new() }
    }
}

/// The headers of a request, in the order in which they stood on the wire.
/// A key may occur more than once; each occurrence is an entry.
#[derive(Debug, Clone)]
pub struct Headers {
    pub values: Vec<Header>,
}

/// The values of a run of headers.
pub open spec fn views(headers: Seq<Header>) -> Seq<HeaderView> {
    Seq::new(headers.len(), |i: int| headers[i]@)
}

impl View for Headers {
    type V = Seq<HeaderView>;

    open spec fn view(&self) -> Seq<HeaderView> {
        views(self.values@)
    }
}

impl Default for Headers {
    fn default() -> (r: Headers)
        ensures
            r@ == Seq::<HeaderView>::empty(),
    {
        let r = Headers { values: Vec::new() };
        assert(r@ =~= Seq::<HeaderView>::empty());
        r
    }
}

/// The bytes of the line that `key` and `value` are written as.
pub fn render(key: &str, value: &str) -> (line: Vec<u8>)
    ensures
        line@ == rendered(key@, value@),
{
    let mut line: Vec<u8> = Vec::new();
    append_bytes(&mut line, key.as_bytes());
    line.push(COLON);
    line.push(SPACE);
    append_bytes(&mut line, value.as_bytes());
    assert(line@ =~= rendered(key@, value@));
    line
}

impl Headers {
    /// Every entry agrees with the line it holds.
    pub open spec fn wf(&self) -> bool {
        forall|i: int| 0 <= i < self.values@.len() ==> (#[trigger] self.values@[i]).wf()
    }

    /// Appends the header that the line `key: value` reads as. Where that
    /// line is refused, the set stays as it was.
    pub fn add(&mut self, key: String, value: String) -> (res: Result<(), Errors<'static>>)
        ensures
            match parse_header(rendered(key@, value@)) {
                Ok(h) => res is Ok && final(self)@ == old(self)@.push(h),
                Err(f) => res matches Err(e) && e@ == f && final(self)@ == old(self)@,
            },
            old(self).wf() ==> final(self).wf(),
    {
        let h = match Header::new(render(key.as_str(), value.as_str())) {
            Ok(h) => h,
            Err(e) => {
                return Err(e);
            },
        };
        self.values.push(h);
        assert(self@ =~= old(self)@.push(h@));
        Ok(())
    }

    /// Replaces the entry at `index` by the header that the line
    /// `key: value` reads as. With an index out of range, or a line that is
    /// refused, the set stays as it was.
    pub fn set(&mut self, index: usize, key: String, value: String) -> (res: Result<
        (),
        Errors<'static>,
    >)
        ensures
            index >= old(self)@.len() ==> (res matches Err(e) && e@
                == Failure::HeaderIndexOutOfBounds && final(self)@ == old(self)@),
            index < old(self)@.len() ==> match parse_header(rendered(key@, value@)) {
                Ok(h) => res is Ok && final(self)@ == old(self)@.update(index as int, h),
                Err(f) => res matches Err(e) && e@ == f && final(self)@ == old(self)@,
            },
            old(self).wf() ==> final(self).wf(),
    {
        if index >= self.len() {
            return Err(Errors::HeaderIndexOutOfBounds);
        }
        let h = match Header::new(render(key.as_str(), value.as_str())) {
            Ok(h) => h,
            Err(e) => {
                return Err(e);
            },
        };
        self.values.set(index, h);
        assert(self@ =~= old(self)@.update(index as int, h@));
        Ok(())
    }

    /// A copy of the entry at `index`.
    pub fn at(&self, index: usize) -> (res: Result<Header, Errors>)
        ensures
            index < self@.len() ==> (res matches Ok(h) && h@ == self@[index as int] && (self.wf()
                ==> h.wf())),
            index >= self@.len() ==> (res matches Err(e) && e@ == Failure::HeaderIndexOutOfBounds),
    {
        if index >= self.len() {
            return Err(Errors::HeaderIndexOutOfBounds);
        }
        return Ok(self.values[index].copy());
    }

    /// The number of entries.
    pub fn len(&self) -> (n: usize)
        ensures
            n == self@.len(),
    {
        self.values.len()
    }
}

} // verus!
