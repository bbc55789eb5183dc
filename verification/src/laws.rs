//! What holds of the library as a whole, proved from the meaning of its
//! operations.

use crate::block::{lemma_logical_line_end, logical_line, read_lines};
use crate::errors::Failure;
use crate::framing::{declared_length, is_named, lower, Framing};
use crate::block::line_break;
use crate::headers::{lemma_parsed_header, parse_header, rendered, HeaderView};
use crate::model::{chained, joined, terminator, RequestView};
use crate::text::{
    all_ascii, ends_with, first_occurrence, lemma_ascii_is_utf8, first_of, lemma_first_occurrence, lemma_first_occurrence_is,
    lemma_first_occurrence_none, lemma_first_of, lemma_first_of_is, occurs_at, ByteClass, COLON,
    SPACE, TAB,
};
use crate::{Chunked, HeadersEnd};
use vstd::prelude::*;
use vstd::string::*;
use vstd::utf8::*;

verus! {

/// A word stands at an index of a text exactly if it stands there in any
/// longer text, where it ends within the shorter one.
pub proof fn lemma_occurs_in_prefix(s: Seq<u8>, more: Seq<u8>, at: int, word: Seq<u8>)
    requires
        at + word.len() <= s.len(),
    ensures
        occurs_at(s, at, word) == occurs_at(s + more, at, word),
{
    if 0 <= at {
        assert forall|k: int| 0 <= k < word.len() implies (s[at + k] == #[trigger] word[k]) == ((s
            + more)[at + k] == word[k]) by {}
    }
}

/// Searching from further right finds the same, where the word stands
/// nowhere in between.
pub proof fn lemma_search_from_later(s: Seq<u8>, from: int, word: Seq<u8>)
    requires
        0 <= from <= s.len(),
        word.len() > 0,
        forall|j: int| 0 <= j < from ==> !occurs_at(s, j, word),
    ensures
        first_occurrence(s, 0, word) == first_occurrence(s, from, word),
{
    let at = first_occurrence(s, from, word);
    lemma_first_occurrence(s, from, word);
    if at < s.len() {
        lemma_first_occurrence_is(s, 0, word, at);
    } else {
        lemma_first_occurrence_none(s, 0, word);
    }
}

/// Feeding more to a request that was fed `a` leaves it as if it had been fed
/// `a` and the rest in one piece.
pub proof fn lemma_fed_in_two(a: Seq<u8>, b: Seq<u8>)
    requires
        a.len() + b.len() <= usize::MAX,
    ensures
        RequestView::fresh().fed(a).0.fed(b).0 == RequestView::fresh().fed(a + b).0,
{
    let word = terminator();
    let fresh = RequestView::fresh();
    let whole = a + b;
    assert(fresh.raw + a =~= a);
    assert(fresh.raw + whole =~= whole);
    let once = fresh.fed(a).0;
    let at = first_occurrence(a, 0, word);
    lemma_first_occurrence(a, 0, word);
    lemma_first_occurrence(whole, 0, word);
    if at < a.len() {
        lemma_occurs_in_prefix(a, b, at, word);
        assert forall|j: int| 0 <= j < at implies !occurs_at(whole, j, word) by {
            lemma_occurs_in_prefix(a, b, j, word);
        }
        lemma_first_occurrence_is(whole, 0, word, at);
        assert(once.headers_end == HeadersEnd::FoundAt(at as usize));
        assert(whole.subrange(0, at) =~= a.subrange(0, at));
    } else {
        let from = once.resume_at() as int;
        assert(once.headers_end == HeadersEnd::Scanning(from as usize));
        assert(once.raw + b =~= whole);
        assert forall|j: int| 0 <= j < from implies !occurs_at(whole, j, word) by {
            lemma_occurs_in_prefix(a, b, j, word);
        }
        lemma_search_from_later(whole, from, word);
    }
}

/// Splitting does not matter: however the bytes of a message are cut into
/// pieces, feeding the pieces in order to a new request leaves it as feeding
/// the whole message in one piece does, in every field.
pub proof fn lemma_split_independent(chunks: Seq<Seq<u8>>)
    requires
        chunks.len() > 0,
        chained(chunks).len() <= usize::MAX,
    ensures
        RequestView::fresh().fed_all(chunks) == RequestView::fresh().fed(chained(chunks)).0,
    decreases chunks.len(),
{
    let fresh = RequestView::fresh();
    let front = chunks.drop_last();
    if front.len() == 0 {
        assert(chained(front) + chunks.last() =~= chunks.last());
        assert(fresh.fed_all(front) == fresh);
    } else {
        lemma_split_independent(front);
        lemma_fed_in_two(chained(front), chunks.last());
    }
}

/// A header line that holds a byte above 127 is refused.
pub proof fn lemma_non_ascii_refused(bytes: Seq<u8>, at: int)
    requires
        0 <= at < bytes.len(),
        bytes[at] > 127,
    ensures
        parse_header(bytes) is Err,
{
    match parse_header(bytes) {
        Ok(h) => {
            lemma_parsed_header(bytes, h);
            assert(bytes[at] <= 127);
        },
        Err(_) => {},
    }
}

/// Where a header line is refused for a byte above 127, the index reported
/// is that of the first such byte in the line.
pub proof fn lemma_reported_index_is_first(bytes: Seq<u8>, at: usize)
    requires
        bytes.len() <= usize::MAX,
        parse_header(bytes) == Err::<HeaderView, Failure>(Failure::HeaderNonAsciiByteAt(at)),
    ensures
        at < bytes.len(),
        bytes[at as int] > 127,
        forall|j: int| 0 <= j < at ==> #[trigger] bytes[j] <= 127,
{
    let stop = first_of(bytes, 0, ByteClass::NameEnd);
    lemma_first_of(bytes, 0, ByteClass::NameEnd);
    if bytes[stop] > 127 {
        assert forall|j: int| 0 <= j < at implies #[trigger] bytes[j] <= 127 by {
            assert(!ByteClass::NameEnd.has(bytes[j]));
        }
    } else {
        lemma_first_of(bytes, stop + 1, ByteClass::NonAscii);
        assert forall|j: int| 0 <= j < at implies #[trigger] bytes[j] <= 127 by {
            if j < stop {
                assert(!ByteClass::NameEnd.has(bytes[j]));
            } else if j > stop {
                assert(!ByteClass::NonAscii.has(bytes[j]));
            }
        }
    }
}

/// A UTF-8 header line with a byte above 127 is refused with the index of
/// the first such byte, where nothing is wrong with the line before that
/// byte: no SPACE or TAB stands before both the first colon and that byte,
/// and the line does not begin with a colon.
pub proof fn lemma_non_ascii_reported(bytes: Seq<u8>)
    requires
        bytes.len() <= usize::MAX,
        valid_utf8(bytes),
        first_of(bytes, 0, ByteClass::NonAscii) < bytes.len(),
        bytes[first_of(bytes, 0, ByteClass::NameEnd)] != SPACE,
        bytes[first_of(bytes, 0, ByteClass::NameEnd)] != TAB,
        bytes[0] != COLON,
    ensures
        parse_header(bytes) == Err::<HeaderView, Failure>(
            Failure::HeaderNonAsciiByteAt(first_of(bytes, 0, ByteClass::NonAscii) as usize),
        ),
{
    let first = first_of(bytes, 0, ByteClass::NonAscii);
    let stop = first_of(bytes, 0, ByteClass::NameEnd);
    lemma_first_of(bytes, 0, ByteClass::NonAscii);
    lemma_first_of(bytes, 0, ByteClass::NameEnd);
    if stop > first {
        assert(!ByteClass::NameEnd.has(bytes[first]));
    }
    if bytes[stop] > 127 {
        if stop < first {
            assert(!ByteClass::NonAscii.has(bytes[stop]));
        }
    } else {
        assert forall|j: int| stop + 1 <= j < first implies !ByteClass::NonAscii.has(
            #[trigger] bytes[j],
        ) by {}
        lemma_first_of_is(bytes, stop + 1, ByteClass::NonAscii, first);
    }
}

/// The names of the two framing headers are different names.
pub proof fn lemma_framing_names_differ()
    ensures
        "content-length".spec_bytes() != "transfer-encoding".spec_bytes(),
{
    reveal_strlit("content-length");
    reveal_strlit("transfer-encoding");
    is_ascii_chars_encode_utf8("content-length"@);
    is_ascii_chars_encode_utf8("transfer-encoding"@);
}

/// A header that is accepted never leaves both a length and chunked framing
/// declared.
pub proof fn lemma_accepted_is_exclusive(framing: Framing, h: HeaderView)
    ensures
        framing.after(h).1 is None ==> !framing.after(h).0.conflicting(),
{
}

/// Chunked framing declared after a length is refused as mutually exclusive.
pub proof fn lemma_chunked_after_length(framing: Framing, h: HeaderView)
    requires
        framing.content_length is Value,
        framing.is_chunked == Chunked::Unset,
        is_named(h, "transfer-encoding"),
        ends_with(lower(encode_utf8(h.value)), "chunked".spec_bytes()),
    ensures
        framing.after(h).1 == Some(
            Failure::Header(
                "Transfer-Encoding and Content-Length headers are mutually exclusive"@,
            ),
        ),
        framing.after(h).0.conflicting(),
{
    lemma_framing_names_differ();
}

/// A length declared after chunked framing is refused as mutually exclusive.
pub proof fn lemma_length_after_chunked(framing: Framing, h: HeaderView)
    requires
        framing.content_length is Unset,
        framing.is_chunked == Chunked::Processing,
        is_named(h, "content-length"),
        declared_length(encode_utf8(h.value)) is Some,
    ensures
        framing.after(h).1 == Some(
            Failure::Header(
                "Transfer-Encoding and Content-Length headers are mutually exclusive"@,
            ),
        ),
        framing.after(h).0.conflicting(),
{
    lemma_framing_names_differ();
}

/// Reading header lines never marks chunked framing as complete, and where
/// no line is refused, it never leaves both a length and chunked framing
/// declared.
pub proof fn lemma_reading_framing(block: Seq<u8>, end: int, framing: Framing)
    ensures
        framing.is_chunked != Chunked::Complete ==> read_lines(block, end, framing).framing.is_chunked
            != Chunked::Complete,
        !framing.conflicting() && read_lines(block, end, framing).refused is None ==> !read_lines(
            block,
            end,
            framing,
        ).framing.conflicting(),
    decreases block.len() - end,
{
    if !(end < 0 || end + 2 > block.len()) {
        let (line, last) = logical_line(block, end + 2);
        lemma_logical_line_end(block, end + 2);
        match parse_header(line) {
            Err(_) => {},
            Ok(header) => {
                let (next, refused) = framing.after(header);
                if refused is None {
                    lemma_reading_framing(block, last, next);
                }
            },
        }
    }
}

/// Feeding never marks chunked framing as complete, and a feed that reports
/// no failure never leaves both a length and chunked framing declared.
pub proof fn lemma_feed_framing(v: RequestView, data: Seq<u8>)
    ensures
        v.is_chunked != Chunked::Complete ==> v.fed(data).0.is_chunked != Chunked::Complete,
        !v.framing().conflicting() && v.fed(data).1 is None ==> !v.fed(data).0.framing().conflicting(),
{
    let grown = RequestView { raw: v.raw + data, ..v };
    let from: int = match v.headers_end {
        HeadersEnd::Scanning(from) => from as int,
        _ => 0,
    };
    let at = first_occurrence(grown.raw, from, terminator());
    let found = RequestView { headers_end: HeadersEnd::FoundAt(at as usize), ..grown };
    lemma_reading_framing(found.block(), crate::block::line_end(found.block(), 0), found.framing());
}

/// A request that both declares a length and chunked framing never becomes
/// usable: however much more is fed to a new request, once both are declared
/// its body is never complete and it writes out as nothing.
pub proof fn lemma_conflict_never_completes(chunks: Seq<Seq<u8>>)
    ensures
        RequestView::fresh().fed_all(chunks).is_chunked != Chunked::Complete,
        RequestView::fresh().fed_all(chunks).framing().conflicting() ==> {
            &&& !RequestView::fresh().fed_all(chunks).body_complete()
            &&& RequestView::fresh().fed_all(chunks).dump() == Seq::<u8>::empty()
        },
    decreases chunks.len(),
{
    if chunks.len() > 0 {
        lemma_conflict_never_completes(chunks.drop_last());
        lemma_feed_framing(RequestView::fresh().fed_all(chunks.drop_last()), chunks.last());
    }
}

/// A key and a value, written as a line, read back: the key as it is, and
/// the value without the SPACEs and TABs it begins with. The key must be one that a
/// header can have: not empty, ASCII, without colon, SPACE or TAB. The value
/// must be ASCII.
pub proof fn lemma_rendered_reads_back(key: Seq<char>, value: Seq<char>)
    requires
        key.len() > 0,
        is_ascii_chars(key),
        is_ascii_chars(value),
        forall|i: int|
            0 <= i < key.len() ==> #[trigger] key[i] != ':' && key[i] != ' ' && key[i] != '\t',
    ensures
        parse_header(rendered(key, value)) matches Ok(h) && {
            &&& h.key == key
            &&& h.bytes == rendered(key, value)
            &&& h.value.len() <= value.len()
            &&& h.value == value.subrange(value.len() - h.value.len(), value.len() as int)
            &&& forall|i: int|
                0 <= i < value.len() - h.value.len() ==> #[trigger] value[i] == ' ' || value[i]
                    == '\t'
            &&& h.value.len() > 0 ==> h.value[0] != ' ' && h.value[0] != '\t'
        },
{
    let bytes = rendered(key, value);
    is_ascii_chars_encode_utf8(key);
    is_ascii_chars_encode_utf8(value);
    let stop = key.len() as int;
    assert forall|i: int| 0 <= i < stop implies bytes[i] == key[i] as u8 by {
        assert(bytes[i] == encode_utf8(key)[i]);
    }
    assert forall|i: int| 0 <= i < value.len() implies bytes[stop + 2 + i] == value[i] as u8 by {
        assert(bytes[stop + 2 + i] == encode_utf8(value)[i]);
    }
    assert(bytes[stop] == COLON);
    assert(bytes[stop + 1] == SPACE);
    assert(all_ascii(bytes)) by {
        assert forall|i: int| 0 <= i < bytes.len() implies #[trigger] bytes[i] <= 127 by {
            if i < stop {
                assert(bytes[i] == key[i] as u8);
            } else if i >= stop + 2 {
                assert(bytes[stop + 2 + (i - stop - 2)] == value[i - stop - 2] as u8);
            }
        }
    }
    lemma_ascii_is_utf8(bytes);
    assert forall|j: int| 0 <= j < stop implies !ByteClass::NameEnd.has(#[trigger] bytes[j]) by {
        assert(bytes[j] == key[j] as u8);
        assert(key[j] != ':' && key[j] != ' ' && key[j] != '\t');
    }
    lemma_first_of_is(bytes, 0, ByteClass::NameEnd, stop);
    assert forall|j: int| stop + 1 <= j < bytes.len() implies !ByteClass::NonAscii.has(
        #[trigger] bytes[j],
    ) by {}
    lemma_first_of_is(bytes, stop + 1, ByteClass::NonAscii, bytes.len() as int);
    let start = first_of(bytes, stop + 1, ByteClass::NotBlank);
    lemma_first_of(bytes, stop + 1, ByteClass::NotBlank);
    if start == stop + 1 {
        assert(ByteClass::NotBlank.has(bytes[start]));
    }
    let h = parse_header(bytes)->Ok_0;
    let skipped = start - (stop + 2);
    assert(h.key =~= key) by {
        assert forall|i: int| 0 <= i < stop implies h.key[i] == key[i] by {
            assert(bytes[i] == key[i] as u8);
        }
    }
    assert(h.value =~= value.subrange(skipped, value.len() as int)) by {
        assert forall|i: int| 0 <= i < h.value.len() implies h.value[i] == value[skipped + i] by {
            assert(bytes[stop + 2 + (skipped + i)] == value[skipped + i] as u8);
        }
    }
    assert forall|i: int| 0 <= i < skipped implies #[trigger] value[i] == ' ' || value[i]
        == '\t' by {
        assert(!ByteClass::NotBlank.has(bytes[stop + 2 + i]));
        assert(bytes[stop + 2 + i] == value[i] as u8);
    }
    if h.value.len() > 0 {
        assert(ByteClass::NotBlank.has(bytes[start]));
        assert(bytes[stop + 2 + skipped] == value[skipped] as u8);
    }
}

/// A header that was read from the wire, written as a line, reads back with
/// the same key and the same value: writing out normalises, and what it
/// gives is stable.
pub proof fn lemma_header_round_trip(bytes: Seq<u8>, h: HeaderView)
    requires
        parse_header(bytes) == Ok::<HeaderView, Failure>(h),
    ensures
        parse_header(rendered(h.key, h.value)) matches Ok(again) && again.key == h.key
            && again.value == h.value,
{
    lemma_parsed_header(bytes, h);
    lemma_rendered_reads_back(h.key, h.value);
    let again = parse_header(rendered(h.key, h.value))->Ok_0;
    if again.value.len() < h.value.len() {
        assert(h.value[0] == ' ' || h.value[0] == '\t');
    }
    assert(again.value =~= h.value);
}

/// What headers are written out as depends on their keys and values alone:
/// the lines they were read from, folded or not, do not show.
pub proof fn lemma_joined_by_key_and_value(a: Seq<HeaderView>, b: Seq<HeaderView>)
    requires
        a.len() == b.len(),
        forall|i: int|
            0 <= i < a.len() ==> (#[trigger] a[i]).key == b[i].key && a[i].value == b[i].value,
    ensures
        joined(a) == joined(b),
    decreases a.len(),
{
    if a.len() > 1 {
        assert(a.last().key == b.last().key);
        lemma_joined_by_key_and_value(a.drop_last(), b.drop_last());
    } else if a.len() == 1 {
        assert(a[0].key == b[0].key);
    }
}

/// Editing a header of a request whose body is complete, and writing the
/// request out, gives the request line, a line break, the headers with the
/// new one in the place of the old, the terminator, and the body: the edit
/// shows, and nothing else changes.
pub proof fn lemma_dump_after_set(v: RequestView, index: int, key: Seq<char>, value: Seq<char>)
    requires
        v.body_complete(),
        0 <= index < v.headers.len(),
        parse_header(rendered(key, value)) is Ok,
    ensures
        ({
            let h = parse_header(rendered(key, value))->Ok_0;
            let edited = RequestView { headers: v.headers.update(index, h), ..v };
            &&& edited.body_complete()
            &&& edited.body() == v.body()
            &&& edited.dump() == encode_utf8(v.request_line) + line_break() + joined(
                v.headers.update(index, h),
            ) + terminator() + v.body()
            &&& joined(v.headers.update(index, h)) == joined(v.headers.subrange(0, index))
                + (if index > 0 {
                line_break()
            } else {
                Seq::empty()
            }) + rendered(h.key, h.value) + (if index + 1 < v.headers.len() {
                line_break()
            } else {
                Seq::empty()
            }) + joined(v.headers.subrange(index + 1, v.headers.len() as int))
        }),
{
    let h = parse_header(rendered(key, value))->Ok_0;
    let headers = v.headers.update(index, h);
    lemma_joined_split(headers, index);
    assert(headers.subrange(0, index) =~= v.headers.subrange(0, index));
    assert(headers.subrange(index + 1, headers.len() as int) =~= v.headers.subrange(
        index + 1,
        v.headers.len() as int,
    ));
}

/// Headers are written out as those before one of them, that one, and those
/// after it, with a line break wherever two lines meet.
pub proof fn lemma_joined_split(headers: Seq<HeaderView>, index: int)
    requires
        0 <= index < headers.len(),
    ensures
        joined(headers) == joined(headers.subrange(0, index)) + (if index > 0 {
            line_break()
        } else {
            Seq::empty()
        }) + rendered(headers[index].key, headers[index].value) + (if index + 1 < headers.len() {
            line_break()
        } else {
            Seq::empty()
        }) + joined(headers.subrange(index + 1, headers.len() as int)),
    decreases headers.len(),
{
    let line = rendered(headers[index].key, headers[index].value);
    let before = headers.subrange(0, index);
    let after = headers.subrange(index + 1, headers.len() as int);
    if index == headers.len() - 1 {
        assert(before =~= headers.drop_last());
        assert(joined(after) =~= Seq::<u8>::empty());
        if index == 0 {
            assert(joined(before) =~= Seq::<u8>::empty());
            assert(joined(headers) =~= joined(before) + Seq::<u8>::empty() + line + Seq::<
                u8,
            >::empty() + joined(after));
        } else {
            assert(joined(headers) =~= joined(before) + line_break() + line + Seq::<u8>::empty()
                + joined(after));
        }
    } else {
        let front = headers.drop_last();
        let last = rendered(headers.last().key, headers.last().value);
        lemma_joined_split(front, index);
        assert(front.subrange(0, index) =~= before);
        let middle = front.subrange(index + 1, front.len() as int);
        assert(middle =~= after.drop_last());
        let start = joined(before) + (if index > 0 {
            line_break()
        } else {
            Seq::empty()
        }) + line;
        if index + 1 < front.len() {
            assert(joined(after) == joined(middle) + line_break() + last);
            assert(joined(headers) =~= start + line_break() + joined(after));
        } else {
            assert(joined(middle) =~= Seq::<u8>::empty());
            assert(joined(after) == last);
            assert(joined(headers) =~= start + line_break() + joined(after));
        }
    }
}

/// How far a search has come, as a number: not begun, under way, done.
pub open spec fn progress(end: HeadersEnd) -> int {
    match end {
        HeadersEnd::Unset => 0,
        HeadersEnd::Scanning(_) => 1,
        HeadersEnd::FoundAt(_) => 2,
    }
}

/// Feeding only adds to what was received, and the search for the end of the
/// headers never goes back: once begun it stays begun, and once the end is
/// found it stays where it is, with the request line, the headers and the
/// framing as they are.
pub proof fn lemma_feed_goes_forward(v: RequestView, data: Seq<u8>)
    ensures
        v.fed(data).0.raw == v.raw + data,
        progress(v.fed(data).0.headers_end) >= progress(v.headers_end),
        progress(v.fed(data).0.headers_end) >= 1,
        v.headers_end is FoundAt ==> v.fed(data) == (
            RequestView { raw: v.raw + data, ..v },
            None::<Failure>,
        ),
{
}

/// What the framing has declared stays declared: a header never changes a
/// length that is set, nor takes chunked framing back.
pub proof fn lemma_framing_is_set_once(framing: Framing, h: HeaderView)
    ensures
        framing.content_length is Value ==> framing.after(h).0.content_length
            == framing.content_length,
        framing.is_chunked != Chunked::Unset ==> framing.after(h).0.is_chunked
            == framing.is_chunked,
{
}

} // verus!
