//! The header block: everything before the blank line that ends the headers.
//! Lines end with CR LF; a line that begins with a SPACE or a TAB continues
//! the header on the line before it.

use crate::errors::{Errors, Failure};
use crate::framing::Framing;
use crate::headers::{parse_header, views, Header, HeaderView};
use crate::text::{
    append_bytes, find, find_of, first_occurrence, first_of, lemma_first_occurrence,
    lemma_first_of, ByteClass, CR, LF, SPACE, TAB,
};
use vstd::prelude::*;
use vstd::slice::slice_subrange;

verus! {

/// What ends a line: CR, then LF.
pub open spec fn line_break() -> Seq<u8> {
    seq![CR, LF]
}

/// Where the line that starts at `from` ends: at the first line break at or
/// after `from`, or at the end of the block.
pub open spec fn line_end(block: Seq<u8>, from: int) -> int {
    first_occurrence(block, from, line_break())
}

/// The line after the one that ends at `end` continues it: there is such a
/// line, and it begins with a SPACE or a TAB.
pub open spec fn folds_at(block: Seq<u8>, end: int) -> bool {
    0 <= end && end + 2 < block.len() && (block[end + 2] == SPACE || block[end + 2] == TAB)
}

/// What the continuation lines after the line that ends at `end` add to it,
/// and where the last of them ends. Each continuation line gives what follows
/// the SPACEs and TABs it begins with; nothing stands in for those, nor for
/// the line break before them.
pub open spec fn continuation(block: Seq<u8>, end: int) -> (Seq<u8>, int)
    decreases block.len() - end,
{
    if folds_at(block, end) {
        let start = first_of(block, end + 2, ByteClass::NotBlank);
        let next = line_end(block, start);
        proof {
            lemma_first_of(block, end + 2, ByteClass::NotBlank);
            lemma_first_occurrence(block, start, line_break());
        }
        let (more, last) = continuation(block, next);
        (block.subrange(start, next) + more, last)
    } else {
        (Seq::empty(), end)
    }
}

/// The logical header line that starts at `from`, and where it ends: the line
/// itself, and the continuation lines that follow it.
pub open spec fn logical_line(block: Seq<u8>, from: int) -> (Seq<u8>, int) {
    let end = line_end(block, from);
    let (more, last) = continuation(block, end);
    (block.subrange(from, end) + more, last)
}

/// Continuation lines end at or after the line they continue, within the block.
pub proof fn lemma_continuation_end(block: Seq<u8>, end: int)
    requires
        0 <= end <= block.len(),
    ensures
        end <= continuation(block, end).1 <= block.len(),
    decreases block.len() - end,
{
    if folds_at(block, end) {
        let start = first_of(block, end + 2, ByteClass::NotBlank);
        lemma_first_of(block, end + 2, ByteClass::NotBlank);
        lemma_first_occurrence(block, start, line_break());
        lemma_continuation_end(block, line_end(block, start));
    }
}

/// A logical line ends at or after its start, within the block.
pub proof fn lemma_logical_line_end(block: Seq<u8>, from: int)
    requires
        0 <= from <= block.len(),
    ensures
        from <= logical_line(block, from).1 <= block.len(),
{
    lemma_first_occurrence(block, from, line_break());
    lemma_continuation_end(block, line_end(block, from));
}

/// Where the line that starts at `from` ends.
pub fn end_of_line(block: &[u8], from: usize) -> (end: usize)
    requires
        from <= block.len(),
    ensures
        end == line_end(block@, from as int),
        from <= end <= block.len(),
{
    let word: [u8; 2] = [CR, LF];
    assert(word@ =~= line_break());
    proof {
        lemma_first_occurrence(block@, from as int, line_break());
    }
    find(block, from, word.as_slice())
}

/// The logical header line that starts at `from`, and where it ends.
pub fn take_line(block: &[u8], from: usize) -> (r: (Vec<u8>, usize))
    requires
        from <= block.len(),
    ensures
        r.0@ == logical_line(block@, from as int).0,
        r.1 == logical_line(block@, from as int).1,
        from <= r.1 <= block.len(),
{
    let mut end = end_of_line(block, from);
    let mut line: Vec<u8> = Vec::new();
    append_bytes(&mut line, slice_subrange(block, from, end));
    while block.len() - end > 2 && (block[end + 2] == SPACE || block[end + 2] == TAB)
        invariant
            from <= end <= block.len(),
            logical_line(block@, from as int).0 == line@ + continuation(block@, end as int).0,
            logical_line(block@, from as int).1 == continuation(block@, end as int).1,
        decreases block.len() - end,
    {
        let start = find_of(block, end + 2, ByteClass::NotBlank);
        proof {
            lemma_first_of(block@, end + 2, ByteClass::NotBlank);
        }
        let next = end_of_line(block, start);
        let ghost before = line@;
        append_bytes(&mut line, slice_subrange(block, start, next));
        assert(line@ + continuation(block@, next as int).0 =~= before + continuation(
            block@,
            end as int,
        ).0);
        end = next;
    }
    (line, end)
}

/// What reading header lines gives: the headers read, the framing they leave,
/// and the failure that stopped the reading, if one did.
pub struct Reading {
    pub headers: Seq<HeaderView>,
    pub framing: Framing,
    pub refused: Option<Failure>,
}

/// Reading the header lines that follow the line ending at `end`, in order,
/// with `framing` declared so far. Each logical line is read as a header and
/// taken into the framing; the first line that is refused, as a header or by
/// the framing, stops the reading.
pub open spec fn read_lines(block: Seq<u8>, end: int, framing: Framing) -> Reading
    decreases block.len() - end,
{
    if end < 0 || end + 2 > block.len() {
        Reading { headers: Seq::empty(), framing, refused: None }
    } else {
        let (line, last) = logical_line(block, end + 2);
        proof {
            lemma_logical_line_end(block, end + 2);
        }
        match parse_header(line) {
            Err(failure) => Reading { headers: Seq::empty(), framing, refused: Some(failure) },
            Ok(header) => {
                let (next, refused) = framing.after(header);
                if refused is Some {
                    Reading { headers: Seq::empty(), framing: next, refused }
                } else {
                    let rest = read_lines(block, last, next);
                    Reading { headers: seq![header] + rest.headers, ..rest }
                }
            },
        }
    }
}

/// Reads the header lines that follow the line ending at `end`, and takes
/// them into `framing`.
pub fn read_headers(block: &[u8], end: usize, framing: &mut Framing) -> (res: Result<
    Vec<Header>,
    Errors<'static>,
>)
    requires
        end <= block.len(),
    ensures
        *final(framing) == read_lines(block@, end as int, *old(framing)).framing,
        match read_lines(block@, end as int, *old(framing)).refused {
            None => res matches Ok(headers) && views(headers@) == read_lines(
                block@,
                end as int,
                *old(framing),
            ).headers && forall|i: int| 0 <= i < headers@.len() ==> (#[trigger] headers@[i]).wf(),
            Some(failure) => res matches Err(e) && e@ == failure,
        },
{
    let ghost total = read_lines(block@, end as int, *framing);
    let mut headers: Vec<Header> = Vec::new();
    let mut at = end;
    assert(views(headers@) + total.headers =~= total.headers);
    while block.len() - at >= 2
        invariant
            at <= block.len(),
            total == read_lines(block@, end as int, *old(framing)),
            total.headers == views(headers@) + read_lines(block@, at as int, *framing).headers,
            total.framing == read_lines(block@, at as int, *framing).framing,
            total.refused == read_lines(block@, at as int, *framing).refused,
            forall|i: int| 0 <= i < headers@.len() ==> (#[trigger] headers@[i]).wf(),
        decreases block.len() - at,
    {
        let (line, last) = take_line(block, at + 2);
        let header = match Header::new(line) {
            Ok(header) => header,
            Err(e) => {
                return Err(e);
            },
        };
        match framing.apply(&header) {
            Ok(()) => {},
            Err(e) => {
                return Err(e);
            },
        }
        let ghost before = headers@;
        headers.push(header);
        assert(views(headers@) + read_lines(block@, last as int, *framing).headers =~= views(
            before,
        ) + (seq![header@] + read_lines(block@, last as int, *framing).headers));
        at = last;
    }
    assert(views(headers@) + Seq::<HeaderView>::empty() =~= views(headers@));
    Ok(headers)
}

} // verus!
