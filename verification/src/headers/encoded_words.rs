//! Encoded words in a header value: runs of the form
//! `=?charset?encoding?text?=`, found by their markers and decoded one by one.

use crate::text::{find_of, first_of, lemma_first_of, occurs_at, stands_at, ByteClass};
use base64::engine::general_purpose;
use base64::Engine;
use encoding::label::encoding_from_whatwg_label;
use encoding::DecoderTrap;
use vstd::prelude::*;
use vstd::slice::slice_to_vec;
use vstd::string::*;
use vstd::utf8::*;

verus! {

/// The bounds of a run in a header value, as byte offsets: it starts at `s`
/// and ends before `e`.
#[derive(Debug, Clone, Copy, PartialEq, Eq, Structural)]
pub struct Point {
    pub s: usize,
    pub e: usize,
}

/// What opens a run: `=?`.
pub open spec fn opening() -> Seq<u8> {
    seq![61u8, 63u8]
}

/// What closes a run: `?=`.
pub open spec fn closing() -> Seq<u8> {
    seq![63u8, 61u8]
}

/// How far a scan for runs has come: the openings that no closing has
/// answered yet, oldest first, and the runs closed so far, in the order in
/// which they were closed.
pub struct Scan {
    pub pending: Seq<usize>,
    pub closed: Seq<Point>,
}

/// The scan once index `at` is looked at. An opening there is left pending.
/// A closing there answers the newest pending opening, and the two bound a
/// run; with nothing pending it is passed over.
pub open spec fn scan_step(bytes: Seq<u8>, scan: Scan, at: int) -> Scan {
    if occurs_at(bytes, at, opening()) {
        Scan { pending: scan.pending.push(at as usize), ..scan }
    } else if occurs_at(bytes, at, closing()) && scan.pending.len() > 0 {
        Scan {
            pending: scan.pending.drop_last(),
            closed: scan.closed.push(Point { s: scan.pending.last(), e: (at + 2) as usize }),
        }
    } else {
        scan
    }
}

/// The scan once every index below `upto` is looked at, from the left.
pub open spec fn scan_upto(bytes: Seq<u8>, upto: int) -> Scan
    decreases upto,
{
    if upto <= 0 {
        Scan { pending: Seq::empty(), closed: Seq::empty() }
    } else {
        scan_step(bytes, scan_upto(bytes, upto - 1), upto - 1)
    }
}

/// The runs in `bytes`, in the order in which they close.
pub open spec fn runs(bytes: Seq<u8>) -> Seq<Point> {
    scan_upto(bytes, bytes.len() as int).closed
}

/// `p` bounds a run in `bytes`: an opening stands at its start, a closing at
/// its end, and the closing begins after the opening does.
pub open spec fn is_run(bytes: Seq<u8>, p: Point) -> bool {
    &&& occurs_at(bytes, p.s as int, opening())
    &&& occurs_at(bytes, p.e - 2, closing())
    &&& p.s < p.e - 2
}

/// The bounds of the runs in `value`, in the order in which they close.
pub fn find_encoded_words(value: &str) -> (words_at: Vec<Point>)
    ensures
        words_at@ == runs(value.spec_bytes()),
        forall|i: int| 0 <= i < words_at@.len() ==> is_run(value.spec_bytes(), #[trigger] words_at@[i]),
{
    let bytes = value.as_bytes();
    let open: [u8; 2] = [61, 63];
    let close: [u8; 2] = [63, 61];
    assert(open@ =~= opening());
    assert(close@ =~= closing());
    let mut pending: Vec<usize> = Vec::new();
    let mut words_at: Vec<Point> = Vec::new();
    let mut at: usize = 0;
    while at < bytes.len()
        invariant
            at <= bytes.len(),
            bytes@ == value.spec_bytes(),
            open@ == opening(),
            close@ == closing(),
            pending@ == scan_upto(bytes@, at as int).pending,
            words_at@ == scan_upto(bytes@, at as int).closed,
            forall|i: int|
                0 <= i < pending@.len() ==> (#[trigger] pending@[i]) < at && occurs_at(
                    bytes@,
                    pending@[i] as int,
                    opening(),
                ),
            forall|i: int| 0 <= i < words_at@.len() ==> is_run(bytes@, #[trigger] words_at@[i]),
        decreases bytes.len() - at,
    {
        if stands_at(bytes, at, open.as_slice()) {
            pending.push(at);
        } else if stands_at(bytes, at, close.as_slice()) {
            match pending.pop() {
                Some(s) => {
                    words_at.push(Point { s, e: at + 2 });
                },
                None => (),
            }
        }
        at += 1;
    }
    words_at
}

/// In UTF-8, an ASCII byte starts a character, and the index after it starts
/// one or is the end.
pub proof fn lemma_boundary_after_ascii(bytes: Seq<u8>, at: int)
    requires
        valid_utf8(bytes),
        0 <= at < bytes.len(),
        bytes[at] <= 127,
    ensures
        is_char_boundary(bytes, at),
        is_char_boundary(bytes, at + 1),
    decreases bytes.len(),
{
    is_char_boundary_iff_not_is_continuation_byte(bytes, at);
    let rest = pop_first_scalar(bytes);
    let width = length_of_first_scalar(bytes);
    if at == 0 {
        reveal_with_fuel(is_char_boundary, 2);
    } else {
        assert(rest[at - width] == bytes[at]);
        lemma_boundary_after_ascii(rest, at - width);
    }
}

/// `p` can be cut out of `bytes`: it lies within them, and starts and ends
/// where a character does.
pub open spec fn cuts(bytes: Seq<u8>, p: Point) -> bool {
    &&& p.s <= p.e <= bytes.len()
    &&& is_char_boundary(bytes, p.s as int)
    &&& is_char_boundary(bytes, p.e as int)
}

/// A run can be cut out of the UTF-8 text it stands in.
pub proof fn lemma_run_cuts(bytes: Seq<u8>, p: Point)
    requires
        valid_utf8(bytes),
        is_run(bytes, p),
    ensures
        cuts(bytes, p),
{
    assert(bytes[p.s as int] == opening()[0]);
    assert(bytes[p.e - 2 + 1] == closing()[1]);
    lemma_boundary_after_ascii(bytes, p.s as int);
    lemma_boundary_after_ascii(bytes, p.e - 1);
}

/// The part of `bytes` before the first question mark in them; all of them
/// where there is none.
pub open spec fn piece(bytes: Seq<u8>) -> Seq<u8> {
    bytes.subrange(0, first_of(bytes, 0, ByteClass::Question))
}

/// The part of `bytes` after the first question mark in them; nothing where
/// there is none.
pub open spec fn after_piece(bytes: Seq<u8>) -> Seq<u8> {
    let mark = first_of(bytes, 0, ByteClass::Question);
    if mark < bytes.len() {
        bytes.subrange(mark + 1, bytes.len() as int)
    } else {
        Seq::empty()
    }
}

/// Field `k` of a run, counted from 0: what stands between question mark `k`
/// and the one after it. A field that the run does not reach is empty.
pub open spec fn field(run: Seq<u8>, k: nat) -> Seq<u8>
    decreases k,
{
    if k == 0 {
        piece(run)
    } else {
        field(after_piece(run), (k - 1) as nat)
    }
}

/// The part of `text` before its first question mark, and the part after it.
pub fn split_field<'a>(text: &'a str) -> (r: (&'a str, &'a str))
    ensures
        r.0.spec_bytes() == piece(text.spec_bytes()),
        r.1.spec_bytes() == after_piece(text.spec_bytes()),
{
    let bytes = text.as_bytes();
    let mark = find_of(bytes, 0, ByteClass::Question);
    proof {
        lemma_first_of(bytes@, 0, ByteClass::Question);
        encode_utf8_valid_utf8(text@);
        if mark < bytes@.len() {
            lemma_boundary_after_ascii(bytes@, mark as int);
        } else {
            is_char_boundary_start_end_of_seq(bytes@);
        }
    }
    let (head, tail) = text.split_at(mark);
    if mark < bytes.len() {
        proof {
            encode_utf8_valid_utf8(tail@);
            assert(tail.spec_bytes()[0] == bytes@[mark as int]);
            lemma_boundary_after_ascii(tail.spec_bytes(), 0);
        }
        let (_, rest) = tail.split_at(1);
        assert(rest.spec_bytes() =~= after_piece(text.spec_bytes()));
        (head, rest)
    } else {
        assert(tail.spec_bytes() =~= after_piece(text.spec_bytes()));
        (head, tail)
    }
}

/// The parts of a run as they stand in the header value.
#[derive(Debug, PartialEq)]
pub struct Raw {
    pub charset: String,
    pub encoding: String,
    pub bytes: Vec<u8>,
}

/// One encoded word: its parts, the text it decodes to, and what went wrong
/// where decoding failed. A failure is recorded here and stops nothing else.
#[derive(Debug, PartialEq)]
pub struct EncodedWord {
    pub raw: Raw,
    pub value: String,
    pub error: String,
}

/// The mathematical value of a [`Raw`].
pub struct RawView {
    pub charset: Seq<char>,
    pub encoding: Seq<char>,
    pub bytes: Seq<u8>,
}

/// The mathematical value of an [`EncodedWord`].
pub struct WordView {
    pub raw: RawView,
    pub value: Seq<char>,
    pub error: Seq<char>,
}

impl View for Raw {
    type V = RawView;

    open spec fn view(&self) -> RawView {
        RawView { charset: self.charset@, encoding: self.encoding@, bytes: self.bytes@ }
    }
}

impl View for EncodedWord {
    type V = WordView;

    open spec fn view(&self) -> WordView {
        WordView { raw: self.raw@, value: self.value@, error: self.error@ }
    }
}

impl EncodedWord {
    /// The decoded text.
    pub fn as_utf8(&self) -> (text: &String)
        ensures
            text@ == self@.value,
    {
        &self.value
    }
}

/// What unpadded base64 text in the standard alphabet decodes to: the bytes,
/// or the decoder's message where the text is refused.
pub uninterp spec fn base64_decoded(text: Seq<u8>) -> Result<Seq<u8>, Seq<char>>;

/// What bytes decode to in the charset that a label names, with the
/// replacement character where they are malformed: the text, or the
/// decoder's message; nothing where the label names no charset.
pub uninterp spec fn charset_decoded(label: Seq<char>, bytes: Seq<u8>) -> Option<
    Result<Seq<char>, Seq<char>>,
>;

/// The value of what a base64 decoder returned.
pub open spec fn decoded_view(decoded: Result<Vec<u8>, String>) -> Result<Seq<u8>, Seq<char>> {
    match decoded {
        Ok(bytes) => Ok(bytes@),
        Err(message) => Err(message@),
    }
}

/// The value of what a charset decoder returned.
pub open spec fn outcome_view(outcome: Option<Result<String, String>>) -> Option<
    Result<Seq<char>, Seq<char>>,
> {
    match outcome {
        Some(Ok(text)) => Some(Ok(text@)),
        Some(Err(message)) => Some(Err(message@)),
        None => None,
    }
}

/// `Engine::decode` of base64's `general_purpose::STANDARD_NO_PAD`, with the
/// `DecodeError` turned into its message by `to_string`. The result depends
/// on the text alone, and is what [`base64_decoded`] names.
#[verifier::external_body]
fn base64_decode(text: &[u8]) -> (decoded: Result<Vec<u8>, String>)
    ensures
        decoded_view(decoded) == base64_decoded(text@),
{
    match general_purpose::STANDARD_NO_PAD.decode(text) {
        Ok(bytes) => Ok(bytes),
        Err(e) => Err(e.to_string()),
    }
}

/// `encoding_from_whatwg_label` of the encoding crate, and `Encoding::decode`
/// with `DecoderTrap::Replace` on the encoding it finds, the error turned
/// into a `String`. The result depends on the label and the bytes alone, and
/// is what [`charset_decoded`] names.
#[verifier::external_body]
fn charset_decode(label: &str, bytes: &[u8]) -> (outcome: Option<Result<String, String>>)
    ensures
        outcome_view(outcome) == charset_decoded(label@, bytes@),
{
    match encoding_from_whatwg_label(label) {
        Some(charset) => match charset.decode(bytes, DecoderTrap::Replace) {
            Ok(text) => Some(Ok(text)),
            Err(e) => Some(Err(e.into_owned())),
        },
        None => None,
    }
}

/// The bytes that a base64 decoder gave; none where it refused the text.
pub open spec fn payload(decoded: Result<Seq<u8>, Seq<char>>) -> Seq<u8> {
    match decoded {
        Ok(bytes) => bytes,
        Err(_) => Seq::empty(),
    }
}

/// The word with base64 encoding, put together from its parts and from what
/// the two decoders returned. The text is what the charset decoder gave. The
/// error is the message of the charset decoder where it failed, `unsupported
/// charset` and the label where the label names no charset, and else the
/// message of the base64 decoder, if it had one.
pub open spec fn assembled(
    raw: RawView,
    decoded: Result<Seq<u8>, Seq<char>>,
    outcome: Option<Result<Seq<char>, Seq<char>>>,
) -> WordView {
    let refused = match decoded {
        Ok(_) => Seq::empty(),
        Err(message) => message,
    };
    match outcome {
        Some(Ok(text)) => WordView { raw, value: text, error: refused },
        Some(Err(message)) => WordView { raw, value: Seq::empty(), error: message },
        None => WordView {
            raw,
            value: Seq::empty(),
            error: "unsupported charset "@ + raw.charset,
        },
    }
}

/// Puts a word with base64 encoding together from its parts and from what
/// the two decoders returned.
pub fn assemble(
    raw: Raw,
    decoded: Result<Vec<u8>, String>,
    outcome: Option<Result<String, String>>,
) -> (word: EncodedWord)
    ensures
        word@ == assembled(raw@, decoded_view(decoded), outcome_view(outcome)),
{
    let refused = match decoded {
        Ok(_) => String::new(),
        Err(message) => message,
    };
    match outcome {
        Some(Ok(text)) => EncodedWord { raw, value: text, error: refused },
        Some(Err(message)) => EncodedWord { raw, value: String::new(), error: message },
        None => {
            let error = String::from_str("unsupported charset ").concat(raw.charset.as_str());
            EncodedWord { raw, value: String::new(), error }
        },
    }
}

/// The parts of a run: field 1 is the charset, field 2 the encoding, and the
/// bytes are the whole run.
pub open spec fn raw_of(run: Seq<u8>) -> RawView {
    RawView {
        charset: decode_utf8(field(run, 1)),
        encoding: decode_utf8(field(run, 2)),
        bytes: run,
    }
}

/// The encoding of the run is `B`, for base64.
pub open spec fn is_base64(run: Seq<u8>) -> bool {
    field(run, 2) == seq![66u8]
}

/// The word that a run stands for. With encoding `B`, field 3 is decoded from
/// base64 and the bytes that gives are decoded in the charset. Any other
/// encoding leaves the text empty and the error `unsupported encoding` and
/// the encoding.
pub open spec fn word_of(run: Seq<u8>) -> WordView {
    let raw = raw_of(run);
    if is_base64(run) {
        let decoded = base64_decoded(field(run, 3));
        assembled(raw, decoded, charset_decoded(raw.charset, payload(decoded)))
    } else {
        WordView { raw, value: Seq::empty(), error: "unsupported encoding "@ + raw.encoding }
    }
}

/// The word that the run `run` stands for.
pub fn parse_word(run: &str) -> (word: EncodedWord)
    ensures
        word@ == word_of(run.spec_bytes()),
{
    let (_, rest) = split_field(run);
    let (charset, rest) = split_field(rest);
    let (encoding, rest) = split_field(rest);
    let (text, _) = split_field(rest);
    proof {
        reveal_with_fuel(field, 4);
        encode_utf8_decode_utf8(charset@);
        encode_utf8_decode_utf8(encoding@);
    }
    let raw = Raw {
        charset: String::from_str(charset),
        encoding: String::from_str(encoding),
        bytes: slice_to_vec(run.as_bytes()),
    };
    let code = encoding.as_bytes();
    if code.len() == 1 && code[0] == 66 {
        assert(code@ =~= seq![66u8]);
        let decoded = base64_decode(text.as_bytes());
        let outcome = match &decoded {
            Ok(bytes) => charset_decode(charset, bytes.as_slice()),
            Err(_) => {
                let none: Vec<u8> = Vec::new();
                charset_decode(charset, none.as_slice())
            },
        };
        assemble(raw, decoded, outcome)
    } else {
        let error = String::from_str("unsupported encoding ").concat(encoding);
        EncodedWord { raw, value: String::new(), error }
    }
}

/// The words that the runs at `words_at` in `value` stand for, in that order.
pub fn parse_encoded_words(value: &str, words_at: Vec<Point>) -> (words: Vec<EncodedWord>)
    requires
        forall|i: int|
            0 <= i < words_at@.len() ==> cuts(value.spec_bytes(), #[trigger] words_at@[i]),
    ensures
        words@.len() == words_at@.len(),
        forall|i: int|
            0 <= i < words@.len() ==> (#[trigger] words@[i])@ == word_of(
                value.spec_bytes().subrange(words_at@[i].s as int, words_at@[i].e as int),
            ),
{
    let mut words: Vec<EncodedWord> = Vec::new();
    let mut k: usize = 0;
    while k < words_at.len()
        invariant
            k <= words_at.len(),
            words@.len() == k,
            forall|i: int|
                0 <= i < words_at@.len() ==> cuts(value.spec_bytes(), #[trigger] words_at@[i]),
            forall|i: int|
                0 <= i < words@.len() ==> (#[trigger] words@[i])@ == word_of(
                    value.spec_bytes().subrange(words_at@[i].s as int, words_at@[i].e as int),
                ),
        decreases words_at.len() - k,
    {
        let word_at = words_at[k];
        let (head, _) = value.split_at(word_at.e);
        proof {
            let bytes = value.spec_bytes();
            encode_utf8_valid_utf8(value@);
            encode_utf8_valid_utf8(head@);
            if word_at.s < word_at.e {
                is_char_boundary_iff_not_is_continuation_byte(bytes, word_at.s as int);
                is_char_boundary_iff_not_is_continuation_byte(head.spec_bytes(), word_at.s as int);
            } else {
                is_char_boundary_start_end_of_seq(head.spec_bytes());
            }
        }
        let (_, run) = head.split_at(word_at.s);
        assert(run.spec_bytes() =~= value.spec_bytes().subrange(
            word_at.s as int,
            word_at.e as int,
        ));
        words.push(parse_word(run));
        k += 1;
    }
    words
}

/// The encoded words in `value`, in the order in which their runs close.
pub fn encoded_words(value: &str) -> (words: Vec<EncodedWord>)
    ensures
        words@.len() == runs(value.spec_bytes()).len(),
        forall|i: int|
            0 <= i < words@.len() ==> (#[trigger] words@[i])@ == word_of(
                value.spec_bytes().subrange(
                    runs(value.spec_bytes())[i].s as int,
                    runs(value.spec_bytes())[i].e as int,
                ),
            ),
{
    let words_at = find_encoded_words(value);
    proof {
        encode_utf8_valid_utf8(value@);
        assert forall|i: int| 0 <= i < words_at@.len() implies cuts(
            value.spec_bytes(),
            #[trigger] words_at@[i],
        ) by {
            lemma_run_cuts(value.spec_bytes(), words_at@[i]);
        }
    }
    parse_encoded_words(value, words_at)
}

} // verus!
