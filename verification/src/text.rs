//! Byte strings as text: ASCII, UTF-8, and the searches the parser is built on.

use std::string::FromUtf8Error;
use vstd::prelude::*;
use vstd::slice::slice_to_vec;
use vstd::utf8::*;

verus! {

/// Carriage return.
pub const CR: u8 = 13;

/// Line feed.
pub const LF: u8 = 10;

/// The space character.
pub const SPACE: u8 = 32;

/// The horizontal tab.
pub const TAB: u8 = 9;

/// The colon.
pub const COLON: u8 = 58;

/// Every byte is at most 127.
pub open spec fn all_ascii(bytes: Seq<u8>) -> bool {
    forall|i: int| 0 <= i < bytes.len() ==> #[trigger] bytes[i] <= 127
}

/// The characters that ASCII bytes stand for, one per byte.
pub open spec fn ascii_text(bytes: Seq<u8>) -> Seq<char> {
    Seq::new(bytes.len(), |i: int| bytes[i] as char)
}

/// ASCII bytes are UTF-8, and encode exactly the characters they stand for.
pub proof fn lemma_ascii_is_utf8(bytes: Seq<u8>)
    requires
        all_ascii(bytes),
    ensures
        valid_utf8(bytes),
        is_ascii_chars(ascii_text(bytes)),
        encode_utf8(ascii_text(bytes)) == bytes,
        decode_utf8(bytes) == ascii_text(bytes),
{
    let chars = ascii_text(bytes);
    assert(is_ascii_chars(chars)) by {
        assert forall|i: int| 0 <= i < chars.len() implies '\0' <= #[trigger] chars[i]
            <= '\u{7f}' by {
            assert(bytes[i] <= 127);
        }
    }
    is_ascii_chars_encode_utf8(chars);
    assert(encode_utf8(chars) =~= bytes) by {
        assert forall|i: int| 0 <= i < bytes.len() implies encode_utf8(chars)[i] == bytes[i] by {
            assert(bytes[i] <= 127);
            assert(chars[i] as u8 == encode_utf8(chars)[i]);
        }
    }
    encode_utf8_valid_utf8(chars);
    encode_utf8_decode_utf8(chars);
}

/// `String::from_utf8`: succeeds exactly on UTF-8 input, and the string it
/// returns holds the bytes it was given.
pub assume_specification[ String::from_utf8 ](bytes: Vec<u8>) -> (r: Result<String, FromUtf8Error>)
    ensures
        r is Ok <==> valid_utf8(bytes@),
        r matches Ok(s) ==> encode_utf8(s@) == bytes@,
;

/// `word` stands in `s` at index `i`.
pub open spec fn occurs_at(s: Seq<u8>, i: int, word: Seq<u8>) -> bool {
    &&& 0 <= i
    &&& i + word.len() <= s.len()
    &&& forall|k: int| 0 <= k < word.len() ==> s[i + k] == #[trigger] word[k]
}

/// The least index at or after `from` at which `word` stands in `s`, or the
/// length of `s` where it stands nowhere from there on.
pub open spec fn first_occurrence(s: Seq<u8>, from: int, word: Seq<u8>) -> int
    decreases s.len() - from,
{
    if from < 0 || from + word.len() > s.len() {
        s.len() as int
    } else if occurs_at(s, from, word) {
        from
    } else {
        first_occurrence(s, from + 1, word)
    }
}

/// `word` stands somewhere in `s`.
pub open spec fn contains(s: Seq<u8>, word: Seq<u8>) -> bool {
    exists|i: int| occurs_at(s, i, word)
}

/// `s` ends with `word`.
pub open spec fn ends_with(s: Seq<u8>, word: Seq<u8>) -> bool {
    occurs_at(s, s.len() - word.len(), word)
}

/// What [`first_occurrence`] returns is an occurrence, and the first one.
pub proof fn lemma_first_occurrence(s: Seq<u8>, from: int, word: Seq<u8>)
    requires
        0 <= from <= s.len(),
        word.len() > 0,
    ensures
        from <= first_occurrence(s, from, word) <= s.len(),
        first_occurrence(s, from, word) < s.len() ==> occurs_at(
            s,
            first_occurrence(s, from, word),
            word,
        ),
        forall|j: int| from <= j < first_occurrence(s, from, word) ==> !occurs_at(s, j, word),
        first_occurrence(s, from, word) == s.len() ==> forall|j: int|
            from <= j ==> !occurs_at(s, j, word),
    decreases s.len() - from,
{
    if from + word.len() <= s.len() && !occurs_at(s, from, word) {
        lemma_first_occurrence(s, from + 1, word);
    }
}

/// An occurrence with none between `from` and it is the first occurrence.
pub proof fn lemma_first_occurrence_is(s: Seq<u8>, from: int, word: Seq<u8>, at: int)
    requires
        0 <= from <= at,
        word.len() > 0,
        occurs_at(s, at, word),
        forall|j: int| from <= j < at ==> !occurs_at(s, j, word),
    ensures
        first_occurrence(s, from, word) == at,
    decreases at - from,
{
    if from < at {
        lemma_first_occurrence_is(s, from + 1, word, at);
    }
}

/// Where `word` stands nowhere at or after `from`, the search returns the length.
pub proof fn lemma_first_occurrence_none(s: Seq<u8>, from: int, word: Seq<u8>)
    requires
        0 <= from,
        forall|j: int| from <= j ==> !occurs_at(s, j, word),
    ensures
        first_occurrence(s, from, word) == s.len(),
    decreases s.len() - from,
{
    if from + word.len() <= s.len() {
        assert(!occurs_at(s, from, word));
        lemma_first_occurrence_none(s, from + 1, word);
    }
}

/// Whether `word` stands in `s` at index `at`.
pub fn stands_at(s: &[u8], at: usize, word: &[u8]) -> (r: bool)
    ensures
        r == occurs_at(s@, at as int, word@),
{
    if word.len() > s.len() || at > s.len() - word.len() {
        return false;
    }
    let mut k: usize = 0;
    while k < word.len()
        invariant
            k <= word.len(),
            at + word.len() <= s.len(),
            forall|j: int| 0 <= j < k ==> s@[at + j] == #[trigger] word@[j],
        decreases word.len() - k,
    {
        if s[at + k] != word[k] {
            return false;
        }
        k += 1;
    }
    true
}

/// The first index at or after `from` at which `word` stands in `s`, or the
/// length of `s`.
pub fn find(s: &[u8], from: usize, word: &[u8]) -> (r: usize)
    requires
        from <= s.len(),
    ensures
        r == first_occurrence(s@, from as int, word@),
{
    let mut at: usize = from;
    while at < s.len()
        invariant
            from <= at <= s.len(),
            first_occurrence(s@, from as int, word@) == first_occurrence(s@, at as int, word@),
        decreases s.len() - at,
    {
        if stands_at(s, at, word) {
            return at;
        }
        at += 1;
    }
    at
}

/// The sets of bytes that the grammars tell apart.
#[derive(Clone, Copy, Debug, PartialEq, Eq)]
pub enum ByteClass {
    /// What ends a field name: a colon, a SPACE, a TAB, or a byte above 127.
    NameEnd,
    /// A byte above 127.
    NonAscii,
    /// Any byte but SPACE and TAB.
    NotBlank,
    /// The question mark.
    Question,
}

impl ByteClass {
    /// `b` belongs to the class.
    pub open spec fn has(self, b: u8) -> bool {
        match self {
            ByteClass::NameEnd => b > 127 || b == COLON || b == SPACE || b == TAB,
            ByteClass::NonAscii => b > 127,
            ByteClass::NotBlank => b != SPACE && b != TAB,
            ByteClass::Question => b == 63,
        }
    }

    /// Whether `b` belongs to the class.
    pub fn holds(self, b: u8) -> (r: bool)
        ensures
            r == self.has(b),
    {
        match self {
            ByteClass::NameEnd => b > 127 || b == COLON || b == SPACE || b == TAB,
            ByteClass::NonAscii => b > 127,
            ByteClass::NotBlank => b != SPACE && b != TAB,
            ByteClass::Question => b == 63,
        }
    }
}

/// The least index at or after `from` whose byte belongs to `class`, or the
/// length of `s` where no byte from there on does.
pub open spec fn first_of(s: Seq<u8>, from: int, class: ByteClass) -> int
    decreases s.len() - from,
{
    if from < 0 || from >= s.len() {
        s.len() as int
    } else if class.has(s[from]) {
        from
    } else {
        first_of(s, from + 1, class)
    }
}

/// What [`first_of`] returns holds a byte of the class, and is the first to.
pub proof fn lemma_first_of(s: Seq<u8>, from: int, class: ByteClass)
    requires
        0 <= from <= s.len(),
    ensures
        from <= first_of(s, from, class) <= s.len(),
        first_of(s, from, class) < s.len() ==> class.has(s[first_of(s, from, class)]),
        forall|j: int| from <= j < first_of(s, from, class) ==> !class.has(#[trigger] s[j]),
    decreases s.len() - from,
{
    if from < s.len() && !class.has(s[from]) {
        lemma_first_of(s, from + 1, class);
    }
}

/// An index that holds a byte of the class, with none between `from` and it,
/// is what [`first_of`] returns; so is the length where no byte belongs.
pub proof fn lemma_first_of_is(s: Seq<u8>, from: int, class: ByteClass, at: int)
    requires
        0 <= from <= at <= s.len(),
        at < s.len() ==> class.has(s[at]),
        forall|j: int| from <= j < at ==> !class.has(#[trigger] s[j]),
    ensures
        first_of(s, from, class) == at,
    decreases at - from,
{
    if from < at {
        lemma_first_of_is(s, from + 1, class, at);
    }
}

/// The first index at or after `from` whose byte belongs to `class`, or the
/// length of `s`.
pub fn find_of(s: &[u8], from: usize, class: ByteClass) -> (r: usize)
    requires
        from <= s.len(),
    ensures
        r == first_of(s@, from as int, class),
{
    let mut at: usize = from;
    while at < s.len()
        invariant
            from <= at <= s.len(),
            first_of(s@, from as int, class) == first_of(s@, at as int, class),
        decreases s.len() - at,
    {
        if class.holds(s[at]) {
            return at;
        }
        at += 1;
    }
    at
}

/// The string that ASCII bytes spell.
pub fn ascii_string(bytes: &[u8]) -> (s: String)
    requires
        all_ascii(bytes@),
    ensures
        s@ == ascii_text(bytes@),
{
    proof {
        lemma_ascii_is_utf8(bytes@);
    }
    match String::from_utf8(slice_to_vec(bytes)) {
        Ok(s) => {
            proof {
                encode_utf8_decode_utf8(s@);
            }
            s
        },
        // ASCII is UTF-8, so the conversion cannot fail.
        Err(_) => String::new(),
    }
}

/// Appends the bytes of `src` to `dst`.
pub fn append_bytes(dst: &mut Vec<u8>, src: &[u8])
    ensures
        final(dst)@ == old(dst)@ + src@,
{
    let mut k: usize = 0;
    while k < src.len()
        invariant
            k <= src.len(),
            dst@ == old(dst)@ + src@.subrange(0, k as int),
        decreases src.len() - k,
    {
        dst.push(src[k]);
        k += 1;
    }
    assert(src@.subrange(0, src.len() as int) == src@);
}

/// Whether `word` stands somewhere in `s`.
pub fn has(s: &[u8], word: &[u8]) -> (r: bool)
    ensures
        r == contains(s@, word@),
{
    if word.len() == 0 {
        assert(occurs_at(s@, 0, word@));
        return true;
    }
    let at = find(s, 0, word);
    proof {
        lemma_first_occurrence(s@, 0, word@);
        if at == s.len() {
            assert forall|i: int| !occurs_at(s@, i, word@) by {
                if 0 <= i {
                    assert(!occurs_at(s@, i, word@));
                }
            }
        }
    }
    at < s.len()
}

/// Whether `s` ends with `word`.
pub fn ends(s: &[u8], word: &[u8]) -> (r: bool)
    ensures
        r == ends_with(s@, word@),
{
    if word.len() > s.len() {
        return false;
    }
    stands_at(s, s.len() - word.len(), word)
}

} // verus!
