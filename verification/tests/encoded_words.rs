use http_request::headers::encoded_words::{
    encoded_words, find_encoded_words, parse_encoded_words, EncodedWord, Point, Raw,
};

#[test]
fn test_find_encoded_words() {
    let expect = vec![Point { s: 0, e: 5 }, Point { s: 6, e: 11 }];
    assert_eq!(expect, find_encoded_words("=?a?= =?b?="));
}

#[test]
fn test_parse_encoded_words_1() {
    let value = "=?US-ASCII?Q?Keith_Moore?= <moore@cs.utk.edu>";
    let words_at = find_encoded_words(value);
    let word1 = EncodedWord {
        raw: Raw {
            charset: "US-ASCII".to_owned(),
            encoding: "Q".to_owned(),
            bytes: value[words_at[0].s..words_at[0].e].as_bytes().to_vec(),
        },
        value: "".to_owned(),
        error: "unsupported encoding Q".to_owned(),
    };
    let expect = vec![word1];

    assert_eq!(expect, parse_encoded_words(value, words_at));
}

#[test]
fn base64_word_is_decoded_in_its_charset() {
    let words = encoded_words("=?utf-8?B?aGVsbG8?=");
    assert_eq!(words.len(), 1);
    assert_eq!(words[0].raw.charset, "utf-8");
    assert_eq!(words[0].raw.encoding, "B");
    assert_eq!(words[0].raw.bytes, "=?utf-8?B?aGVsbG8?=".as_bytes().to_vec());
    assert_eq!(words[0].as_utf8(), "hello");
    assert_eq!(words[0].error, "");
}

#[test]
fn charset_decides_what_the_bytes_mean() {
    let words = encoded_words("Subject: =?iso-8859-1?B?6Q?= and more");
    assert_eq!(words.len(), 1);
    assert_eq!(words[0].value, "\u{e9}");
    assert_eq!(words[0].error, "");
}

#[test]
fn unknown_charset_is_an_error_of_the_word() {
    let words = encoded_words("=?nope?B?aGVsbG8?=");
    assert_eq!(words.len(), 1);
    assert_eq!(words[0].value, "");
    assert_eq!(words[0].error, "unsupported charset nope");
}

#[test]
fn bad_base64_is_an_error_of_the_word() {
    let words = encoded_words("=?utf-8?B?a?= =?utf-8?B?aGk?=");
    assert_eq!(words.len(), 2);
    assert_eq!(words[0].value, "");
    assert_ne!(words[0].error, "");
    assert_eq!(words[1].value, "hi");
    assert_eq!(words[1].error, "");
}

#[test]
fn stray_closing_marker_is_passed_over() {
    assert_eq!(find_encoded_words("?= x ?="), vec![]);
    assert_eq!(find_encoded_words("=?a?= ?="), vec![Point { s: 0, e: 5 }]);
}

#[test]
fn opening_without_closing_gives_no_run() {
    assert_eq!(find_encoded_words("=?utf-8?B?abc"), vec![]);
    assert_eq!(find_encoded_words(""), vec![]);
    assert_eq!(find_encoded_words("="), vec![]);
}

#[test]
fn nested_runs_close_inner_first() {
    let expect = vec![Point { s: 3, e: 8 }, Point { s: 0, e: 11 }];
    assert_eq!(find_encoded_words("=?x=?y?=z?="), expect);
}

#[test]
fn run_with_too_few_fields_has_empty_fields() {
    let words = encoded_words("=?a?=");
    assert_eq!(words.len(), 1);
    assert_eq!(words[0].raw.charset, "a");
    assert_eq!(words[0].raw.encoding, "=");
    assert_eq!(words[0].error, "unsupported encoding =");
}
