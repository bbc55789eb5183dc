use http_request::errors::Errors;
use http_request::headers::{Header, Headers};

#[test]
fn test_non_ascii() {
    let h = Header::new("foo: b√§r".as_bytes().to_vec());
    assert_eq!(Err(Errors::HeaderNonAsciiByteAt(6)), h);
}

#[test]
fn test_whitespace_header_key() {
    let h = Header::new("fo o: bar".as_bytes().to_vec());
    assert_eq!(Err(Errors::HeaderKeyWhitespace), h);
}

#[test]
fn test_empty_header_key() {
    let mut h = Headers { values: vec![] };
    let r = h.add("".to_owned(), "B".to_owned());
    assert_eq!(Err(Errors::HeaderIsEmpty), r);
}

#[test]
fn test_index_out_of_bounds() {
    let mut h = Headers { values: vec![] };
    assert_eq!(Err(Errors::HeaderIndexOutOfBounds), h.at(0));
    h.add("A".to_owned(), "B".to_owned()).unwrap();
    assert_eq!(Err(Errors::HeaderIndexOutOfBounds), h.at(1));
}

#[test]
fn header_is_key_colon_value() {
    let h = Header::new(b"Host:   example.org ".to_vec()).unwrap();
    assert_eq!(h.key, "Host");
    assert_eq!(h.value, "example.org ");
    assert_eq!(h.bytes, b"Host:   example.org ".to_vec());
    assert_eq!(h.to_string(), "Host: example.org ");
}

#[test]
fn blanks_are_dropped_before_the_value_only() {
    let h = Header::new(b"A: \t b\t ".to_vec()).unwrap();
    assert_eq!(h.value, "b\t ");
    let h = Header::new(b"A:\r b".to_vec()).unwrap();
    assert_eq!(h.value, "\r b");
    let h = Header::new(b"A:".to_vec()).unwrap();
    assert_eq!(h.key, "A");
    assert_eq!(h.value, "");
    let h = Header::new(b"A:   ".to_vec()).unwrap();
    assert_eq!(h.value, "");
    let h = Header::new(b"A:b:c d".to_vec()).unwrap();
    assert_eq!(h.key, "A");
    assert_eq!(h.value, "b:c d");
}

#[test]
fn line_without_colon_is_refused() {
    assert_eq!(Header::new(b"nocolon".to_vec()), Err(Errors::HeaderIsEmpty));
    assert_eq!(Header::new(b"".to_vec()), Err(Errors::HeaderIsEmpty));
    assert_eq!(Header::new(b":value".to_vec()), Err(Errors::HeaderIsEmpty));
}

#[test]
fn tab_before_colon_is_refused() {
    assert_eq!(Header::new(b"key\t: v".to_vec()), Err(Errors::HeaderKeyWhitespace));
    assert_eq!(Header::new(b" key: v".to_vec()), Err(Errors::HeaderKeyWhitespace));
}

#[test]
fn bytes_that_are_not_utf8_are_refused() {
    let r = Header::new(b"key: \xff".to_vec());
    assert!(matches!(r, Err(Errors::HeaderFromUtf8(_))));
}

#[test]
fn first_fault_from_the_left_decides() {
    assert_eq!(
        Header::new("k\u{e9}y : v".as_bytes().to_vec()),
        Err(Errors::HeaderNonAsciiByteAt(1))
    );
    assert_eq!(
        Header::new("k y\u{e9}: v".as_bytes().to_vec()),
        Err(Errors::HeaderKeyWhitespace)
    );
    assert_eq!(Header::new(": \u{e9}".as_bytes().to_vec()), Err(Errors::HeaderIsEmpty));
    assert_eq!(
        Header::new("key: a b \u{e9}\u{e9}".as_bytes().to_vec()),
        Err(Errors::HeaderNonAsciiByteAt(9))
    );
}

#[test]
fn set_replaces_in_place_or_leaves_the_set_alone() {
    let mut h = Headers::default();
    h.add("A".to_owned(), "1".to_owned()).unwrap();
    h.add("B".to_owned(), "2".to_owned()).unwrap();
    h.add("A".to_owned(), "3".to_owned()).unwrap();
    assert_eq!(h.len(), 3);

    assert_eq!(h.set(1, "C".to_owned(), "  4".to_owned()), Ok(()));
    assert_eq!(h.at(1).unwrap().to_string(), "C: 4");
    assert_eq!(h.at(1).unwrap().bytes, b"C:   4".to_vec());
    assert_eq!(h.at(0).unwrap().to_string(), "A: 1");
    assert_eq!(h.at(2).unwrap().to_string(), "A: 3");

    assert_eq!(h.set(3, "D".to_owned(), "5".to_owned()), Err(Errors::HeaderIndexOutOfBounds));
    assert_eq!(h.set(0, "D D".to_owned(), "5".to_owned()), Err(Errors::HeaderKeyWhitespace));
    assert_eq!(h.set(0, "D".to_owned(), "\u{e9}".to_owned()), Err(Errors::HeaderNonAsciiByteAt(3)));
    assert_eq!(h.set(0, "".to_owned(), "5".to_owned()), Err(Errors::HeaderIsEmpty));
    assert_eq!(h.len(), 3);
    assert_eq!(h.at(0).unwrap().to_string(), "A: 1");
}

#[test]
fn written_header_reads_back() {
    let h = Header::new(b"Key:    some value".to_vec()).unwrap();
    let again = Header::new(h.to_string().into_bytes()).unwrap();
    assert_eq!(again.key, h.key);
    assert_eq!(again.value, h.value);
    assert_eq!(again.bytes, b"Key: some value".to_vec());
}
