use http_request::errors::Errors;
use http_request::{Chunked, ContentLength, HeadersEnd, Request};

fn feed(r: &mut Request, text: &str) -> bool {
    let mut data = text.as_bytes().to_vec();
    let ok = r.update_raw(&mut data).is_ok();
    assert!(data.is_empty());
    ok
}

fn lines(r: &Request) -> Vec<String> {
    r.headers.values.iter().map(|h| h.to_string()).collect()
}

#[test]
fn byte_by_byte_gives_what_one_piece_gives() {
    let message = "POST /a HTTP/1.1\r\nHost: x\r\nFolded: one\r\n two\r\nContent-Length: 3\r\n\r\nabc";
    let mut whole = Request::default();
    assert!(feed(&mut whole, message));

    let mut pieces = Request::default();
    for b in message.as_bytes() {
        let mut one = vec![*b];
        assert_eq!(pieces.update_raw(&mut one), Ok(()));
    }

    assert_eq!(pieces.request_line, whole.request_line);
    assert_eq!(pieces.request_line, "POST /a HTTP/1.1");
    assert_eq!(lines(&pieces), lines(&whole));
    assert_eq!(lines(&pieces), vec!["Host: x", "Folded: onetwo", "Content-Length: 3"]);
    assert_eq!(pieces.headers_end, whole.headers_end);
    assert_eq!(pieces.headers_end, HeadersEnd::FoundAt(63));
    assert_eq!(pieces.raw, whole.raw);
    assert_eq!(pieces.content_length, ContentLength::Value(3));
    assert_eq!(whole.content_length, ContentLength::Value(3));
    assert_eq!(pieces.is_chunked, whole.is_chunked);
    assert_eq!(pieces.body(), whole.body());
    assert_eq!(pieces.body(), b"abc".to_vec());
    assert_eq!(pieces.dump(), whole.dump());
}

#[test]
fn every_cut_in_two_gives_the_same_request() {
    let message = "GET / HTTP/1.1\r\nA: b\r\nTransfer-Encoding: gzip, chunked\r\n\r\nrest";
    let mut whole = Request::default();
    assert!(feed(&mut whole, message));
    for cut in 0..=message.len() {
        let mut r = Request::default();
        assert!(feed(&mut r, &message[..cut]));
        assert!(feed(&mut r, &message[cut..]));
        assert_eq!(r.headers_end, whole.headers_end);
        assert_eq!(lines(&r), lines(&whole));
        assert_eq!(r.request_line, whole.request_line);
        assert_eq!(r.is_chunked, Chunked::Processing);
        assert_eq!(r.content_length, ContentLength::Unset);
        assert_eq!(r.raw, whole.raw);
        assert_eq!(r.body(), b"rest".to_vec());
    }
}

#[test]
fn terminator_split_over_two_feeds_is_found() {
    let mut r = Request::default();
    assert!(feed(&mut r, "GET / HTTP/1.1\r\nA: b\r"));
    assert_eq!(r.headers_end, HeadersEnd::Scanning(17));
    assert!(feed(&mut r, "\n\r\n"));
    assert_eq!(r.headers_end, HeadersEnd::FoundAt(20));
    assert_eq!(lines(&r), vec!["A: b"]);
}

#[test]
fn search_backs_up_four_bytes_and_never_below_zero() {
    let mut r = Request::default();
    assert!(feed(&mut r, ""));
    assert_eq!(r.headers_end, HeadersEnd::Scanning(0));
    assert!(feed(&mut r, "abc"));
    assert_eq!(r.headers_end, HeadersEnd::Scanning(0));
    assert!(feed(&mut r, "defghij"));
    assert_eq!(r.headers_end, HeadersEnd::Scanning(6));
    assert!(feed(&mut r, ""));
    assert_eq!(r.headers_end, HeadersEnd::Scanning(6));
    assert_eq!(r.body(), Vec::<u8>::new());
    assert_eq!(r.body_complete(), false);
    assert_eq!(r.dump(), Vec::<u8>::new());
}

#[test]
fn first_terminator_ends_the_headers() {
    let mut r = Request::default();
    assert!(feed(&mut r, "GET /\r\nA: b\r\n\r\nx\r\n\r\ny"));
    assert_eq!(r.headers_end, HeadersEnd::FoundAt(11));
    assert_eq!(r.body(), b"x\r\n\r\ny".to_vec());
    assert!(feed(&mut r, "z"));
    assert_eq!(r.headers_end, HeadersEnd::FoundAt(11));
    assert_eq!(lines(&r), vec!["A: b"]);
    assert_eq!(r.body(), b"x\r\n\r\nyz".to_vec());
}

#[test]
fn bare_line_feed_does_not_end_a_line() {
    let mut r = Request::default();
    assert!(feed(&mut r, "GET /\r\nA: b\nC: d\r\n\r\n"));
    assert_eq!(r.headers.values.len(), 1);
    assert_eq!(r.headers.values[0].key, "A");
    assert_eq!(r.headers.values[0].value, "b\nC: d");
}

#[test]
fn request_without_headers() {
    let mut r = Request::default();
    assert!(feed(&mut r, "GET / HTTP/1.1\r\n\r\n"));
    assert_eq!(r.request_line, "GET / HTTP/1.1");
    assert_eq!(r.headers.len(), 0);
    assert_eq!(r.body_complete(), true);
    assert_eq!(r.dump(), b"GET / HTTP/1.1\r\n\r\n\r\n".to_vec());
}

#[test]
fn fold_of_blanks_only_adds_nothing() {
    let mut r = Request::default();
    assert!(feed(&mut r, "GET /\r\nA: b\r\n \t \r\nC: d\r\n  \r\n\r\n"));
    assert_eq!(lines(&r), vec!["A: b", "C: d"]);
    assert_eq!(r.headers.values[0].bytes, b"A: b".to_vec());
}

#[test]
fn both_framings_fail_in_either_order_and_stay_unusable() {
    let mutual = Errors::Header("Transfer-Encoding and Content-Length headers are mutually exclusive");
    let mut r = Request::default();
    let res = r.update_raw(
        &mut b"GET / HTTP/1.1\r\nTransfer-Encoding: chunked\r\nContent-Length: 0\r\n\r\n".to_vec(),
    );
    assert_eq!(res, Err(mutual.clone()));
    assert_eq!(r.body_complete(), false);
    assert_eq!(r.dump(), Vec::<u8>::new());
    assert_eq!(r.headers.len(), 0);
    assert_eq!(r.update_raw(&mut b"more".to_vec()), Ok(()));
    assert_eq!(r.body_complete(), false);
    assert_eq!(r.dump(), Vec::<u8>::new());

    let mut r = Request::default();
    let res = r.update_raw(
        &mut b"GET / HTTP/1.1\r\nContent-Length: 0\r\nTransfer-Encoding: chunked\r\n\r\n".to_vec(),
    );
    assert_eq!(res, Err(mutual));
    assert_eq!(r.content_length, ContentLength::Value(0));
    assert_eq!(r.is_chunked, Chunked::Processing);
    assert_eq!(r.body_complete(), false);
    assert_eq!(r.dump(), Vec::<u8>::new());
}

#[test]
fn chunked_framing_never_completes() {
    let mut r = Request::default();
    assert!(feed(&mut r, "POST / HTTP/1.1\r\ntransfer-encoding: gzip, Chunked\r\n\r\n0\r\n\r\n"));
    assert_eq!(r.is_chunked, Chunked::Processing);
    assert_eq!(r.body_complete(), false);
    assert_eq!(r.dump(), Vec::<u8>::new());
}

#[test]
fn other_codings_leave_framing_alone() {
    let mut r = Request::default();
    assert!(feed(&mut r, "POST / HTTP/1.1\r\nTransfer-Encoding: gzip\r\n\r\n"));
    assert_eq!(r.is_chunked, Chunked::Unset);
    assert_eq!(r.body_complete(), true);
}

#[test]
fn second_chunked_header_is_refused() {
    let mut r = Request::default();
    let res = r.update_raw(
        &mut b"GET /\r\nTransfer-Encoding: chunked\r\nTransfer-Encoding: chunked\r\n\r\n".to_vec(),
    );
    assert_eq!(res, Err(Errors::Header("Transfer-Encoding must appear only once")));
}

#[test]
fn second_content_length_is_refused() {
    let mut r = Request::default();
    let res = r.update_raw(
        &mut b"GET /\r\nContent-Length: 1\r\ncontent-length: 1\r\n\r\nx".to_vec(),
    );
    assert_eq!(res, Err(Errors::Header("Content-Length header must appear only once")));
    assert_eq!(r.content_length, ContentLength::Value(1));
    assert_eq!(r.headers.len(), 0);
}

#[test]
fn content_length_value_is_trimmed_decimal() {
    let mut r = Request::default();
    assert!(feed(&mut r, "GET /\r\nCONTENT-LENGTH:   +12 \t\r\n\r\n"));
    assert_eq!(r.content_length, ContentLength::Value(12));
    assert_eq!(r.body_complete(), false);

    for bad in ["abc", "", "1 2", "-1", "1_0", "0x10", "+", "99999999999999999999999999999999999999999"] {
        let mut r = Request::default();
        let text = format!("GET /\r\nContent-Length: {}\r\n\r\n", bad);
        let res = r.update_raw(&mut text.as_bytes().to_vec());
        assert!(matches!(res, Err(Errors::ContentLength(_))), "{:?}", bad);
        assert_eq!(r.content_length, ContentLength::Unset);
    }
}

#[test]
fn request_line_must_be_utf8() {
    let mut r = Request::default();
    let res = r.update_raw(&mut b"GET /\xff\r\nA: b\r\n\r\n".to_vec());
    assert!(matches!(res, Err(Errors::Parse(_))));
    assert_eq!(r.request_line, "");
    assert_eq!(r.headers.len(), 0);
    assert_eq!(r.headers_end, HeadersEnd::FoundAt(12));
}

#[test]
fn bad_header_stops_the_parse_and_no_header_is_kept() {
    let mut r = Request::default();
    let res = r.update_raw(&mut b"GET /\r\nA: b\r\nno colon\r\nC: d\r\n\r\n".to_vec());
    assert_eq!(res, Err(Errors::HeaderKeyWhitespace));
    assert_eq!(r.headers.len(), 0);
    assert_eq!(r.request_line, "GET /");

    let mut r = Request::default();
    let res = r.update_raw(&mut b"GET /\r\nA: b\r\nnocolon\r\n\r\n".to_vec());
    assert_eq!(res, Err(Errors::HeaderIsEmpty));
    assert_eq!(r.headers.len(), 0);
}

#[test]
fn headers_cannot_be_filled_before_their_end_is_found() {
    let mut r = Request::default();
    assert_eq!(r.parse_and_fill_headers(), Err(Errors::CannotFillHeaders));
    assert!(feed(&mut r, "GET /\r\nA: b\r\n"));
    assert_eq!(r.parse_and_fill_headers(), Err(Errors::CannotFillHeaders));
    r.headers_end = HeadersEnd::FoundAt(1000);
    assert_eq!(r.parse_and_fill_headers(), Err(Errors::CannotFillHeaders));
    assert_eq!(r.body(), Vec::<u8>::new());
}

#[test]
fn found_headers_are_not_searched_again() {
    let mut r = Request::default();
    assert!(feed(&mut r, "GET /\r\nA: b\r\n\r\n"));
    assert_eq!(r.attempt_header_parsing(0), Ok(()));
    assert_eq!(r.headers.len(), 1);
    assert_eq!(r.headers_end, HeadersEnd::FoundAt(11));
}

#[test]
fn dump_is_empty_until_the_body_is_complete() {
    let mut r = Request::default();
    assert!(feed(&mut r, "PUT /x HTTP/1.1\r\nContent-Length: 2\r\n\r\n"));
    assert_eq!(r.dump(), Vec::<u8>::new());
    assert!(feed(&mut r, "o"));
    assert_eq!(r.dump(), Vec::<u8>::new());
    assert!(feed(&mut r, "k"));
    assert_eq!(r.dump(), b"PUT /x HTTP/1.1\r\nContent-Length: 2\r\n\r\nok".to_vec());
    assert!(feed(&mut r, "!"));
    assert_eq!(r.body_complete(), false);
    assert_eq!(r.dump(), Vec::<u8>::new());
}
