use http_request::errors::Errors;
use http_request::{ContentLength, Request};

#[test]
fn test_content_length() {
    let mut r = Request::default();
    let res = r.update_raw(
        &mut "POST / HTTP/1.1\r\nContent-Length: 4\r\nHere: here\r\n\r\nBODY"
            .as_bytes()
            .to_vec(),
    );
    assert_eq!(res, Ok(()));
    assert_eq!(r.headers.values[0].to_string(), "Content-Length: 4");
    assert_eq!(r.headers.values[1].to_string(), "Here: here");
    assert_eq!(r.headers.values.len(), 2);
    assert_eq!(r.content_length, ContentLength::Value(4));
    assert_eq!(r.body(), vec![b'B', b'O', b'D', b'Y']);
    assert_eq!(r.body_complete(), true);
}

#[test]
fn test_body_incomplete() {
    let mut r = Request::default();
    let res = r.update_raw(
        &mut "POST / HTTP/1.1\r\nContent-Length: 5\r\nHere: here\r\n\r\nBODY"
            .as_bytes()
            .to_vec(),
    );
    assert_eq!(res, Ok(()));
    assert_eq!(r.headers.values[0].to_string(), "Content-Length: 5");
    assert_eq!(r.headers.values[1].to_string(), "Here: here");
    assert_eq!(r.headers.values.len(), 2);
    assert_eq!(r.content_length, ContentLength::Value(5));
    assert_eq!(r.body_complete(), false);

    let res = r.update_raw(&mut "S".as_bytes().to_vec());
    assert_eq!(res, Ok(()));
    assert_eq!(r.body_complete(), true);
}

#[test]
fn test_content_length_zero() {
    let mut r = Request::default();
    let res = r.update_raw(&mut "GET / HTTP/1.1\r\nHere: here\r\n".as_bytes().to_vec());
    assert_eq!(res, Ok(()));
    assert_eq!(r.body_complete(), false);

    let res = r.update_raw(&mut "More: more\r\nFinal: final\r\n\r\n".as_bytes().to_vec());
    assert_eq!(res, Ok(()));
    assert_eq!(r.headers.values[0].to_string(), "Here: here");
    assert_eq!(r.headers.values[1].to_string(), "More: more");
    assert_eq!(r.headers.values[2].to_string(), "Final: final");
    assert_eq!(r.headers.values.len(), 3);
    assert_eq!(r.content_length, ContentLength::Unset);
    assert_eq!(r.body_complete(), true);
}

#[test]
fn test_multi_line_header() {
    let mut r = Request::default();
    let res = r.update_raw(
        &mut "GET / HTTP/1.1\r\nFirst: wrapp\r\n   ing\r\n\ttest\r\nSecond: wrapp\r\n    ing\r\n\ttest\r\n\r\n"
            .as_bytes()
            .to_vec(),
    );
    assert_eq!(res, Ok(()));
    assert_eq!(r.headers.values[0].to_string(), "First: wrappingtest");
    assert_eq!(r.headers.values[1].to_string(), "Second: wrappingtest");
    assert_eq!(r.body_complete(), true);
}

#[test]
fn test_bad_chunked_header() {
    let mut r = Request::default();
    let res = r.update_raw(
        &mut "GET / HTTP/1.1\r\nTransfer-Encoding: chunked, gzip\r\n\r\n"
            .as_bytes()
            .to_vec(),
    );
    assert_eq!(
        res,
        Err(Errors::Header(
            "chunked must appear at the very end of the Transfer-Encoding header value",
        ))
    );
}

#[test]
fn test_mutually_exclusive() {
    let mut r = Request::default();
    let res = r.update_raw(
        &mut "GET / HTTP/1.1\r\nContent-Length: 10\r\nTransfer-Encoding: chunked\r\n\r\n"
            .as_bytes()
            .to_vec(),
    );
    assert_eq!(
        res,
        Err(Errors::Header(
            "Transfer-Encoding and Content-Length headers are mutually exclusive",
        ))
    );
}

#[test]
fn test_body() {
    let mut r = Request::default();

    let res = r.update_raw(&mut "POST TEST\r".as_bytes().to_vec());
    assert_eq!(res, Ok(()));
    let res = r.update_raw(&mut "\nContent-L".as_bytes().to_vec());
    assert_eq!(res, Ok(()));
    let res = r.update_raw(&mut "ength: 4\r\n".as_bytes().to_vec());
    assert_eq!(res, Ok(()));
    let res = r.update_raw(&mut "\r\nBODY".as_bytes().to_vec());
    assert_eq!(res, Ok(()));

    assert_eq!(r.headers.values[0].to_string(), "Content-Length: 4");
    assert_eq!(r.body_complete(), true);
}

#[test]
fn test_post_edit_dump() {
    let mut r = Request::default();
    let res = r.update_raw(
        &mut "GET / HTTP/1.1\r\nWrapping: pre\r\n -\r\n\tupdate\r\nAnother: header\r\nContent-Length: 7\r\n\r\nTHE END"
            .as_bytes()
            .to_vec(),
    );
    assert_eq!(res, Ok(()));
    assert_eq!(r.headers.values[0].to_string(), "Wrapping: pre-update");
    assert_eq!(r.headers.values[1].to_string(), "Another: header");
    assert_eq!(r.headers.values[2].to_string(), "Content-Length: 7");
    assert_eq!(r.body_complete(), true);

    let res = match String::from_utf8(r.dump()) {
        Ok(s) => s,
        Err(e) => panic!("{}", e),
    };
    assert_eq!(
        res,
        "GET / HTTP/1.1\r\nWrapping: pre-update\r\nAnother: header\r\nContent-Length: 7\r\n\r\nTHE END"
    );

    r.headers
        .set(0, "Wrap".to_string(), "post-update".to_string())
        .unwrap();
    assert_eq!(r.headers.values[0].to_string(), "Wrap: post-update");

    let res = match String::from_utf8(r.dump()) {
        Ok(s) => s,
        Err(e) => panic!("{}", e),
    };
    assert_eq!(
        res,
        "GET / HTTP/1.1\r\nWrap: post-update\r\nAnother: header\r\nContent-Length: 7\r\n\r\nTHE END"
    );
}
