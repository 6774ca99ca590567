//! Requests as they come in, and what answers start with.

use bulbbeat::http::{
    find, parse_head, response_head, Progress, Request, RequestError, RequestReader, MAX_BODY,
};
use bulbbeat::text::{append_decimal, parse_size};

fn read_all(chunks: &[&[u8]]) -> Progress {
    let mut reader = RequestReader::new();
    let mut last = Progress::More;
    for chunk in chunks {
        last = reader.feed(chunk);
        if !matches!(last, Progress::More) {
            return last;
        }
    }
    last
}

fn done(progress: Progress) -> Request {
    match progress {
        Progress::Done(request) => request,
        other => panic!("not done: {other:?}"),
    }
}

fn failed(progress: Progress) -> RequestError {
    match progress {
        Progress::Failed(error) => error,
        other => panic!("not failed: {other:?}"),
    }
}

#[test]
fn the_first_occurrence_is_found() {
    assert_eq!(find(b"abcabc", b"ca"), Some(2));
    assert_eq!(find(b"aaa", b"aa"), Some(0));
    assert_eq!(find(b"ab", b"abc"), None);
    assert_eq!(find(b"", b"a"), None);
    assert_eq!(find(b"x\r\n\r\ny", b"\r\n\r\n"), Some(1));
}

#[test]
fn a_request_without_a_body() {
    let request = done(read_all(&[b"GET /api/files?x=1 HTTP/1.1\r\nHost: a\r\n\r\n"]));
    assert_eq!(request.method, "GET");
    assert_eq!(request.path, "/api/files");
    assert_eq!(request.body, b"");
}

#[test]
fn a_request_with_a_body() {
    let bytes = b"POST /api/play HTTP/1.1\r\nA: b\r\ncontent-LENGTH :  4 \r\n\r\nbodyrest";
    let request = done(read_all(&[bytes]));
    assert_eq!(request.method, "POST");
    assert_eq!(request.path, "/api/play");
    assert_eq!(request.body, b"body");
}

#[test]
fn how_a_request_is_cut_does_not_matter() {
    let bytes = b"POST /p HTTP/1.1\r\nContent-Length: 3\r\n\r\nabc";
    for cut in 0..bytes.len() {
        let request = done(read_all(&[&bytes[..cut], &bytes[cut..]]));
        assert_eq!(request.method, "POST");
        assert_eq!(request.path, "/p");
        assert_eq!(request.body, b"abc");
    }
}

#[test]
fn an_incomplete_request_asks_for_more() {
    assert!(matches!(read_all(&[b"GET / HTTP/1.1\r\n"]), Progress::More));
    assert!(matches!(
        read_all(&[b"GET / HTTP/1.1\r\nContent-Length: 9\r\n\r\nabc"]),
        Progress::More
    ));
}

#[test]
fn the_first_length_that_is_a_number_counts() {
    let head = "POST / HTTP/1.1\r\nContent-Length: many\r\nContent-Length: 2\r\nContent-Length: 7";
    assert_eq!(parse_head(head).unwrap().length, 2);
    assert_eq!(parse_head("GET /").unwrap().length, 0);
    assert_eq!(parse_head("GET / HTTP/1.1\r\nContent-Length: +5").unwrap().length, 5);
}

#[test]
fn heads_need_a_method_and_a_path() {
    assert!(matches!(parse_head(""), Err(RequestError::NoMethod)));
    assert!(matches!(parse_head("  \r\nGET /"), Err(RequestError::NoMethod)));
    assert!(matches!(parse_head("GET"), Err(RequestError::NoPath)));
    let head = parse_head(" GET\t/a?b?c ").unwrap();
    assert_eq!(head.method, "GET");
    assert_eq!(head.path, "/a");
    assert_eq!(parse_head("GET ?a").unwrap().path, "");
}

#[test]
fn requests_have_limits() {
    let mut reader = RequestReader::new();
    assert!(matches!(reader.feed(&vec![b'a'; MAX_BODY]), Progress::More));
    assert_eq!(failed(reader.feed(b"a")), RequestError::RequestTooLarge);

    let head = format!("POST / HTTP/1.1\r\nContent-Length: {}\r\n\r\n", MAX_BODY + 1);
    assert_eq!(failed(read_all(&[head.as_bytes()])), RequestError::BodyTooLarge);

    let head = format!("POST / HTTP/1.1\r\nContent-Length: {MAX_BODY}\r\n\r\n");
    let body = vec![7u8; MAX_BODY];
    let request = done(read_all(&[head.as_bytes(), &body]));
    assert_eq!(request.body, body);
}

#[test]
fn a_failed_request_stays_failed() {
    let head = format!("POST / HTTP/1.1\r\nContent-Length: {}\r\n\r\n", MAX_BODY + 1);
    for (bytes, error) in [
        (head.as_bytes(), RequestError::BodyTooLarge),
        (b"\r\n\r\n".as_slice(), RequestError::NoMethod),
        (b"GET\r\n\r\n".as_slice(), RequestError::NoPath),
    ] {
        assert_eq!(failed(read_all(&[bytes])), error);
        let longer = [bytes, b"GET / HTTP/1.1\r\n\r\n".as_slice()].concat();
        assert_eq!(failed(read_all(&[&longer])), error);
    }
}

#[test]
fn a_client_may_close_too_early() {
    let mut reader = RequestReader::new();
    assert_eq!(reader.closed(), RequestError::ClosedBeforeHead);
    assert!(matches!(reader.feed(b"POST / HTTP/1.1\r\nContent-Length: 3\r\n\r\na"), Progress::More));
    assert_eq!(reader.closed(), RequestError::ClosedInBody);
}

#[test]
fn text_that_is_not_utf8_is_replaced() {
    let request = done(read_all(&[b"GET /\xff HTTP/1.1\r\n\r\n"]));
    assert_eq!(request.path, "/\u{fffd}");
    let request = done(read_all(&["GET /é HTTP/1.1\r\n\r\n".as_bytes()]));
    assert_eq!(request.path, "/é");
}

#[test]
fn request_errors_in_words() {
    assert_eq!(RequestError::ClosedBeforeHead.message(), "client closed before request headers");
    assert_eq!(RequestError::RequestTooLarge.message(), "request too large");
    assert_eq!(RequestError::NoMethod.message(), "no method");
    assert_eq!(RequestError::NoPath.message(), "no path");
    assert_eq!(RequestError::BodyTooLarge.message(), "body too large");
    assert_eq!(RequestError::ClosedInBody.message(), "client closed inside body");
}

#[test]
fn answers_start_with_a_head() {
    assert_eq!(
        response_head(200, "text/plain", 12),
        "HTTP/1.1 200 OK\r\nContent-Type: text/plain\r\nContent-Length: 12\r\nConnection: close\r\n\r\n"
    );
    for (status, reason) in [
        (400, "Bad Request"),
        (404, "Not Found"),
        (405, "Method Not Allowed"),
        (500, "Internal Server Error"),
        (418, "Error"),
    ] {
        let head = response_head(status, "a", 0);
        assert!(head.starts_with(&format!("HTTP/1.1 {status} {reason}\r\n")));
        assert_eq!(find(head.as_bytes(), b"\r\n\r\n"), Some(head.len() - 4));
    }
}

#[test]
fn sizes_are_written_and_read_back() {
    for n in [0usize, 7, 10, 65_536, usize::MAX] {
        let mut written = String::from("n=");
        append_decimal(&mut written, n as u64);
        assert_eq!(written, format!("n={n}"));
        let digits: Vec<char> = written.chars().skip(2).collect();
        assert_eq!(parse_size(&digits), Some(n));
    }
}

#[test]
fn sizes_are_digits_that_fit() {
    let size = |s: &str| parse_size(&s.chars().collect::<Vec<char>>());
    assert_eq!(size("007"), Some(7));
    assert_eq!(size("+7"), Some(7));
    assert_eq!(size(""), None);
    assert_eq!(size("+"), None);
    assert_eq!(size("-1"), None);
    assert_eq!(size("1a"), None);
    assert_eq!(size("18446744073709551616"), None);
}
