use minihttp::response::{mime_from_extension, mime_from_path, Builder, Header, Response, Status};

fn find(hay: &[u8], needle: &[u8]) -> usize {
    hay.windows(needle.len()).filter(|w| *w == needle).count()
}

#[test]
fn ok_body_gets_its_length() {
    let bytes = Builder::with_status(Status::Okay).set_body(b"abc".to_vec()).build().try_into_bytes();
    assert!(bytes.starts_with(b"HTTP/1.1 200 Ok"));
    assert_eq!(find(&bytes, b"Content-Length: 3"), 1);
    assert!(bytes.ends_with(b"\r\n\r\nabc"));
    assert_eq!(bytes, b"HTTP/1.1 200 Ok\r\nContent-Length: 3\r\n\r\nabc".to_vec());
}

#[test]
fn given_length_is_not_doubled() {
    let bytes = Builder::with_status(Status::Okay)
        .add_header("content-length", "3")
        .set_body(b"abc".to_vec())
        .build()
        .try_into_bytes();
    assert_eq!(bytes, b"HTTP/1.1 200 Ok\r\ncontent-length: 3\r\n\r\nabc".to_vec());
    let upper = Builder::with_status(Status::Okay)
        .add_header("CONTENT-LENGTH", "7")
        .build()
        .try_into_bytes();
    assert_eq!(upper, b"HTTP/1.1 200 Ok\r\nCONTENT-LENGTH: 7\r\n\r\n".to_vec());
}

#[test]
fn headers_keep_their_order() {
    let bytes = Builder::with_status(Status::NotFound)
        .add_header("Content-Type", "text/plain")
        .add_header("X-A", "b")
        .set_body(b"404 Not Found".to_vec())
        .build()
        .try_into_bytes();
    assert_eq!(
        bytes,
        b"HTTP/1.1 404 Not Found\r\nContent-Type: text/plain\r\nX-A: b\r\nContent-Length: 13\r\n\r\n404 Not Found"
            .to_vec()
    );
}

#[test]
fn empty_body_has_length_zero() {
    let bytes = Response::text(Status::NotFound, "").try_into_bytes();
    assert_eq!(bytes, b"HTTP/1.1 404 Not Found\r\nContent-Length: 0\r\n\r\n".to_vec());
}

#[test]
fn long_body_length_in_decimal() {
    let body = vec![b'x'; 12345];
    let bytes = Builder::with_status(Status::Okay).set_body(body).build().try_into_bytes();
    assert_eq!(find(&bytes, b"Content-Length: 12345\r\n\r\n"), 1);
    assert_eq!(bytes.len(), "HTTP/1.1 200 Ok\r\nContent-Length: 12345\r\n\r\n".len() + 12345);
}

#[test]
fn text_response() {
    let r = Response::text(Status::BadRequest, "400 Bad Request");
    assert_eq!(r.status, Status::BadRequest);
    assert!(r.headers.is_empty());
    assert_eq!(r.body, b"400 Bad Request".to_vec());
    assert_eq!(
        r.try_into_bytes(),
        b"HTTP/1.1 400 Bad Request\r\nContent-Length: 15\r\n\r\n400 Bad Request".to_vec()
    );
}

#[test]
fn header_lookup_ignores_case() {
    let r = Response { status: Status::Okay, headers: vec![Header("Content-Type", b"text/html".to_vec())], body: vec![] };
    assert!(r.contains_header("content-type"));
    assert!(r.contains_header("CONTENT-TYPE"));
    assert!(!r.contains_header("Content-Length"));
    assert!(!r.contains_header("Content-Typ"));
}

#[test]
fn basic_headers_added_once() {
    let mut r = Response::text(Status::Okay, "hello");
    r.add_basic_headers();
    r.add_basic_headers();
    assert_eq!(r.headers.len(), 1);
    assert_eq!(r.headers[0].0, "Content-Length");
    assert_eq!(r.headers[0].1, b"5".to_vec());
}

#[test]
fn size_matches_bytes() {
    let mut r = Builder::with_status(Status::SeeOther)
        .add_header("Location", "/x")
        .set_body(b"moved".to_vec())
        .build();
    r.add_basic_headers();
    let size = r.calculate_size();
    assert_eq!(r.collect_headers(), b"\r\nLocation: /x\r\nContent-Length: 5".to_vec());
    assert_eq!(size, r.try_into_bytes().len());
}

#[test]
fn status_lines() {
    assert_eq!(Status::Okay.as_str(), "200 Ok");
    assert_eq!(Status::MovedPermanently.as_str(), "301 Moved Permanently");
    assert_eq!(Status::Found.as_str(), "302 Found");
    assert_eq!(Status::SeeOther.as_str(), "303 See Other");
    assert_eq!(Status::TemporaryRedirect.as_str(), "307 Temporary Redirect");
    assert_eq!(Status::PermanentRedirect.as_str(), "308 Permanent Redirect");
    assert_eq!(Status::BadRequest.as_str(), "400 Bad Request");
    assert_eq!(Status::Unauthorized.as_str(), "401 Unauthorized");
    assert_eq!(Status::Forbidden.as_str(), "403 Forbidden");
    assert_eq!(Status::NotFound.as_str(), "404 Not Found");
    assert_eq!(Status::MethodNotAllowed.as_str(), "405 Method Not Allowed");
    assert_eq!(Status::TooManyRequests.as_str(), "429 Too Many Requests");
    assert_eq!(Status::InternalServerError.as_str(), "500 Internal Server Error");
    assert_eq!(Status::ServiceUnavailable.as_str(), "503 Service Unavailable");
}

#[test]
fn mime_types_by_extension() {
    assert_eq!(mime_from_extension("html"), Some("text/html"));
    assert_eq!(mime_from_extension("htm"), Some("text/html"));
    assert_eq!(mime_from_extension("woff2"), Some("font/woff2"));
    assert_eq!(mime_from_extension("jpeg"), Some("image/jpeg"));
    assert_eq!(mime_from_extension("HTML"), None);
    assert_eq!(mime_from_extension(""), None);
}

#[test]
fn mime_types_by_path() {
    assert_eq!(mime_from_path("www/index.html"), Some("text/html"));
    assert_eq!(mime_from_path("/srv/app.min.js"), Some("text/javascript"));
    assert_eq!(mime_from_path("style.css"), Some("text/css"));
    assert_eq!(mime_from_path("archive.tar.gz"), None);
    assert_eq!(mime_from_path(".bashrc"), None);
    assert_eq!(mime_from_path("README"), None);
    assert_eq!(mime_from_path("dir.png/"), Some("image/png"));
}

#[test]
fn header_lookup_uses_unicode_lowercase() {
    let r = Response { status: Status::Okay, headers: vec![Header("\u{212A}", b"v".to_vec())], body: vec![] };
    assert!(r.contains_header("k"));
    assert!(r.contains_header("K"));
    let s = Response { status: Status::Okay, headers: vec![Header("\u{c9}tag", b"v".to_vec())], body: vec![] };
    assert!(s.contains_header("\u{e9}TAG"));
    assert!(!s.contains_header("etag"));
}

#[test]
fn same_header_twice_is_replaced() {
    let r = Builder::with_status(Status::Okay)
        .add_header("X-A", "1")
        .add_header("Content-Type", "text/plain")
        .add_header("x-a", "2")
        .build();
    assert_eq!(r.headers.len(), 2);
    assert_eq!(r.headers[0].0, "x-a");
    assert_eq!(r.headers[0].1, b"2".to_vec());
    assert_eq!(r.headers[1].0, "Content-Type");
    assert_eq!(
        r.try_into_bytes(),
        b"HTTP/1.1 200 Ok\r\nx-a: 2\r\nContent-Type: text/plain\r\nContent-Length: 0\r\n\r\n".to_vec()
    );
}

#[test]
fn builder_length_header_replaced_not_doubled() {
    let bytes = Builder::with_status(Status::Okay)
        .add_header("Content-Length", "9")
        .add_header("CONTENT-LENGTH", "3")
        .set_body(b"abc".to_vec())
        .build()
        .try_into_bytes();
    assert_eq!(bytes, b"HTTP/1.1 200 Ok\r\nCONTENT-LENGTH: 3\r\n\r\nabc".to_vec());
}
