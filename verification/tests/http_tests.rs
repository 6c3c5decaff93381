use net_test3::http::{parse_header, parse_request_text, Request, Response, StatusCode};
use net_test3::url_text::UrlParseError;

#[test]
fn parses_request_line_and_headers() {
    let req = parse_header(
        b"GET /index.html HTTP/1.1\r\nHost: localhost:8989\r\nUser-Agent: curl\r\n\r\n",
    )
    .expect("a request");
    assert_eq!(req.method(), "GET");
    assert_eq!(req.uri(), "/index.html");
    assert_eq!(req.http_version(), "HTTP/1.1");
    assert_eq!(req.header("host"), Some("localhost:8989"));
    assert_eq!(req.header("user-agent"), Some("curl"));
    assert_eq!(req.header("Host"), None);
    assert_eq!(req.header("accept"), None);
}

#[test]
fn empty_message_is_the_empty_request() {
    let req = parse_header(b"").expect("the empty request");
    assert_eq!(req.method(), "");
    assert_eq!(req.uri(), "");
    assert_eq!(req.http_version(), "");
    assert_eq!(req.header("host"), None);
}

#[test]
fn request_line_needs_exactly_three_parts() {
    assert!(parse_header(b"GET /\r\n\r\n").is_none());
    assert!(parse_header(b"GET / HTTP/1.1 extra\r\n\r\n").is_none());
    assert!(parse_header(b"GET  / HTTP/1.1\r\n").is_none());
    assert!(parse_header(b"\r\nHost: x\r\n").is_none());
    assert!(parse_header(b"GET / HTTP/1.1").is_some());
}

#[test]
fn header_names_are_trimmed_and_lower_cased() {
    let req = parse_header(b"GET / HTTP/1.0\r\n  Content-TYPE \t:  text/html ; q=1 \r\n").unwrap();
    assert_eq!(req.header("content-type"), Some("text/html ; q=1"));
}

#[test]
fn header_value_keeps_later_colons() {
    let req = parse_header(b"GET / HTTP/1.1\r\nHost: example.com:8080\r\n").unwrap();
    assert_eq!(req.header("host"), Some("example.com:8080"));
}

#[test]
fn lines_without_colon_set_nothing_and_later_lines_win() {
    let req = parse_header(b"GET / HTTP/1.1\r\nNoColonHere\r\nX: 1\r\nx: 2\r\n\r\nbody: yes\r\n").unwrap();
    assert_eq!(req.header("x"), Some("2"));
    assert_eq!(req.header("nocolonhere"), None);
    // every later line with a colon sets a header, the body's lines too
    assert_eq!(req.header("body"), Some("yes"));
}

#[test]
fn bare_line_feeds_end_lines_and_lone_cr_stays() {
    let req = parse_header(b"POST /a HTTP/1.1\nA: b\n").unwrap();
    assert_eq!(req.method(), "POST");
    assert_eq!(req.header("a"), Some("b"));
    let req = parse_header(b"GET / HTTP/1.1\r").unwrap();
    assert_eq!(req.http_version(), "HTTP/1.1\r");
}

#[test]
fn invalid_utf8_is_replaced() {
    let req = parse_header(b"GET /\xff HTTP/1.1\r\n").unwrap();
    assert_eq!(req.uri(), "/\u{FFFD}");
}

#[test]
fn non_ascii_names_are_lower_cased_and_unicode_spaces_trimmed() {
    let req = parse_request_text("GET / HTTP/1.1\r\n\u{3000}ÄB: \u{3000}v\u{a0}\r\n").unwrap();
    assert_eq!(req.header("äb"), Some("v"));
}

#[test]
fn parse_request_text_matches_parse_header() {
    let req = parse_request_text("PUT /x HTTP/2\r\nK: V\r\n").unwrap();
    assert_eq!(req.method(), "PUT");
    assert_eq!(req.uri(), "/x");
    assert_eq!(req.http_version(), "HTTP/2");
    assert_eq!(req.header("k"), Some("V"));
    assert!(parse_request_text("oops\r\n").is_none());
}

#[test]
fn request_set_header_reads_back_and_returns_previous() {
    let mut req = Request::empty();
    assert_eq!(req.set_header("host", "a".to_owned()), None);
    assert_eq!(req.header("host"), Some("a"));
    assert_eq!(req.set_header("host", "b".to_owned()), Some("a".to_owned()));
    assert_eq!(req.header("host"), Some("b"));
    assert_eq!(req.header("other"), None);
}

#[test]
fn url_joins_uri_onto_host() {
    let req = parse_header(b"GET /index.html?q=1 HTTP/1.1\r\nHost: localhost:8989\r\n").unwrap();
    assert_eq!(req.url().unwrap(), "http://localhost:8989/index.html?q=1");
    let req = parse_header(b"GET a/../b HTTP/1.1\r\nHost: example.com\r\n").unwrap();
    assert_eq!(req.url().unwrap(), "http://example.com/b");
}

#[test]
fn url_without_host_is_empty_host() {
    let req = parse_header(b"GET / HTTP/1.1\r\n").unwrap();
    assert_eq!(req.url(), Err(UrlParseError::EmptyHost));
}

#[test]
fn url_with_bad_host_is_a_parse_error() {
    let req = parse_header(b"GET / HTTP/1.1\r\nHost: localhost:99999\r\n").unwrap();
    assert_eq!(req.url(), Err(UrlParseError::InvalidPort));
}

#[test]
fn url_with_empty_host_header_is_empty_host() {
    let req = parse_header(b"GET / HTTP/1.1\r\nHost:   \r\n").unwrap();
    assert_eq!(req.header("host"), Some(""));
    assert_eq!(req.url(), Err(UrlParseError::EmptyHost));
}

#[test]
fn url_with_bad_host_character_is_an_idna_error() {
    let req = parse_header(b"GET / HTTP/1.1\r\nHost: a<b\r\n").unwrap();
    assert_eq!(req.url(), Err(UrlParseError::IdnaError));
}

#[test]
fn header_values_are_trimmed_of_unicode_whitespace() {
    let req = parse_request_text("GET / HTTP/1.1\nX-A: \u{3000}\u{a0}va lue\u{2009}\t\nX-B:\u{85}x\u{1680}\n").unwrap();
    assert_eq!(req.header("x-a"), Some("va lue"));
    assert_eq!(req.header("x-b"), Some("x"));
    let req = parse_request_text("GET / HTTP/1.1\nX-C: a\u{200b}\n").unwrap();
    assert_eq!(req.header("x-c"), Some("a\u{200b}"));
}

#[test]
fn response_head_lists_status_and_headers() {
    let mut res = Response::ok();
    res.set_header("Content-Type", "text/plain".to_owned());
    res.extend(b"hi");
    assert_eq!(res.head(), "HTTP/1.1 200 OK\r\nContent-Type: text/plain\r\n\r\n");
    assert_eq!(res.body(), b"hi");
    assert_eq!(res.body_len(), 2);
    assert_eq!(res.status_code(), StatusCode::OK);
}

#[test]
fn response_head_without_headers_ends_with_blank_line() {
    let res = Response::with_status_code(StatusCode::OK);
    assert_eq!(res.head(), "HTTP/1.1 200 OK\r\n\r\n");
    assert_eq!(res.body_len(), 0);
}

#[test]
fn response_set_header_twice_keeps_one_field_in_place() {
    let mut res = Response::ok();
    assert_eq!(res.set_header("A", "1".to_owned()), None);
    assert_eq!(res.set_header("B", "2".to_owned()), None);
    assert_eq!(res.set_header("A", "3".to_owned()), Some("1".to_owned()));
    assert_eq!(res.headers().len(), 2);
    assert_eq!(res.headers().entry(0), ("A", "3"));
    assert_eq!(res.headers().entry(1), ("B", "2"));
    assert_eq!(res.head(), "HTTP/1.1 200 OK\r\nA: 3\r\nB: 2\r\n\r\n");
}

#[test]
fn response_extend_appends() {
    let mut res = Response::ok();
    res.extend(b"ab");
    res.extend(b"");
    res.extend(&[0u8, 255u8]);
    assert_eq!(res.body(), &[b'a', b'b', 0, 255]);
    assert_eq!(res.body_len(), 4);
}

#[test]
fn status_code_numbers_and_reasons() {
    assert_eq!(StatusCode::OK.code(), 200);
    assert_eq!(StatusCode::OK.description(), "OK");
}

#[test]
fn request_line_and_header_round_trip() {
    let req = parse_header(b"DELETE /item/7 HTTP/1.0\r\nX-Token:abc def\r\n").unwrap();
    assert_eq!(req.method(), "DELETE");
    assert_eq!(req.uri(), "/item/7");
    assert_eq!(req.http_version(), "HTTP/1.0");
    assert_eq!(req.header("x-token"), Some("abc def"));
    let req = parse_header(b"GET / HTTP/1.1\r\n").unwrap();
    assert_eq!((req.method(), req.uri(), req.http_version()), ("GET", "/", "HTTP/1.1"));
}
