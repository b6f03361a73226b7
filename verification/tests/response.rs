use https_profile::response::{
    build_request, find_first_blank_string, parse_response, split_lines, HTTPSResponse, ParseError,
};

fn decoded(raw: &str) -> HTTPSResponse {
    match parse_response(raw) {
        Ok(response) => response,
        Err(e) => panic!("{}", e.message()),
    }
}

#[test]
fn request_is_framed_exactly() {
    assert_eq!(
        build_request("abc.efg.com", "/1/2/"),
        "GET /1/2/ HTTP/1.0\r\nHost: abc.efg.com\r\nAccept: */*\r\n\r\n"
    );
    assert_eq!(build_request("", "/"), "GET / HTTP/1.0\r\nHost: \r\nAccept: */*\r\n\r\n");
}

#[test]
fn lines_are_split_at_terminators() {
    assert_eq!(split_lines("a\r\nbc\r\n\r\nd"), vec!["a", "bc", "", "d"]);
    assert_eq!(split_lines(""), vec![""]);
    assert_eq!(split_lines("no terminator"), vec!["no terminator"]);
    assert_eq!(split_lines("a\r\n"), vec!["a", ""]);
    assert_eq!(split_lines("\r\n"), vec!["", ""]);
}

#[test]
fn lone_returns_and_feeds_split_nothing() {
    assert_eq!(split_lines("a\rb\nc"), vec!["a\rb\nc"]);
    assert_eq!(split_lines("a\n\rb"), vec!["a\n\rb"]);
    assert_eq!(split_lines("a\r\r\nb"), vec!["a\r", "b"]);
    assert_eq!(split_lines("a\r\n\nb"), vec!["a", "\nb"]);
}

#[test]
fn lines_with_wide_characters() {
    assert_eq!(split_lines("grüß\r\n日本\r\n"), vec!["grüß", "日本", ""]);
}

#[test]
fn first_blank_string_is_found() {
    assert_eq!(find_first_blank_string(&["a", "", "b", ""]), Some(1));
    assert_eq!(find_first_blank_string(&["", "a"]), Some(0));
    assert_eq!(find_first_blank_string(&["a", "b"]), None);
    assert_eq!(find_first_blank_string(&[]), None);
    assert_eq!(find_first_blank_string(&[" ", "\t"]), None);
}

#[test]
fn response_is_parted_at_the_empty_line() {
    let response = decoded("HTTP/1.0 200 OK\r\nContent-Type: text/plain\r\n\r\nhello");
    assert_eq!(response.header, vec!["HTTP/1.0 200 OK", "Content-Type: text/plain"]);
    assert_eq!(response.body, "hello");
}

#[test]
fn body_is_the_first_line_after_the_header() {
    let response = decoded("HTTP/1.1 200 OK\r\n\r\nfirst\r\nsecond\r\n\r\nthird");
    assert_eq!(response.header, vec!["HTTP/1.1 200 OK"]);
    assert_eq!(response.body, "first");
}

#[test]
fn empty_body_is_decoded() {
    let response = decoded("HTTP/1.1 204 No Content\r\nServer: x\r\n\r\n");
    assert_eq!(response.header, vec!["HTTP/1.1 204 No Content", "Server: x"]);
    assert_eq!(response.body, "");
    assert_eq!(response.body.as_bytes().len(), 0);
}

#[test]
fn text_that_ends_with_the_empty_line() {
    let response = decoded("abc\r\n");
    assert_eq!(response.header, vec!["abc"]);
    assert_eq!(response.body, "");
    let response = decoded("");
    assert!(response.header.is_empty());
    assert_eq!(response.body, "");
}

#[test]
fn header_may_be_empty() {
    let response = decoded("\r\nbody");
    assert!(response.header.is_empty());
    assert_eq!(response.body, "body");
}

#[test]
fn text_without_empty_line_is_refused() {
    match parse_response("HTTP/1.0 200 OK\r\nContent-Length: 3") {
        Ok(_) => panic!("decoded a text without an empty line"),
        Err(e) => assert_eq!(e.response, "HTTP/1.0 200 OK\r\nContent-Length: 3"),
    }
    assert!(parse_response("just one line").is_err());
    assert!(parse_response("a\n\nb").is_err());
}

#[test]
fn error_names_the_text() {
    let e = ParseError::new("garbage".to_string());
    assert_eq!(e.response, "garbage");
    assert_eq!(e.message(), "Cannot parse response: garbage");
}

#[test]
fn decoded_parts_rebuild_how_the_text_begins() {
    let raw = "HTTP/1.1 200 OK\r\nA: b\r\n\r\nfirst\r\nsecond";
    let response = decoded(raw);
    let mut parts: Vec<String> = response.header.clone();
    parts.push(String::new());
    parts.push(response.body.clone());
    let joined = parts.join("\r\n");
    assert_eq!(joined, "HTTP/1.1 200 OK\r\nA: b\r\n\r\nfirst");
    assert!(raw.starts_with(&joined));
}
