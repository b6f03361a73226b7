use https_profile::status::{code_of_group, parse_code, status_code, status_of_line};

#[test]
fn status_line_gives_its_code() {
    assert_eq!(status_of_line("HTTP/1.1 200 OK"), Some(200));
    assert_eq!(status_of_line("HTTP/1.0 404 Not Found"), Some(404));
    assert_eq!(status_of_line("HTTP/1.1 301"), Some(301));
}

#[test]
fn other_lines_give_no_code() {
    assert_eq!(status_of_line("Content-Length: 200"), None);
    assert_eq!(status_of_line("HTTP/2 200"), None);
    assert_eq!(status_of_line("HTTP/1.2 200 OK"), None);
    assert_eq!(status_of_line("HTTP/1x1 200 OK"), None);
    assert_eq!(status_of_line("HTTP/1.1 OK"), None);
    assert_eq!(status_of_line("HTTP/1.1  200"), None);
    assert_eq!(status_of_line("http/1.1 200"), None);
    assert_eq!(status_of_line(""), None);
}

#[test]
fn code_is_found_within_a_line() {
    assert_eq!(status_of_line("Via: HTTP/1.1 502 proxy"), Some(502));
    assert_eq!(status_of_line("HTTP/1.1 200HTTP/1.0 500"), Some(200));
}

#[test]
fn code_too_large_is_no_code() {
    assert_eq!(status_of_line("HTTP/1.1 4294967295"), Some(4294967295));
    assert_eq!(status_of_line("HTTP/1.1 4294967296"), None);
    assert_eq!(status_of_line("HTTP/1.1 99999999999999999999999"), None);
}

#[test]
fn digits_are_read_in_base_ten() {
    assert_eq!(parse_code("200"), Some(200));
    assert_eq!(parse_code("0"), Some(0));
    assert_eq!(parse_code("007"), Some(7));
    assert_eq!(parse_code("4294967295"), Some(u32::MAX));
    assert_eq!(parse_code("4294967296"), None);
    assert_eq!(parse_code("00000000000000000042"), Some(42));
}

#[test]
fn anything_but_digits_is_refused() {
    assert_eq!(parse_code(""), None);
    assert_eq!(parse_code("12a"), None);
    assert_eq!(parse_code("-1"), None);
    assert_eq!(parse_code("+1"), None);
    assert_eq!(parse_code(" 1"), None);
    assert_eq!(parse_code("٣"), None);
}

#[test]
fn group_gives_its_code() {
    assert_eq!(code_of_group(Some("503".to_string())), Some(503));
    assert_eq!(code_of_group(Some("x".to_string())), None);
    assert_eq!(code_of_group(None), None);
}

#[test]
fn first_status_line_wins() {
    let header = vec![
        "Server: none".to_string(),
        "HTTP/1.1 302 Found".to_string(),
        "HTTP/1.1 500 Oops".to_string(),
    ];
    assert_eq!(status_code(&header), 302);
}

#[test]
fn header_without_status_line_gives_zero() {
    let header = vec!["Server: none".to_string(), "Content-Length: 12".to_string()];
    assert_eq!(status_code(&header), 0);
    assert_eq!(status_code(&Vec::new()), 0);
}

#[test]
fn line_with_a_code_too_large_is_passed_over() {
    let header = vec!["HTTP/1.1 4294967296".to_string(), "HTTP/1.0 201 Created".to_string()];
    assert_eq!(status_code(&header), 201);
}
