use https_profile::target::url_extractor;

fn pair(host: &str, path: &str) -> (String, String) {
    (host.to_string(), path.to_string())
}

#[test]
fn test_url_extractor() {
    assert_eq!(url_extractor("abc.efg.com".to_string()), ("abc.efg.com".to_string(), "/".to_string()));
    assert_eq!(url_extractor("http://abc.efg.com".to_string()), ("abc.efg.com".to_string(), "/".to_string()));
    assert_eq!(url_extractor("https://abc.efg.com".to_string()), ("abc.efg.com".to_string(), "/".to_string()));
    assert_eq!(url_extractor("abc.efg.com/1".to_string()), ("abc.efg.com".to_string(), "/1".to_string()));
    assert_eq!(url_extractor("http://abc.efg.com/1".to_string()), ("abc.efg.com".to_string(), "/1".to_string()));
    assert_eq!(url_extractor("https://abc.efg.com/1".to_string()), ("abc.efg.com".to_string(), "/1".to_string()));
    assert_eq!(url_extractor("abc.efg.com/1/2/".to_string()), ("abc.efg.com".to_string(), "/1/2/".to_string()));
    assert_eq!(url_extractor("http://abc.efg.com/1/2/".to_string()), ("abc.efg.com".to_string(), "/1/2/".to_string()));
    assert_eq!(url_extractor("https://abc.efg.com/1/2/".to_string()), ("abc.efg.com".to_string(), "/1/2/".to_string()));
}

#[test]
fn url_without_slash_is_the_host() {
    assert_eq!(url_extractor("localhost".to_string()), pair("localhost", "/"));
    assert_eq!(url_extractor("10.0.0.1:8443".to_string()), pair("10.0.0.1:8443", "/"));
}

#[test]
fn empty_url_has_empty_host() {
    assert_eq!(url_extractor(String::new()), pair("", "/"));
    assert_eq!(url_extractor("https://".to_string()), pair("", "/"));
    assert_eq!(url_extractor("/".to_string()), pair("", "/"));
}

#[test]
fn scheme_is_dropped_only_at_the_start() {
    assert_eq!(
        url_extractor("example.org/go?to=http://other.org".to_string()),
        pair("example.org", "/go?to=http://other.org")
    );
    assert_eq!(url_extractor("xhttps://example.org".to_string()), pair("xhttps:", "//example.org"));
}

#[test]
fn scheme_is_case_sensitive() {
    assert_eq!(url_extractor("HTTP://example.org/a".to_string()), pair("HTTP:", "//example.org/a"));
    assert_eq!(url_extractor("Https://example.org".to_string()), pair("Https:", "//example.org"));
}

#[test]
fn scheme_is_dropped_once() {
    assert_eq!(url_extractor("http://https://a/b".to_string()), pair("https:", "//a/b"));
    assert_eq!(url_extractor("https://http://a".to_string()), pair("http:", "//a"));
}

#[test]
fn stripped_url_resolves_alike() {
    let bare = url_extractor("example.org/index.html".to_string());
    assert_eq!(url_extractor("http://example.org/index.html".to_string()), bare);
    assert_eq!(url_extractor("https://example.org/index.html".to_string()), bare);
    assert_eq!(bare, pair("example.org", "/index.html"));
}

#[test]
fn url_with_wide_characters() {
    assert_eq!(url_extractor("https://bücher.example/straße".to_string()), pair("bücher.example", "/straße"));
}
