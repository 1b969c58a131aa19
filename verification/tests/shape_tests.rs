//! The accepted URL shape, on concrete candidates.

use crawler::shape::capture_url;

#[test]
fn keeps_plain_http_url() {
    assert_eq!(capture_url("http://a"), Some("http://a".to_string()));
}

#[test]
fn keeps_plain_https_url() {
    assert_eq!(capture_url("https://ok"), Some("https://ok".to_string()));
}

#[test]
fn keeps_url_with_path() {
    assert_eq!(capture_url("http://b/x"), Some("http://b/x".to_string()));
}

#[test]
fn drops_relative_link() {
    assert_eq!(capture_url("/relative"), None);
}

#[test]
fn drops_mailto_link() {
    assert_eq!(capture_url("mailto:x@y"), None);
}

#[test]
fn drops_javascript_link() {
    assert_eq!(capture_url("javascript:void(0)"), None);
}

#[test]
fn drops_protocol_relative_link() {
    assert_eq!(capture_url("//host/page"), None);
}

#[test]
fn drops_fragment_only_link() {
    assert_eq!(capture_url("#top"), None);
}

#[test]
fn stops_at_space_in_host() {
    assert_eq!(capture_url("http://x y"), Some("http://x".to_string()));
}

#[test]
fn stops_at_space_in_path() {
    assert_eq!(capture_url("https://a/b c"), Some("https://a/b".to_string()));
}

#[test]
fn stops_at_tab() {
    assert_eq!(capture_url("http://a\tb"), Some("http://a".to_string()));
}

#[test]
fn drops_empty_host() {
    assert_eq!(capture_url("http://"), None);
    assert_eq!(capture_url("http:///x"), None);
}

#[test]
fn drops_host_opening_with_space() {
    assert_eq!(capture_url("http:// a"), None);
}

#[test]
fn scheme_is_case_sensitive() {
    assert_eq!(capture_url("HTTP://a"), None);
}

#[test]
fn drops_empty_candidate() {
    assert_eq!(capture_url(""), None);
}

#[test]
fn keeps_trailing_slash() {
    assert_eq!(capture_url("http://a/"), Some("http://a/".to_string()));
}
