//! Anchor extraction on concrete documents, through the real HTML parser.

use crawler::extract::extract_links;

fn sorted(mut v: Vec<String>) -> Vec<String> {
    v.sort();
    v
}

#[test]
fn extracts_single_anchor() {
    let body = "<html><body><a href=\"http://a\">x</a></body></html>";
    assert_eq!(extract_links(body), vec!["http://a".to_string()]);
}

#[test]
fn deduplicates_within_page() {
    let body = "<a href=\"https://b\">one</a><a href=\"https://b\">two</a>";
    assert_eq!(extract_links(body), vec!["https://b".to_string()]);
}

#[test]
fn filters_by_shape() {
    let body = "<a href=\"/relative\">r</a><a href=\"mailto:x@y\">m</a>\
                <a href=\"https://ok\">k</a>";
    assert_eq!(extract_links(body), vec!["https://ok".to_string()]);
}

#[test]
fn ignores_anchor_without_href() {
    let body = "<a name=\"top\">t</a><a href=\"http://a\">x</a>";
    assert_eq!(extract_links(body), vec!["http://a".to_string()]);
}

#[test]
fn empty_document_yields_nothing() {
    assert_eq!(extract_links(""), Vec::<String>::new());
}

#[test]
fn plain_text_yields_nothing() {
    assert_eq!(extract_links("no anchors here, not even http://a as text"), Vec::<String>::new());
}

#[test]
fn malformed_document_is_best_effort() {
    let body = "<div><p><a href=\"https://ok\">never closed";
    assert_eq!(extract_links(body), vec!["https://ok".to_string()]);
}

#[test]
fn truncates_href_at_whitespace() {
    let body = "<a href=\"http://x y\">s</a>";
    assert_eq!(extract_links(body), vec!["http://x".to_string()]);
}

#[test]
fn collects_several_anchors() {
    let body = "<a href=\"http://a\">1</a><a href=\"http://b\">2</a><a href=\"http://c\">3</a>";
    assert_eq!(
        sorted(extract_links(body)),
        vec!["http://a".to_string(), "http://b".to_string(), "http://c".to_string()]
    );
}
