//! The step machine driven by hand, as a fetching front end drives it.

use crawler::crawl::Crawl;

fn sorted(mut v: Vec<String>) -> Vec<String> {
    v.sort();
    v
}

fn strs(v: &[&str]) -> Vec<String> {
    v.iter().map(|s| s.to_string()).collect()
}

#[test]
fn machine_walks_a_chain() {
    let mut c = Crawl::new("http://a".to_string(), 2);
    assert!(!c.is_done());
    assert_eq!(c.next_url(), Some("http://a".to_string()));
    c.deliver_page("<a href=\"http://b\">b</a>");
    assert_eq!(c.next_url(), Some("http://b".to_string()));
    c.deliver_page("<a href=\"http://c\">c</a>");
    assert!(c.is_done());
    assert_eq!(c.next_url(), None);
    let (found, fetched) = c.into_parts();
    assert_eq!(sorted(found), strs(&["http://b", "http://c"]));
    assert_eq!(fetched, strs(&["http://a", "http://b"]));
}

#[test]
fn machine_survives_failures() {
    let mut c = Crawl::new("http://a".to_string(), 3);
    assert_eq!(c.next_url(), Some("http://a".to_string()));
    c.deliver_page("<a href=\"http://b\">b</a><a href=\"http://c\">c</a>");
    let mut handed_out = Vec::new();
    while let Some(u) = c.next_url() {
        handed_out.push(u.clone());
        if u == "http://b" {
            c.deliver_failure();
        } else {
            c.deliver_page("<p>nothing</p>");
        }
    }
    assert_eq!(sorted(handed_out), strs(&["http://b", "http://c"]));
    let (found, fetched) = c.into_parts();
    assert_eq!(sorted(found), strs(&["http://b", "http://c"]));
    assert_eq!(fetched.len(), 3);
}

#[test]
fn machine_with_failing_seed_ends_at_once() {
    let mut c = Crawl::new("http://a".to_string(), 4);
    c.deliver_failure();
    assert!(c.is_done());
    let (found, fetched) = c.into_parts();
    assert_eq!(found, Vec::<String>::new());
    assert_eq!(fetched, strs(&["http://a"]));
}
