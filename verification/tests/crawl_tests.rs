//! Whole crawls against fixture tables.

use crawler::crawl::{run_crawl, Fixture};
use crawler::extract::extract_links;

fn page(url: &str, body: &str) -> Fixture {
    Fixture { url: url.to_string(), body: Some(body.to_string()) }
}

fn failing(url: &str) -> Fixture {
    Fixture { url: url.to_string(), body: None }
}

fn sorted(mut v: Vec<String>) -> Vec<String> {
    v.sort();
    v
}

fn strs(v: &[&str]) -> Vec<String> {
    v.iter().map(|s| s.to_string()).collect()
}

fn chain_table() -> Vec<Fixture> {
    vec![
        page("http://a", "<a href=\"http://b/x\">link</a>"),
        page("http://b/x", "<a href=\"http://c\">link</a>"),
        page("http://c", "<p>no anchors</p>"),
    ]
}

#[test]
fn chain_depth_one() {
    let (found, _) = run_crawl(&chain_table(), "http://a", 1);
    assert_eq!(sorted(found), strs(&["http://b/x"]));
}

#[test]
fn chain_depth_two() {
    let (found, _) = run_crawl(&chain_table(), "http://a", 2);
    assert_eq!(sorted(found), strs(&["http://b/x", "http://c"]));
}

#[test]
fn chain_depth_three_is_fixed_point() {
    let (found, _) = run_crawl(&chain_table(), "http://a", 3);
    assert_eq!(sorted(found), strs(&["http://b/x", "http://c"]));
}

#[test]
fn identical_anchors_collapse() {
    let table = vec![page(
        "https://a",
        "<a href=\"https://b\">one</a><a href=\"https://b\">two</a>",
    )];
    let (found, _) = run_crawl(&table, "https://a", 1);
    assert_eq!(found, strs(&["https://b"]));
}

#[test]
fn shape_filter_drops_relative_and_other_schemes() {
    let table = vec![page(
        "http://seed",
        "<a href=\"/relative\">r</a><a href=\"mailto:x@y\">m</a><a href=\"https://ok\">k</a>",
    )];
    let (found, _) = run_crawl(&table, "http://seed", 1);
    assert_eq!(found, strs(&["https://ok"]));
}

#[test]
fn cycle_fetches_each_page_once() {
    let table = vec![
        page("http://a", "<a href=\"http://b\">b</a>"),
        page("http://b", "<a href=\"http://a\">a</a>"),
    ];
    let (found, fetched) = run_crawl(&table, "http://a", 5);
    assert_eq!(sorted(found), strs(&["http://a", "http://b"]));
    assert_eq!(sorted(fetched), strs(&["http://a", "http://b"]));
}

#[test]
fn failing_seed_yields_nothing() {
    let table = vec![failing("http://a")];
    let (found, fetched) = run_crawl(&table, "http://a", 3);
    assert_eq!(found, Vec::<String>::new());
    assert_eq!(fetched, strs(&["http://a"]));
}

#[test]
fn unknown_seed_yields_nothing() {
    let table = chain_table();
    let (found, _) = run_crawl(&table, "http://elsewhere", 3);
    assert_eq!(found, Vec::<String>::new());
}

#[test]
fn href_with_space_keeps_prefix() {
    let table = vec![page("http://a", "<a href=\"http://x y\">s</a>")];
    let (found, _) = run_crawl(&table, "http://a", 1);
    assert_eq!(found, strs(&["http://x"]));
}

#[test]
fn depth_one_equals_extractor_on_seed_page() {
    let body = "<a href=\"http://p\">1</a><a href=\"http://q\">2</a><a href=\"/skip\">3</a>";
    let table = vec![
        page("http://seed", body),
        page("http://p", "<a href=\"http://deeper\">d</a>"),
    ];
    let (found, _) = run_crawl(&table, "http://seed", 1);
    assert_eq!(sorted(found), sorted(extract_links(body)));
}

#[test]
fn empty_seed_page_stops_the_crawl() {
    let table = vec![page("http://a", "")];
    let (found, fetched) = run_crawl(&table, "http://a", 5);
    assert_eq!(found, Vec::<String>::new());
    assert_eq!(fetched, strs(&["http://a"]));
}

#[test]
fn found_is_monotone_in_depth() {
    let table = chain_table();
    for depth in 1..4 {
        let (shallow, _) = run_crawl(&table, "http://a", depth);
        let (deep, _) = run_crawl(&table, "http://a", depth + 1);
        for url in &shallow {
            assert!(deep.contains(url));
        }
    }
}

#[test]
fn same_inputs_give_same_result() {
    let table = chain_table();
    let (first, _) = run_crawl(&table, "http://a", 3);
    let (second, _) = run_crawl(&table, "http://a", 3);
    assert_eq!(sorted(first), sorted(second));
}

#[test]
fn found_holds_no_duplicates() {
    let table = vec![
        page("http://a", "<a href=\"http://b\">b</a><a href=\"http://c\">c</a>"),
        page("http://b", "<a href=\"http://c\">c</a><a href=\"http://b\">b</a>"),
        page("http://c", "<a href=\"http://a\">a</a>"),
    ];
    let (found, fetched) = run_crawl(&table, "http://a", 4);
    let mut seen = Vec::new();
    for url in &found {
        assert!(!seen.contains(url));
        seen.push(url.clone());
    }
    let mut seen = Vec::new();
    for url in &fetched {
        assert!(!seen.contains(url));
        seen.push(url.clone());
    }
}

#[test]
fn every_found_url_matches_the_shape() {
    let table = vec![page(
        "http://a",
        "<a href=\"http://b\">b</a><a href=\"nothing\">n</a><a href=\"https://c/d e\">c</a>",
    )];
    let (found, _) = run_crawl(&table, "http://a", 2);
    for url in &found {
        assert!(url.starts_with("http://") || url.starts_with("https://"));
        assert!(!url.contains(' '));
    }
    assert_eq!(sorted(found), strs(&["http://b", "https://c/d"]));
}

#[test]
fn failed_page_acts_like_page_with_no_links() {
    let with_failure = vec![
        page("http://a", "<a href=\"http://b\">b</a><a href=\"http://c\">c</a>"),
        failing("http://b"),
        page("http://c", "<a href=\"http://d\">d</a>"),
        page("http://d", ""),
    ];
    let with_empty_page = vec![
        page("http://a", "<a href=\"http://b\">b</a><a href=\"http://c\">c</a>"),
        page("http://b", "<p>nothing to follow</p>"),
        page("http://c", "<a href=\"http://d\">d</a>"),
        page("http://d", ""),
    ];
    let (found_failure, _) = run_crawl(&with_failure, "http://a", 3);
    let (found_empty, _) = run_crawl(&with_empty_page, "http://a", 3);
    let found_failure = sorted(found_failure);
    assert_eq!(found_failure, sorted(found_empty));
    assert_eq!(found_failure, strs(&["http://b", "http://c", "http://d"]));
}

#[test]
fn seed_found_only_when_linked() {
    let table = vec![page("http://a", "<a href=\"http://b\">b</a>"), page("http://b", "")];
    let (found, _) = run_crawl(&table, "http://a", 3);
    assert!(!found.contains(&"http://a".to_string()));
}
