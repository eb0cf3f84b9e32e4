use shs_index::breadcrumb::{build_breadcrumb, SimpleLink};

fn segments(parts: &[&str]) -> Vec<String> {
    parts.iter().map(|s| s.to_string()).collect()
}

fn pairs(trail: &Vec<SimpleLink>) -> Vec<(String, String)> {
    trail.iter().map(|item| (item.label.clone(), item.link.clone())).collect()
}

fn pair(label: &str, link: &str) -> (String, String) {
    (label.to_string(), link.to_string())
}

#[test]
fn breadcrumb_of_three_segments() {
    let trail = build_breadcrumb(&segments(&["a", "b", "c"]));
    assert_eq!(pairs(&trail), vec![pair("a", "/a/"), pair("b", "/a/b/"), pair("c", "")]);
}

#[test]
fn breadcrumb_of_the_root_is_empty() {
    assert!(build_breadcrumb(&Vec::new()).is_empty());
}

#[test]
fn breadcrumb_of_one_segment_has_no_link() {
    let trail = build_breadcrumb(&segments(&["docs"]));
    assert_eq!(pairs(&trail), vec![pair("docs", "")]);
}

#[test]
fn breadcrumb_links_are_encoded_and_labels_are_not() {
    let trail = build_breadcrumb(&segments(&["my docs", "100%", "\u{e9}"]));
    assert_eq!(
        pairs(&trail),
        vec![pair("my docs", "/my%20docs/"), pair("100%", "/my%20docs/100%25/"), pair("\u{e9}", "")]
    );
}
