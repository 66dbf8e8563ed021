use med::search::{filter, matches_folded};

fn names(v: &[&str]) -> Vec<String> {
    v.iter().map(|s| s.to_string()).collect()
}

#[test]
fn filter_is_case_insensitive_substring() {
    let all = names(&["Anna", "Bob", "Diana"]);
    assert_eq!(filter("an", &all), names(&["Anna", "Diana"]));
    assert_eq!(filter("AN", &all), names(&["Anna", "Diana"]));
    assert_eq!(filter("bo", &all), names(&["Bob"]));
}

#[test]
fn empty_query_keeps_every_name() {
    let all = names(&["Anna", "Bob", "Diana"]);
    assert_eq!(filter("", &all), all);
    assert_eq!(filter("", &Vec::new()), Vec::<String>::new());
}

#[test]
fn filter_with_no_match() {
    let all = names(&["Anna", "Bob"]);
    assert_eq!(filter("zz", &all), Vec::<String>::new());
    assert_eq!(filter("annabel", &all), Vec::<String>::new());
}

#[test]
fn filter_keeps_order_and_duplicates() {
    let all = names(&["Diana", "Bob", "Anna", "Diana"]);
    assert_eq!(filter("a", &all), names(&["Diana", "Anna", "Diana"]));
}

#[test]
fn folded_match_is_plain_containment() {
    assert!(matches_folded("an", "anna"));
    assert!(matches_folded("", "anna"));
    assert!(!matches_folded("AN", "anna"));
    assert!(!matches_folded("annas", "anna"));
    assert!(matches_folded("na", "anna"));
}
