use med::codec::encode_data;
use med::digest::storage_key;
use med::index::{initial_data, Index, ScannedDir};

fn scanned(key: &str, data: Option<&str>) -> ScannedDir {
    ScannedDir { key: key.to_string(), data: data.map(|d| d.to_string()) }
}

fn sorted(mut v: Vec<String>) -> Vec<String> {
    v.sort();
    v
}

#[test]
fn add_or_get_returns_the_storage_key() {
    let mut idx = Index::new();
    let k = idx.add_or_get("Anna");
    assert_eq!(k, storage_key("Anna"));
    assert_eq!(k, "2151");
    assert_eq!(idx.get("Anna"), Some(k.clone()));
    assert_eq!(idx.add_or_get("Anna"), k);
    assert_eq!(idx.len(), 1);
}

#[test]
fn remove_twice_is_no_error() {
    let mut idx = Index::new();
    let k = idx.add_or_get("Anna");
    idx.add_or_get("Bob");
    assert_eq!(idx.remove("Anna"), Some(k));
    assert_eq!(idx.remove("Anna"), None);
    assert!(!idx.contains("Anna"));
    assert!(idx.contains("Bob"));
    assert_eq!(idx.len(), 1);
}

#[test]
fn insert_replaces_the_key() {
    let mut idx = Index::new();
    idx.insert("Anna".to_string(), "1".to_string());
    idx.insert("Anna".to_string(), "2".to_string());
    assert_eq!(idx.get("Anna"), Some("2".to_string()));
    assert_eq!(idx.len(), 1);
    assert_eq!(idx.get("Bob"), None);
}

#[test]
fn names_lists_each_name_once() {
    let mut idx = Index::new();
    idx.add_or_get("Anna");
    idx.add_or_get("Bob");
    idx.add_or_get("Anna");
    assert_eq!(sorted(idx.names()), vec!["Anna".to_string(), "Bob".to_string()]);
}

#[test]
fn recovery_finds_every_saved_name() {
    let dirs: Vec<ScannedDir> = ["Anna", "Bob", "Diana"]
        .iter()
        .map(|n| ScannedDir { key: storage_key(n), data: Some(encode_data(n, "note")) })
        .collect();
    let idx = Index::recover(&dirs);
    assert_eq!(
        sorted(idx.names()),
        vec!["Anna".to_string(), "Bob".to_string(), "Diana".to_string()]
    );
    assert_eq!(idx.get("Bob"), Some(storage_key("Bob")));
}

#[test]
fn recovery_skips_directories_without_a_name() {
    let dirs = vec![
        scanned("12", None),
        scanned("13", Some("")),
        scanned("14", Some("Anna\nnote")),
    ];
    let idx = Index::recover(&dirs);
    assert_eq!(idx.names(), vec!["Anna".to_string()]);
    assert_eq!(idx.get("Anna"), Some("14".to_string()));
}

#[test]
fn recovery_of_an_empty_root() {
    let idx = Index::recover(&Vec::new());
    assert_eq!(idx.len(), 0);
}

#[test]
fn colliding_names_share_a_directory_in_the_index() {
    let mut idx = Index::new();
    let a = idx.add_or_get("patient21");
    let b = idx.add_or_get("patient22");
    assert_eq!(a, b);
    assert_eq!(idx.len(), 2);
}

#[test]
fn initial_data_seeds_only_a_nameless_record() {
    assert_eq!(initial_data(&None, "Anna"), Some("Anna\n".to_string()));
    assert_eq!(initial_data(&Some(String::new()), "Anna"), Some("Anna\n".to_string()));
    assert_eq!(initial_data(&Some("Bob\nx".to_string()), "Anna"), None);
}
