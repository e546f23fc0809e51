use tempkeys::names::{
    check_set, key_desc, key_names, key_prefix, set_names, KEY_PREFIX, SESSION_MARKER,
};
use tempkeys::order::sort;

fn some(names: &[&str]) -> Vec<Option<String>> {
    names.iter().map(|n| Some(n.to_string())).collect()
}

#[test]
fn keyset_names_are_checked() {
    for good in ["default", "a.b-c_9", "-", "9"] {
        assert!(check_set(good).is_ok(), "{good}");
    }
    for bad in ["", ".", ".a", "a/b", "a:b", "é", "a b"] {
        assert_eq!(check_set(bad), Err(format!("invalid keyset name {bad:?}")));
    }
    assert_eq!(
        check_set("a\n\"b"),
        Err("invalid keyset name \"a\\n\\\"b\"".to_string())
    );
}

#[test]
fn descriptions_name_keyset_and_generation() {
    let desc = key_desc("default", &[0x1f; 16]);
    assert_eq!(desc, "tempkeys:key:default:1f1f1f1f1f1f1f1f1f1f1f1f1f1f1f1f");
    assert!(desc.starts_with(&key_prefix("default")));
    assert!(!desc.starts_with(&key_prefix("def")));
    assert!(!SESSION_MARKER.starts_with(KEY_PREFIX));
}

#[test]
fn key_names_are_those_of_secret_files() {
    let mut listing = some(&["b.enc", "A.enc", "a.enc", "x", ".t.tmp-1", "enc", ".enc", "ä.enc"]);
    listing.push(None);
    assert_eq!(key_names(&listing), vec!["", "A", "a", "b", "ä"]);
    assert!(key_names(&Vec::new()).is_empty());
}

#[test]
fn keysets_are_directories_that_are_not_hidden() {
    let listing = vec![
        (Some("z".to_string()), true),
        (Some("file".to_string()), false),
        (Some(".default.new-7".to_string()), true),
        (None, true),
        (Some("default".to_string()), true),
        (Some("a.b".to_string()), true),
    ];
    assert_eq!(set_names(&listing), vec!["a.b", "default", "z"]);
}

#[test]
fn sorting_keeps_duplicates_and_goes_by_bytes() {
    let list = ["b", "a", "b", "", "ab", "\u{ff}", "\u{10000}", "\u{ffff}"];
    let mut expected: Vec<String> = list.iter().map(|s| s.to_string()).collect();
    let got = sort(expected.clone());
    expected.sort();
    assert_eq!(got, expected);
    let pairs = vec![
        ("b".to_string(), "x".to_string()),
        ("a".to_string(), "z".to_string()),
        ("a".to_string(), "y".to_string()),
        ("a".to_string(), "z".to_string()),
    ];
    let mut expected = pairs.clone();
    expected.sort();
    assert_eq!(sort(pairs), expected);
}
