use rustvault::collection::{is_valid_id, CredentialCollection, CredentialsEntry};

fn entry(username: &str, password: &str) -> CredentialsEntry {
    CredentialsEntry { username: username.to_string(), password: password.to_string() }
}

#[test]
fn new_collection_is_empty() {
    let collection = CredentialCollection::new();
    assert!(collection.is_empty());
    assert_eq!(collection.len(), 0);
    assert_eq!(collection.ids(), Vec::<String>::new());
}

#[test]
fn insert_keeps_ids_in_ascending_order() {
    let mut collection = CredentialCollection::new();
    for id in ["mango", "apple", "zebra", "banana", "Apple", "_x", "-y", "0"] {
        collection.insert(id.to_string(), entry(id, "pw"));
    }
    assert_eq!(collection.ids(), vec!["-y", "0", "Apple", "_x", "apple", "banana", "mango", "zebra"]);
    assert_eq!(collection.len(), 8);
    assert_eq!(collection.id_at(2), "Apple");
    assert_eq!(collection.entry_at(2), &entry("Apple", "pw"));
}

#[test]
fn insert_replaces_what_was_stored() {
    let mut collection = CredentialCollection::new();
    collection.insert("alice".to_string(), entry("a", "1"));
    collection.insert("bob".to_string(), entry("b", "2"));
    collection.insert("alice".to_string(), entry("c", "3"));
    assert_eq!(collection.len(), 2);
    assert_eq!(collection.get("alice"), Some(&entry("c", "3")));
    assert_eq!(collection.get("bob"), Some(&entry("b", "2")));
}

#[test]
fn get_finds_only_what_is_stored() {
    let mut collection = CredentialCollection::new();
    collection.insert("alice".to_string(), entry("a", "1"));
    assert!(collection.contains_key("alice"));
    assert!(!collection.contains_key("alic"));
    assert!(!collection.contains_key("alice2"));
    assert_eq!(collection.get("bob"), None);
}

#[test]
fn remove_hands_back_the_entry() {
    let mut collection = CredentialCollection::new();
    collection.insert("a".to_string(), entry("ua", "pa"));
    collection.insert("b".to_string(), entry("ub", "pb"));
    collection.insert("c".to_string(), entry("uc", "pc"));
    assert_eq!(collection.remove("b"), Some(entry("ub", "pb")));
    assert_eq!(collection.remove("b"), None);
    assert_eq!(collection.ids(), vec!["a", "c"]);
    assert_eq!(collection.get("c"), Some(&entry("uc", "pc")));
}

#[test]
fn entry_duplicate_is_equal() {
    let plain = entry("bob@example.com", "secret;pw");
    assert_eq!(plain.duplicate(), plain);
}

#[test]
fn valid_ids_hold_letters_digits_hyphen_and_underscore() {
    assert!(is_valid_id("alice"));
    assert!(is_valid_id("Alice-01_b"));
    assert!(is_valid_id("_"));
    assert!(is_valid_id("-"));
    assert!(is_valid_id("azAZ09"));
}

#[test]
fn invalid_ids_are_rejected() {
    assert!(!is_valid_id(""));
    assert!(!is_valid_id("bad id!"));
    assert!(!is_valid_id("a;b"));
    assert!(!is_valid_id("a\nb"));
    assert!(!is_valid_id("é"));
    assert!(!is_valid_id("a/b"));
    assert!(!is_valid_id("a:b"));
    assert!(!is_valid_id("a@b"));
    assert!(!is_valid_id("a[b"));
    assert!(!is_valid_id("a`b"));
    assert!(!is_valid_id("a{b"));
}
