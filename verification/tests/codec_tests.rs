use rustvault::codec::MalformedRecord;
use rustvault::{
    convert_map_to_string, create_credential_map_from_string, CredentialCollection,
    CredentialsEntry,
};

fn entry(username: &str, password: &str) -> CredentialsEntry {
    CredentialsEntry { username: username.to_string(), password: password.to_string() }
}

fn decode(text: &str) -> Result<CredentialCollection, MalformedRecord> {
    create_credential_map_from_string(text.to_string())
}

#[test]
fn empty_collection_encodes_to_empty_text() {
    assert_eq!(convert_map_to_string(CredentialCollection::new()), "");
}

#[test]
fn empty_text_decodes_to_empty_collection() {
    let collection = decode("").unwrap();
    assert!(collection.is_empty());
}

#[test]
fn encode_writes_one_line_per_entry_in_ascending_order() {
    let mut collection = CredentialCollection::new();
    collection.insert("zed".to_string(), entry("u", "p"));
    collection.insert("alice".to_string(), entry("bob@example.com", "secret;pw"));
    assert_eq!(
        convert_map_to_string(collection),
        "alice;bob@example.com;secret###semicolon###pw\nzed;u;p"
    );
}

#[test]
fn encode_keeps_empty_fields_and_trailing_spaces() {
    let mut collection = CredentialCollection::new();
    collection.insert("a".to_string(), entry("", ""));
    collection.insert("b".to_string(), entry("user ", "pw  "));
    assert_eq!(convert_map_to_string(collection), "a;;\nb;user ;pw  ");
}

#[test]
fn decode_reads_and_unescapes_the_fields() {
    let collection = decode("alice;bob@example.com;secret###semicolon###pw\nzed;u###semicolon###;p").unwrap();
    assert_eq!(collection.len(), 2);
    assert_eq!(collection.get("alice"), Some(&entry("bob@example.com", "secret;pw")));
    assert_eq!(collection.get("zed"), Some(&entry("u;", "p")));
}

#[test]
fn decode_passes_over_empty_lines() {
    let collection = decode("\na;b;c\n\nd;e;f\n").unwrap();
    assert_eq!(collection.ids(), vec!["a", "d"]);
}

#[test]
fn decode_sorts_and_keeps_the_later_of_two_equal_ids() {
    let collection = decode("b;1;2\na;3;4\nb;5;6").unwrap();
    assert_eq!(collection.ids(), vec!["a", "b"]);
    assert_eq!(collection.get("b"), Some(&entry("5", "6")));
}

#[test]
fn decode_keeps_a_carriage_return_in_a_field() {
    let collection = decode("a;u;p\r\nb;v;q").unwrap();
    assert_eq!(collection.get("a"), Some(&entry("u", "p\r")));
}

#[test]
fn line_with_too_few_fields_is_malformed() {
    assert_eq!(decode("alice;bob").err(), Some(MalformedRecord));
    assert_eq!(decode("alice").err(), Some(MalformedRecord));
    assert_eq!(decode("a;b;c\nalice;bob").err(), Some(MalformedRecord));
    assert_eq!(decode("alice;bob\na;b;c").err(), Some(MalformedRecord));
}

#[test]
fn line_with_too_many_fields_is_malformed() {
    assert_eq!(decode("alice;bob;pw;extra").err(), Some(MalformedRecord));
}

#[test]
fn round_trip_gives_the_collection_back() {
    let mut collection = CredentialCollection::new();
    collection.insert("alice".to_string(), entry("bob@example.com", "secret;pw"));
    collection.insert("Bank_2".to_string(), entry(";;", ""));
    collection.insert("x-y".to_string(), entry("tab\there", " spaced "));
    collection.insert("carol".to_string(), entry("c\rr", "#;#;###"));
    let text = convert_map_to_string(collection.clone());
    let decoded = decode(&text).unwrap();
    assert_eq!(decoded.ids(), collection.ids());
    for id in collection.ids() {
        assert_eq!(decoded.get(&id), collection.get(&id));
    }
}

#[test]
fn escaping_keeps_delimiters_in_fields() {
    let mut collection = CredentialCollection::new();
    collection.insert("alice".to_string(), entry("user;name", "pass;word;"));
    let text = convert_map_to_string(collection);
    assert_eq!(text.matches(';').count(), 2);
    let decoded = decode(&text).unwrap();
    assert_eq!(decoded.get("alice"), Some(&entry("user;name", "pass;word;")));
}

#[test]
fn a_newline_in_a_field_does_not_round_trip() {
    let mut collection = CredentialCollection::new();
    collection.insert("alice".to_string(), entry("user", "two\nlines"));
    let text = convert_map_to_string(collection);
    assert_eq!(decode(&text).err(), Some(MalformedRecord));
}

#[test]
fn a_sentinel_in_a_field_does_not_round_trip() {
    let mut collection = CredentialCollection::new();
    collection.insert("alice".to_string(), entry("user", "###semicolon###"));
    let decoded = decode(&convert_map_to_string(collection)).unwrap();
    assert_eq!(decoded.get("alice"), Some(&entry("user", ";")));
}
