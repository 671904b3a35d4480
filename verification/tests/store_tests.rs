use rustvault::args::{AddArgs, Commands, DeleteArgs, GetArgs, ModifyArgs, RustVaultArgs};
use rustvault::crypto::{encrypt_data, generate_key_from_password, DecryptError};
use rustvault::store::{
    add_credentials, change_master_password, delete_credentials, field_for_selection,
    generate_map_from_encrypted_data, get_credentials, list_credential_ids, modify_credentials,
    next_step, seal_collection, AddOutcome, DeleteOutcome, Field, ModifyOutcome, Step, VaultError,
};
use rustvault::{
    convert_map_to_string, create_credential_map_from_string, CredentialCollection,
    CredentialsEntry,
};

fn entry(username: &str, password: &str) -> CredentialsEntry {
    CredentialsEntry { username: username.to_string(), password: password.to_string() }
}

fn with_alice() -> CredentialCollection {
    let mut collection = CredentialCollection::new();
    let outcome = add_credentials(
        &mut collection,
        "alice",
        "bob@example.com".to_string(),
        "secret;pw".to_string(),
    );
    assert_eq!(outcome, AddOutcome::Added);
    collection
}

#[test]
fn crud_scenario() {
    let collection = with_alice();
    let text = convert_map_to_string(collection);
    let mut collection = create_credential_map_from_string(text).unwrap();
    assert_eq!(collection.len(), 1);
    assert_eq!(
        get_credentials(&collection, "alice"),
        Some(entry("bob@example.com", "secret;pw"))
    );
    assert_eq!(get_credentials(&collection, "alice").unwrap().password, "secret;pw");
    assert_eq!(delete_credentials(&mut collection, "bob", true), DeleteOutcome::NotFound);
    assert_eq!(collection.len(), 1);
    assert_eq!(list_credential_ids(&collection), vec!["alice"]);
}

#[test]
fn invalid_id_is_rejected() {
    let mut collection = CredentialCollection::new();
    let outcome = add_credentials(&mut collection, "bad id!", "u".to_string(), "p".to_string());
    assert_eq!(outcome, AddOutcome::InvalidId);
    assert!(collection.is_empty());
    let mut collection = with_alice();
    let outcome = add_credentials(&mut collection, "", "u".to_string(), "p".to_string());
    assert_eq!(outcome, AddOutcome::InvalidId);
    assert_eq!(list_credential_ids(&collection), vec!["alice"]);
}

#[test]
fn taken_id_is_rejected() {
    let mut collection = with_alice();
    let outcome = add_credentials(&mut collection, "alice", "eve".to_string(), "x".to_string());
    assert_eq!(outcome, AddOutcome::AlreadyExists);
    assert_eq!(
        get_credentials(&collection, "alice"),
        Some(entry("bob@example.com", "secret;pw"))
    );
}

#[test]
fn get_of_a_missing_id_is_none() {
    assert_eq!(get_credentials(&with_alice(), "bob"), None);
}

#[test]
fn delete_needs_confirmation() {
    let mut collection = with_alice();
    assert_eq!(delete_credentials(&mut collection, "alice", false), DeleteOutcome::Declined);
    assert_eq!(collection.len(), 1);
    assert_eq!(delete_credentials(&mut collection, "alice", true), DeleteOutcome::Deleted);
    assert!(collection.is_empty());
    assert_eq!(delete_credentials(&mut collection, "alice", false), DeleteOutcome::NotFound);
}

#[test]
fn modify_replaces_one_field_only() {
    let mut collection = with_alice();
    let outcome = modify_credentials(&mut collection, "alice", Field::Password, "new;pw".to_string());
    assert_eq!(outcome, ModifyOutcome::PasswordUpdated);
    assert_eq!(get_credentials(&collection, "alice"), Some(entry("bob@example.com", "new;pw")));
    let outcome = modify_credentials(&mut collection, "alice", Field::Username, "carol".to_string());
    assert_eq!(outcome, ModifyOutcome::UsernameUpdated);
    assert_eq!(get_credentials(&collection, "alice"), Some(entry("carol", "new;pw")));
    assert_eq!(collection.len(), 1);
}

#[test]
fn modify_of_a_missing_id_changes_nothing() {
    let mut collection = with_alice();
    let outcome = modify_credentials(&mut collection, "bob", Field::Password, "x".to_string());
    assert_eq!(outcome, ModifyOutcome::NotFound);
    assert_eq!(list_credential_ids(&collection), vec!["alice"]);
    assert_eq!(
        get_credentials(&collection, "alice"),
        Some(entry("bob@example.com", "secret;pw"))
    );
}

#[test]
fn selection_picks_the_field() {
    assert_eq!(field_for_selection(0), Some(Field::Password));
    assert_eq!(field_for_selection(1), Some(Field::Username));
    assert_eq!(field_for_selection(2), None);
    assert_eq!(field_for_selection(usize::MAX), None);
}

#[test]
fn list_is_in_ascending_order() {
    let mut collection = CredentialCollection::new();
    for id in ["carol", "alice", "bob"] {
        add_credentials(&mut collection, id, "u".to_string(), "p".to_string());
    }
    assert_eq!(list_credential_ids(&collection), vec!["alice", "bob", "carol"]);
}

#[test]
fn next_step_for_each_command() {
    let collection = with_alice();
    let alice = || "alice".to_string();
    let bob = || "bob".to_string();
    assert!(matches!(next_step(&collection, &None), Step::Nothing));
    match next_step(&collection, &Some(Commands::List)) {
        Step::ShowIds(ids) => assert_eq!(ids, vec!["alice"]),
        other => panic!("unexpected step {:?}", other),
    }
    match next_step(&collection, &Some(Commands::Get(GetArgs { id: alice() }))) {
        Step::ShowCredentials(found) => assert_eq!(found, entry("bob@example.com", "secret;pw")),
        other => panic!("unexpected step {:?}", other),
    }
    assert!(matches!(
        next_step(&collection, &Some(Commands::Get(GetArgs { id: bob() }))),
        Step::ReportMissing
    ));
    assert!(matches!(
        next_step(&collection, &Some(Commands::Add(AddArgs { id: bob() }))),
        Step::AskCredentials
    ));
    assert!(matches!(
        next_step(&collection, &Some(Commands::Add(AddArgs { id: alice() }))),
        Step::ReportExisting
    ));
    assert!(matches!(
        next_step(&collection, &Some(Commands::Add(AddArgs { id: "bad id!".to_string() }))),
        Step::ReportInvalidId
    ));
    assert!(matches!(
        next_step(&collection, &Some(Commands::Delete(DeleteArgs { id: alice() }))),
        Step::AskDeleteConfirmation
    ));
    assert!(matches!(
        next_step(&collection, &Some(Commands::Delete(DeleteArgs { id: bob() }))),
        Step::ReportMissing
    ));
    assert!(matches!(
        next_step(&collection, &Some(Commands::Modify(ModifyArgs { id: alice() }))),
        Step::AskModification
    ));
    assert!(matches!(
        next_step(&collection, &Some(Commands::Modify(ModifyArgs { id: bob() }))),
        Step::ReportMissing
    ));
    assert!(matches!(
        next_step(&collection, &Some(Commands::ChangePassword)),
        Step::AskNewMasterPassword
    ));
}

#[test]
fn arguments_hold_the_command() {
    let args = RustVaultArgs { command: Some(Commands::Get(GetArgs { id: "alice".to_string() })) };
    match args.command {
        Some(Commands::Get(get)) => assert_eq!(get.id, "alice"),
        other => panic!("unexpected command {:?}", other),
    }
}

#[test]
fn no_stored_bytes_are_an_empty_vault() {
    let key = generate_key_from_password("master");
    let collection = generate_map_from_encrypted_data(Vec::new(), &key).unwrap();
    assert!(collection.is_empty());
}

#[test]
fn sealed_collection_loads_back() {
    let key = generate_key_from_password("master");
    let mut collection = with_alice();
    add_credentials(&mut collection, "Bank_2", ";;".to_string(), String::new());
    let blob = seal_collection(collection.clone(), &key).unwrap();
    let loaded = generate_map_from_encrypted_data(blob, &key).unwrap();
    assert_eq!(list_credential_ids(&loaded), vec!["Bank_2", "alice"]);
    assert_eq!(get_credentials(&loaded, "alice"), get_credentials(&collection, "alice"));
    assert_eq!(get_credentials(&loaded, "Bank_2"), Some(entry(";;", "")));
}

#[test]
fn sealed_empty_collection_loads_back() {
    let key = generate_key_from_password("master");
    let blob = seal_collection(CredentialCollection::new(), &key).unwrap();
    assert_eq!(blob.len(), 28);
    assert!(generate_map_from_encrypted_data(blob, &key).unwrap().is_empty());
}

#[test]
fn sealing_twice_gives_different_blobs() {
    let key = generate_key_from_password("master");
    let first = seal_collection(with_alice(), &key).unwrap();
    let second = seal_collection(with_alice(), &key).unwrap();
    assert_ne!(first, second);
}

#[test]
fn load_reports_why_it_failed() {
    let key = generate_key_from_password("master");
    let other = generate_key_from_password("other");
    let blob = seal_collection(with_alice(), &key).unwrap();
    assert_eq!(
        generate_map_from_encrypted_data(blob, &other).err(),
        Some(VaultError::Decrypt(DecryptError::AuthenticationFailed))
    );
    assert_eq!(
        generate_map_from_encrypted_data(vec![1, 2, 3], &key).err(),
        Some(VaultError::Decrypt(DecryptError::InsufficientData))
    );
    let not_records = encrypt_data("alice;bob".to_string(), &key);
    assert_eq!(
        generate_map_from_encrypted_data(not_records, &key).err(),
        Some(VaultError::MalformedRecord)
    );
}

#[test]
fn changed_master_password_opens_what_it_sealed() {
    let old_key = generate_key_from_password("old");
    let new_key = change_master_password("new");
    let blob = seal_collection(with_alice(), &new_key).unwrap();
    assert_eq!(
        generate_map_from_encrypted_data(blob.clone(), &old_key).err(),
        Some(VaultError::Decrypt(DecryptError::AuthenticationFailed))
    );
    let same_key = generate_key_from_password("new");
    let loaded = generate_map_from_encrypted_data(blob, &same_key).unwrap();
    assert_eq!(list_credential_ids(&loaded), vec!["alice"]);
}

#[test]
fn vault_error_messages() {
    assert_eq!(
        VaultError::Decrypt(DecryptError::AuthenticationFailed).message(),
        "Master password is incorrect"
    );
    assert_eq!(VaultError::MalformedRecord.message(), "Stored data holds a malformed record");
}

#[test]
fn command_names_its_id() {
    assert_eq!(Commands::Add(AddArgs { id: "a".to_string() }).id(), Some(&"a".to_string()));
    assert_eq!(Commands::Get(GetArgs { id: "b".to_string() }).id(), Some(&"b".to_string()));
    assert_eq!(Commands::Modify(ModifyArgs { id: "c".to_string() }).id(), Some(&"c".to_string()));
    assert_eq!(Commands::Delete(DeleteArgs { id: "d".to_string() }).id(), Some(&"d".to_string()));
    assert_eq!(Commands::List.id(), None);
    assert_eq!(Commands::ChangePassword.id(), None);
}
