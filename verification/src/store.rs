//! The credential store: loading a vault, deciding what a command needs,
//! applying one operation to the collection, and sealing it again.

use vstd::prelude::*;
use vstd::utf8::encode_utf8;
use crate::args::Commands;
use crate::codec::{
    convert_map_to_string, create_credential_map_from_string, decode_spec, encode_spec,
    lemma_decode_encode, storable, MalformedRecord,
};
use crate::collection::{
    ids_of, is_valid_id, strings_view, valid_id, CredentialCollection, CredentialsEntry,
    EntryView, RecordView,
};
use crate::crypto::{
    decrypt_data, decrypt_spec, encrypt_data, generate_key_from_password, key_spec, sealed_blob,
    DecryptError, EncryptionKey, MAX_PLAINTEXT_LEN,
};

verus! {

/// Why a vault could not be loaded.
#[derive(Debug, Clone, Copy, PartialEq, Eq, Structural)]
pub enum VaultError {
    /// The stored blob could not be opened.
    Decrypt(DecryptError),
    /// The opened text holds a line that is not a record.
    MalformedRecord,
}

impl VaultError {
    /// The message that describes the error to the user.
    pub open spec fn message_spec(self) -> Seq<char> {
        match self {
            VaultError::Decrypt(e) => e.message_spec(),
            VaultError::MalformedRecord => "Stored data holds a malformed record"@,
        }
    }

    /// The message that describes the error to the user.
    pub fn message(&self) -> (text: String)
        ensures
            text@ == self.message_spec(),
    {
        match self {
            VaultError::Decrypt(e) => e.message(),
            VaultError::MalformedRecord => "Stored data holds a malformed record".to_owned(),
        }
    }
}

/// The field of an entry that a modification replaces.
#[derive(Debug, Clone, Copy, PartialEq, Eq, Structural)]
pub enum Field {
    Password,
    Username,
}

/// How an attempt to add credentials ended.
#[derive(Debug, Clone, Copy, PartialEq, Eq, Structural)]
pub enum AddOutcome {
    /// The entry was stored.
    Added,
    /// The id is empty or holds a character other than a letter, a digit,
    /// `-` or `_`. Nothing was stored.
    InvalidId,
    /// The id is taken. Nothing was stored.
    AlreadyExists,
}

/// How an attempt to delete credentials ended.
#[derive(Debug, Clone, Copy, PartialEq, Eq, Structural)]
pub enum DeleteOutcome {
    /// The entry was removed.
    Deleted,
    /// Nothing is stored under the id.
    NotFound,
    /// The user did not confirm. Nothing was removed.
    Declined,
}

/// How an attempt to modify credentials ended.
#[derive(Debug, Clone, Copy, PartialEq, Eq, Structural)]
pub enum ModifyOutcome {
    /// The password was replaced and the username kept.
    PasswordUpdated,
    /// The username was replaced and the password kept.
    UsernameUpdated,
    /// Nothing is stored under the id.
    NotFound,
}

/// What an invocation does next, before anything is asked of the user.
#[derive(Debug, Clone)]
pub enum Step {
    /// There is no command: go on to save.
    Nothing,
    /// Show these ids, which are in ascending order.
    ShowIds(Vec<String>),
    /// Show the username of this entry and hand its password to the
    /// clipboard.
    ShowCredentials(CredentialsEntry),
    /// Tell the user that nothing is stored under the id.
    ReportMissing,
    /// Tell the user that the id is not valid.
    ReportInvalidId,
    /// Tell the user that the id is taken.
    ReportExisting,
    /// Ask for a username and a password, then add them.
    AskCredentials,
    /// Ask whether the entry is to be deleted, then delete it.
    AskDeleteConfirmation,
    /// Ask which field is to be replaced and for its new value, then modify.
    AskModification,
    /// Ask for a new master password, then change the key.
    AskNewMasterPassword,
}

/// What loading `blob` with `key` gives: no stored bytes are an empty vault,
/// anything else must open and decode.
pub open spec fn load_spec(blob: Seq<u8>, key: Seq<u8>) -> Result<
    Map<Seq<char>, EntryView>,
    VaultError,
> {
    if blob.len() == 0 {
        Ok(Map::empty())
    } else {
        match decrypt_spec(blob, key) {
            Err(e) => Err(VaultError::Decrypt(e)),
            Ok(text) => match decode_spec(text) {
                Ok(m) => Ok(m),
                Err(_) => Err(VaultError::MalformedRecord),
            },
        }
    }
}

/// Whether `step` is what `command` needs on a collection with the given
/// records.
pub open spec fn step_fits(step: Step, records: Seq<RecordView>, command: Option<Commands>) -> bool {
    let map = crate::collection::mapping(records);
    match command {
        None => step is Nothing,
        Some(Commands::List) => step matches Step::ShowIds(ids) && strings_view(ids@) == ids_of(
            records,
        ),
        Some(Commands::Get(args)) => if map.contains_key(args.id@) {
            step matches Step::ShowCredentials(entry) && entry@ == map[args.id@]
        } else {
            step is ReportMissing
        },
        Some(Commands::Add(args)) => if !valid_id(args.id@) {
            step is ReportInvalidId
        } else if map.contains_key(args.id@) {
            step is ReportExisting
        } else {
            step is AskCredentials
        },
        Some(Commands::Delete(args)) => if map.contains_key(args.id@) {
            step is AskDeleteConfirmation
        } else {
            step is ReportMissing
        },
        Some(Commands::Modify(args)) => if map.contains_key(args.id@) {
            step is AskModification
        } else {
            step is ReportMissing
        },
        Some(Commands::ChangePassword) => step is AskNewMasterPassword,
    }
}

/// Loads the collection from the stored bytes. No bytes at all are an empty
/// vault; anything else is opened with `key` and decoded.
pub fn generate_map_from_encrypted_data(data: Vec<u8>, key: &EncryptionKey) -> (r: Result<
    CredentialCollection,
    VaultError,
>)
    ensures
        match load_spec(data@, key@) {
            Ok(m) => r matches Ok(c) && c.wf() && c.map() == m,
            Err(e) => r matches Err(f) && f == e,
        },
{
    if data.len() == 0 {
        return Ok(CredentialCollection::new());
    }
    match decrypt_data(data, key) {
        Err(e) => Err(VaultError::Decrypt(e)),
        Ok(text) => match create_credential_map_from_string(text) {
            Ok(collection) => Ok(collection),
            Err(_) => Err(VaultError::MalformedRecord),
        },
    }
}

/// Decides what `command` needs on `collection` before the user is asked
/// anything: what to show, what to report, or what to ask.
pub fn next_step(collection: &CredentialCollection, command: &Option<Commands>) -> (step: Step)
    requires
        collection.wf(),
    ensures
        step_fits(step, collection@, *command),
{
    match command {
        None => Step::Nothing,
        Some(Commands::List) => Step::ShowIds(list_credential_ids(collection)),
        Some(Commands::Get(args)) => match get_credentials(collection, args.id.as_str()) {
            Some(entry) => Step::ShowCredentials(entry),
            None => Step::ReportMissing,
        },
        Some(Commands::Add(args)) => {
            if !is_valid_id(args.id.as_str()) {
                Step::ReportInvalidId
            } else if collection.contains_key(args.id.as_str()) {
                Step::ReportExisting
            } else {
                Step::AskCredentials
            }
        },
        Some(Commands::Delete(args)) => {
            if collection.contains_key(args.id.as_str()) {
                Step::AskDeleteConfirmation
            } else {
                Step::ReportMissing
            }
        },
        Some(Commands::Modify(args)) => {
            if collection.contains_key(args.id.as_str()) {
                Step::AskModification
            } else {
                Step::ReportMissing
            }
        },
        Some(Commands::ChangePassword) => Step::AskNewMasterPassword,
    }
}

/// The ids of the collection in ascending order.
pub fn list_credential_ids(collection: &CredentialCollection) -> (ids: Vec<String>)
    ensures
        strings_view(ids@) == ids_of(collection@),
{
    collection.ids()
}

/// A copy of the entry stored under `id`, if there is one.
pub fn get_credentials(collection: &CredentialCollection, id: &str) -> (found: Option<
    CredentialsEntry,
>)
    requires
        collection.wf(),
    ensures
        found is Some == collection.map().contains_key(id@),
        found matches Some(entry) ==> entry@ == collection.map()[id@],
{
    match collection.get(id) {
        Some(entry) => Some(entry.duplicate()),
        None => None,
    }
}

/// Stores `username` and `password` under `id`, unless the id is not valid
/// or is taken: then the collection stays as it is.
pub fn add_credentials(
    collection: &mut CredentialCollection,
    id: &str,
    username: String,
    password: String,
) -> (outcome: AddOutcome)
    requires
        old(collection).wf(),
    ensures
        final(collection).wf(),
        outcome == (if !valid_id(id@) {
            AddOutcome::InvalidId
        } else if old(collection).map().contains_key(id@) {
            AddOutcome::AlreadyExists
        } else {
            AddOutcome::Added
        }),
        outcome == AddOutcome::Added ==> final(collection).map() == old(collection).map().insert(
            id@,
            EntryView { username: username@, password: password@ },
        ),
        outcome != AddOutcome::Added ==> final(collection)@ == old(collection)@,
{
    if !is_valid_id(id) {
        return AddOutcome::InvalidId;
    }
    if collection.contains_key(id) {
        return AddOutcome::AlreadyExists;
    }
    collection.insert(id.to_owned(), CredentialsEntry { username, password });
    AddOutcome::Added
}

/// Removes the entry stored under `id` if there is one and the user has
/// confirmed; otherwise the collection stays as it is.
pub fn delete_credentials(collection: &mut CredentialCollection, id: &str, confirmed: bool) -> (outcome:
    DeleteOutcome)
    requires
        old(collection).wf(),
    ensures
        final(collection).wf(),
        outcome == (if !old(collection).map().contains_key(id@) {
            DeleteOutcome::NotFound
        } else if confirmed {
            DeleteOutcome::Deleted
        } else {
            DeleteOutcome::Declined
        }),
        outcome == DeleteOutcome::Deleted ==> final(collection).map() == old(
            collection,
        ).map().remove(id@),
        outcome != DeleteOutcome::Deleted ==> final(collection)@ == old(collection)@,
{
    if !collection.contains_key(id) {
        return DeleteOutcome::NotFound;
    }
    if !confirmed {
        return DeleteOutcome::Declined;
    }
    collection.remove(id);
    DeleteOutcome::Deleted
}

/// The field that the user picked from the list `password`, `username`.
pub fn field_for_selection(selection: usize) -> (field: Option<Field>)
    ensures
        field == (if selection == 0 {
            Some(Field::Password)
        } else if selection == 1 {
            Some(Field::Username)
        } else {
            None
        }),
{
    if selection == 0 {
        Some(Field::Password)
    } else if selection == 1 {
        Some(Field::Username)
    } else {
        None
    }
}

/// What an entry becomes when `field` is replaced by `value`.
pub open spec fn modified(entry: EntryView, field: Field, value: Seq<char>) -> EntryView {
    match field {
        Field::Password => EntryView { username: entry.username, password: value },
        Field::Username => EntryView { username: value, password: entry.password },
    }
}

/// Replaces one field of the entry stored under `id` and leaves the other
/// untouched. Where nothing is stored under `id` the collection stays as it
/// is.
pub fn modify_credentials(
    collection: &mut CredentialCollection,
    id: &str,
    field: Field,
    value: String,
) -> (outcome: ModifyOutcome)
    requires
        old(collection).wf(),
    ensures
        final(collection).wf(),
        outcome == (if !old(collection).map().contains_key(id@) {
            ModifyOutcome::NotFound
        } else if field == Field::Password {
            ModifyOutcome::PasswordUpdated
        } else {
            ModifyOutcome::UsernameUpdated
        }),
        outcome == ModifyOutcome::NotFound ==> final(collection)@ == old(collection)@,
        outcome != ModifyOutcome::NotFound ==> final(collection).map() == old(
            collection,
        ).map().insert(id@, modified(old(collection).map()[id@], field, value@)),
{
    match collection.remove(id) {
        None => {
            proof {
                assert(collection.map() =~= old(collection).map());
                crate::collection::lemma_ascending_unique(collection@, old(collection)@);
            }
            ModifyOutcome::NotFound
        },
        Some(entry) => {
            let ghost target = old(collection).map().insert(
                id@,
                modified(old(collection).map()[id@], field, value@),
            );
            match field {
                Field::Password => {
                    collection.insert(
                        id.to_owned(),
                        CredentialsEntry { username: entry.username, password: value },
                    );
                    assert(collection.map() =~= target);
                    ModifyOutcome::PasswordUpdated
                },
                Field::Username => {
                    collection.insert(
                        id.to_owned(),
                        CredentialsEntry { username: value, password: entry.password },
                    );
                    assert(collection.map() =~= target);
                    ModifyOutcome::UsernameUpdated
                },
            }
        },
    }
}

/// The key that belongs to a new master password. The collection is sealed
/// with it from then on.
pub fn change_master_password(password: &str) -> (key: EncryptionKey)
    ensures
        key@ == key_spec(password@),
{
    generate_key_from_password(password)
}

/// Seals the collection for storage: encodes it and encrypts the text under
/// `key` with a fresh nonce. There is no blob where the text is longer than
/// can be sealed. A collection of storable records loads back from the blob
/// as it was.
pub fn seal_collection(collection: CredentialCollection, key: &EncryptionKey) -> (sealed: Option<
    Vec<u8>,
>)
    ensures
        sealed is Some <==> encode_utf8(encode_spec(collection@)).len() <= MAX_PLAINTEXT_LEN,
        sealed matches Some(blob) ==> {
            &&& exists|nonce: Seq<u8>|
                nonce.len() == 12 && blob@ == #[trigger] sealed_blob(
                    encode_utf8(encode_spec(collection@)),
                    key@,
                    nonce,
                )
            &&& decrypt_spec(blob@, key@) == Ok::<_, DecryptError>(encode_spec(collection@))
            &&& (forall|i: int| 0 <= i < collection@.len() ==> storable(#[trigger] collection@[i]))
                ==> load_spec(blob@, key@) == Ok::<_, VaultError>(collection.map())
        },
{
    let ghost records = collection@;
    let text = convert_map_to_string(collection);
    if text.as_str().as_bytes().len() as u64 > MAX_PLAINTEXT_LEN {
        return None;
    }
    let blob = encrypt_data(text, key);
    proof {
        if forall|i: int| 0 <= i < records.len() ==> storable(#[trigger] records[i]) {
            lemma_decode_encode(records);
        }
        let nonce = choose|nonce: Seq<u8>|
            nonce.len() == 12 && blob@ == #[trigger] sealed_blob(
                encode_utf8(encode_spec(records)),
                key@,
                nonce,
            );
        assert(blob@.len() >= 12);
    }
    Some(blob)
}

} // verus!
