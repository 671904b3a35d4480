//! An encrypted, single-user credential vault: the record format, the
//! sealed-blob layout and the operations on the in-memory collection.

pub mod args;
pub mod codec;
pub mod collection;
pub mod crypto;
pub mod escape;
pub mod store;
pub mod text;

pub use codec::{convert_map_to_string, create_credential_map_from_string};
pub use collection::{CredentialCollection, CredentialsEntry};
pub use escape::{escape_semicolons, unescape_semicolons};
