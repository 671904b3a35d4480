//! The commands of the vault and their arguments, as plain values.

use vstd::prelude::*;

verus! {

/// The arguments of one invocation.
#[derive(Debug, Clone)]
pub struct RustVaultArgs {
    pub command: Option<Commands>,
}

/// What an invocation is asked to do.
#[derive(Debug, Clone)]
pub enum Commands {
    /// Add login credentials
    Add(AddArgs),
    /// Get login credentials by an ID
    Get(GetArgs),
    /// Modify login credentials
    Modify(ModifyArgs),
    /// Delete login credentials
    Delete(DeleteArgs),
    /// List all IDs
    List,
    /// Change Master Password
    ChangePassword,
}

/// The id under which credentials are added.
#[derive(Debug, Clone)]
pub struct AddArgs {
    pub id: String,
}

/// The id whose credentials are deleted.
#[derive(Debug, Clone)]
pub struct DeleteArgs {
    pub id: String,
}

/// The id whose credentials are shown.
#[derive(Debug, Clone)]
pub struct GetArgs {
    pub id: String,
}

/// The id whose credentials are modified.
#[derive(Debug, Clone)]
pub struct ModifyArgs {
    pub id: String,
}

impl Commands {
    /// The id that the command names, if it names one.
    pub open spec fn id_spec(self) -> Option<Seq<char>> {
        match self {
            Commands::Add(args) => Some(args.id@),
            Commands::Get(args) => Some(args.id@),
            Commands::Modify(args) => Some(args.id@),
            Commands::Delete(args) => Some(args.id@),
            Commands::List => None,
            Commands::ChangePassword => None,
        }
    }

    /// The id that the command names, if it names one.
    pub fn id(&self) -> (id: Option<&String>)
        ensures
            match self.id_spec() {
                Some(named) => id matches Some(s) && s@ == named,
                None => id is None,
            },
    {
        match self {
            Commands::Add(args) => Some(&args.id),
            Commands::Get(args) => Some(&args.id),
            Commands::Modify(args) => Some(&args.id),
            Commands::Delete(args) => Some(&args.id),
            Commands::List => None,
            Commands::ChangePassword => None,
        }
    }
}

} // verus!
