//! The ways in which a request on the directory is turned down.

use vstd::prelude::*;
use vstd::string::StringExecFns;

verus! {

/// Why a request was turned down.  Nothing is changed when one is returned.
#[derive(Debug, PartialEq, Eq)]
pub enum SwitchError {
    /// Cycling was asked for with fewer than two aliases.
    InsufficientAliases,
    /// A rename was asked for with the old name as the new one.
    IdenticalNames,
    /// A rename was asked for to a name that is already listed.
    AliasExists { alias: String },
    /// The token that was entered holds nothing but whitespace.
    EmptyToken,
}

impl SwitchError {
    /// The message shown to the user.
    pub open spec fn message(&self) -> Seq<char> {
        match self {
            SwitchError::InsufficientAliases => {
                "need at least 2 aliases to cycle; add more with 'set <alias>'"@
            },
            SwitchError::IdenticalNames => "old and new alias are identical"@,
            SwitchError::AliasExists { alias } => "alias '"@ + alias@ + "' already exists"@,
            SwitchError::EmptyToken => "token is empty"@,
        }
    }

    /// The message shown to the user.
    pub fn to_string(&self) -> (text: String)
        ensures
            text@ == self.message(),
    {
        match self {
            SwitchError::InsufficientAliases => {
                "need at least 2 aliases to cycle; add more with 'set <alias>'".to_owned()
            },
            SwitchError::IdenticalNames => "old and new alias are identical".to_owned(),
            SwitchError::AliasExists { alias } => {
                "alias '".to_owned().concat(alias.as_str()).concat("' already exists")
            },
            SwitchError::EmptyToken => "token is empty".to_owned(),
        }
    }
}

} // verus!
