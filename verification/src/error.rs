//! The ways in which a command can fail.

use vstd::prelude::*;
use vstd::string::*;

verus! {

/// Why a command did not go through.
#[derive(Clone, Copy, Debug, PartialEq, Eq, Structural)]
pub enum KpvError {
    /// The user's home directory is not known.
    HomeNotFound,
    /// The working directory is unknown or has no final component.
    InvalidWorkingDirectory,
    /// The working directory's name is not UTF-8 text.
    NonTextDirectoryName,
    /// `save` found no `.env` file to copy.
    SourceNotFound,
    /// `link` found no stored file under the key.
    StoredFileNotFound,
    /// `link` found a `.env` already in place.
    DestinationExists,
    /// `delete` found no directory for the key.
    KeyNotFound,
    /// The file system refused a step.
    Io,
}

impl KpvError {
    /// The text shown to the user for each failure.
    pub open spec fn message_text(self) -> Seq<char> {
        match self {
            KpvError::HomeNotFound => "Could not determine home directory"@,
            KpvError::InvalidWorkingDirectory => "Could not determine current directory name"@,
            KpvError::NonTextDirectoryName => "Current directory name is not valid UTF-8"@,
            KpvError::SourceNotFound => "No .env file found in current directory"@,
            KpvError::StoredFileNotFound => "No saved .env file for this key"@,
            KpvError::DestinationExists => ".env file already exists in current directory"@,
            KpvError::KeyNotFound => "No such key in the vault"@,
            KpvError::Io => "The file system refused the operation"@,
        }
    }

    /// Renders the failure for the user.
    pub fn message(&self) -> (text: String)
        ensures
            text@ == self.message_text(),
    {
        match self {
            KpvError::HomeNotFound => String::from_str("Could not determine home directory"),
            KpvError::InvalidWorkingDirectory => String::from_str(
                "Could not determine current directory name",
            ),
            KpvError::NonTextDirectoryName => String::from_str(
                "Current directory name is not valid UTF-8",
            ),
            KpvError::SourceNotFound => String::from_str("No .env file found in current directory"),
            KpvError::StoredFileNotFound => String::from_str("No saved .env file for this key"),
            KpvError::DestinationExists => String::from_str(
                ".env file already exists in current directory",
            ),
            KpvError::KeyNotFound => String::from_str("No such key in the vault"),
            KpvError::Io => String::from_str("The file system refused the operation"),
        }
    }
}

} // verus!
