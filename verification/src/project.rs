//! Recognising a project file by the two numbers in its header.

use vstd::prelude::*;

verus! {

/// Marks a file as a project file of this application.
pub const APPLICATION_ID: u32 = 0xb34c14;

/// Changes whenever the layout of a project file changes.
pub const FILE_FORMAT_VERSION: i64 = 2;

/// Why an existing file cannot be used as a project file.
#[derive(Debug, PartialEq, Eq, Structural)]
pub enum FileHeaderError {
    /// Another application created the file.
    WrongApplicationId,
    /// The file was written in another layout.
    IncompatibleFileVersion,
}

/// Accepts a file whose header carries this application's id and the current
/// layout version; the id is checked first.
pub fn check_file_header(application_id: u32, user_version: i64) -> (r: Result<(), FileHeaderError>)
    ensures
        r == (if application_id != APPLICATION_ID {
            Err(FileHeaderError::WrongApplicationId)
        } else if user_version != FILE_FORMAT_VERSION {
            Err(FileHeaderError::IncompatibleFileVersion)
        } else {
            Ok(())
        }),
{
    if application_id != APPLICATION_ID {
        return Err(FileHeaderError::WrongApplicationId);
    }
    if user_version != FILE_FORMAT_VERSION {
        return Err(FileHeaderError::IncompatibleFileVersion);
    }
    Ok(())
}

} // verus!
