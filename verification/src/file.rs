//! Files that commands read from or write to.

use vstd::prelude::*;

verus! {

/// How a redirection file is opened.
#[derive(Debug, Clone, Copy, PartialEq, Eq, Structural)]
pub enum FileMode {
    Open,
    Write,
    Append,
    Read,
}

/// Why a file could not be used.
#[derive(Debug, PartialEq)]
pub enum FileError {
    UnknownFileMode,
    FileNotFound,
    PathError,
    /// The system refused the file; the text is its description.
    IOError(String),
}

/// The options a file is opened with.
#[derive(Debug, Clone, Copy, PartialEq, Eq, Structural)]
pub struct OpenFlags {
    pub read: bool,
    pub write: bool,
    pub create: bool,
    pub append: bool,
}

/// The options of each mode: writing creates the file and writes from its
/// start, appending creates it and writes at its end, reading only reads;
/// the mode `Open` names no way of opening.
pub open spec fn open_flags_spec(mode: FileMode) -> Option<OpenFlags> {
    match mode {
        FileMode::Write => Some(OpenFlags { read: false, write: true, create: true, append: false }),
        FileMode::Append => Some(OpenFlags { read: false, write: true, create: true, append: true }),
        FileMode::Read => Some(OpenFlags { read: true, write: false, create: false, append: false }),
        FileMode::Open => None,
    }
}

/// The options that `open_file` uses for a mode, or `UnknownFileMode`.
pub fn open_options(mode: FileMode) -> (r: Result<OpenFlags, FileError>)
    ensures
        match open_flags_spec(mode) {
            Some(f) => r == Ok::<OpenFlags, FileError>(f),
            None => r matches Err(FileError::UnknownFileMode),
        },
{
    match mode {
        FileMode::Write => Ok(OpenFlags { read: false, write: true, create: true, append: false }),
        FileMode::Append => Ok(OpenFlags { read: false, write: true, create: true, append: true }),
        FileMode::Read => Ok(OpenFlags { read: true, write: false, create: false, append: false }),
        _ => Err(FileError::UnknownFileMode),
    }
}


impl FileError {
    /// The text that describes the error.
    pub open spec fn message_spec(&self) -> Seq<char> {
        match self {
            FileError::UnknownFileMode => "UnknownFileMode provided"@,
            FileError::FileNotFound => "FileNotFound: verify Path"@,
            FileError::PathError => "PathError: Invalid Path"@,
            FileError::IOError(e) => "File IOError: "@ + e@,
        }
    }

    /// The text that describes the error.
    pub fn message(&self) -> (r: String)
        ensures
            r@ == self.message_spec(),
    {
        match self {
            FileError::UnknownFileMode => "UnknownFileMode provided".to_owned(),
            FileError::FileNotFound => "FileNotFound: verify Path".to_owned(),
            FileError::PathError => "PathError: Invalid Path".to_owned(),
            FileError::IOError(e) => {
                let mut r = "File IOError: ".to_owned();
                r.append(e.as_str());
                r
            },
        }
    }
}

} // verus!
