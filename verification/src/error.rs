//! Error categories surfaced by the write-ahead log.

use vstd::prelude::*;

verus! {

/// The kind of an I/O failure, as far as the log logic distinguishes them.
/// The log itself only ever produces `UnexpectedEof` (a record runs past
/// the end of its file); other kinds come from the surrounding
/// application when it maps file-system failures into [`Error::Io`].
#[derive(Clone, PartialEq, Eq, Structural, Debug)]
pub enum IoErrorKind {
    UnexpectedEof,
    Other,
}

/// An error surfaced by the write-ahead log.
#[derive(Debug)]
pub enum Error {
    Io(IoErrorKind),
    Corruption(String),
    InvalidConfiguration(String),
    InvalidInput(String),
    Background(String),
    Locked(String),
    Migration(String),
}

impl Error {
    /// Whether this error is an unexpected end-of-file; replay treats it
    /// as a clean end of the log rather than a failure.
    pub fn is_unexpected_eof(&self) -> (r: bool)
        ensures
            r == (self is Io && self->Io_0 is UnexpectedEof),
    {
        match self {
            Error::Io(IoErrorKind::UnexpectedEof) => true,
            _ => false,
        }
    }

    /// A human-readable rendering of the error category and its detail:
    /// a fixed prefix per category, followed by the detail text.
    pub fn display_string(&self) -> (r: String)
        ensures
            r@ == (match self {
                Error::Io(k) => if k is UnexpectedEof {
                    "IO Error: unexpected end of file"@
                } else {
                    "IO Error"@
                },
                Error::Corruption(e) => "Corruption: "@ + e@,
                Error::InvalidConfiguration(e) => "Invalid configuration: "@ + e@,
                Error::InvalidInput(e) => "Invalid input: "@ + e@,
                Error::Background(e) => "Background worker error: "@ + e@,
                Error::Locked(e) => "Database file is in use. ("@ + e@ + ")"@,
                Error::Migration(e) => "Migration error: "@ + e@,
            }),
    {
        broadcast use vstd::string::to_string_from_display_ensures_for_str;

        match self {
            Error::Io(IoErrorKind::UnexpectedEof) => "IO Error: unexpected end of file".to_string(),
            Error::Io(IoErrorKind::Other) => "IO Error".to_string(),
            Error::Corruption(e) => {
                let mut s = "Corruption: ".to_string();
                s.append(e.as_str());
                s
            },
            Error::InvalidConfiguration(e) => {
                let mut s = "Invalid configuration: ".to_string();
                s.append(e.as_str());
                s
            },
            Error::InvalidInput(e) => {
                let mut s = "Invalid input: ".to_string();
                s.append(e.as_str());
                s
            },
            Error::Background(e) => {
                let mut s = "Background worker error: ".to_string();
                s.append(e.as_str());
                s
            },
            Error::Locked(e) => {
                let mut s = "Database file is in use. (".to_string();
                s.append(e.as_str());
                s.append(")");
                s
            },
            Error::Migration(e) => {
                let mut s = "Migration error: ".to_string();
                s.append(e.as_str());
                s
            },
        }
    }
}

} // verus!
