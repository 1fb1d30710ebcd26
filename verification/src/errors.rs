//! The error taxonomy of the engine: per-line codec failures, query
//! failures, and resolution failures.
use crate::text::field_ok;
use vstd::prelude::*;

verus! {

#[derive(Clone, Copy, Debug, PartialEq, Eq, Structural)]
pub enum GopherError {
    /// A record line with too few tab-delimited fields, or with a stray
    /// CR/LF inside a field.
    MalformedEntry,
    /// A record line whose port field is not a decimal number of at most
    /// 65535.
    InvalidPort,
    /// The requested directory itself could not be opened or enumerated.
    DirectoryUnreadable,
    /// A search query whose operators lack operands, or with no terms.
    InvalidQuery,
    /// A selector that would resolve outside the content root.
    PathEscape,
    /// A request line that is empty without being the canonical root
    /// request.
    InvalidRequest,
}

/// Human-readable one-line description of each failure.
pub open spec fn err_text(e: GopherError) -> Seq<char> {
    match e {
        GopherError::MalformedEntry => "malformed directory entry"@,
        GopherError::InvalidPort => "invalid port number"@,
        GopherError::DirectoryUnreadable => "directory unreadable"@,
        GopherError::InvalidQuery => "invalid search query"@,
        GopherError::PathEscape => "selector escapes the content root"@,
        GopherError::InvalidRequest => "invalid request"@,
    }
}

/// The description of every failure is free of tabs, CR and LF, so it can
/// stand as the description field of an error listing line.
pub proof fn lemma_err_text_clean(e: GopherError)
    ensures
        field_ok(err_text(e)),
{
    reveal_strlit("malformed directory entry");
    reveal_strlit("invalid port number");
    reveal_strlit("directory unreadable");
    reveal_strlit("invalid search query");
    reveal_strlit("selector escapes the content root");
    reveal_strlit("invalid request");
}

impl GopherError {
    /// The description as an owned string, for rendering and logging.
    pub fn message(&self) -> (r: String)
        ensures
            r@ == err_text(*self),
    {
        match *self {
            GopherError::MalformedEntry => String::from_str("malformed directory entry"),
            GopherError::InvalidPort => String::from_str("invalid port number"),
            GopherError::DirectoryUnreadable => String::from_str("directory unreadable"),
            GopherError::InvalidQuery => String::from_str("invalid search query"),
            GopherError::PathEscape => String::from_str("selector escapes the content root"),
            GopherError::InvalidRequest => String::from_str("invalid request"),
        }
    }
}

} // verus!
