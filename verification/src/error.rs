//! The error kinds a conversion can end with. Every kind is terminal: the
//! first violation found stops the scan and the whole call fails.

use vstd::prelude::*;

verus! {

/// A conversion result with the returned text seen as its character
/// sequence.
pub open spec fn result_chars(r: Result<String, MxmlError>) -> Result<Seq<char>, MxmlError> {
    match r {
        Result::Ok(s) => Result::Ok(s@),
        Result::Err(e) => Result::Err(e),
    }
}

/// Why a conversion failed. Each variant that is detected at a particular
/// character carries the index (into the decoded character sequence) at which
/// the scan stopped.
#[derive(Clone, Copy, Debug, PartialEq, Eq, Structural)]
pub enum MxmlError {
    /// The tag scanner could not locate a well-formed tag at the position
    /// where one was required.
    MalformedTag { index: usize },
    /// A `{` has no valid start tag directly before it.
    UnresolvedScopeOwner { index: usize },
    /// The tag directly before a `{` is a void element, which may not own a
    /// scope.
    VoidElementScopeViolation { index: usize },
    /// A `}` appeared while no scope was open.
    UnmatchedClosingScope { index: usize },
    /// An end tag appeared while no start tag was open.
    ExtraEndTag { index: usize },
    /// An end tag's name differs from the innermost open start tag's name.
    MismatchedEndTag { index: usize },
    /// The input ended while one or more start tags were still open.
    UnmatchedStartTags,
}

impl MxmlError {
    /// A short description of the error, for callers that present it.
    pub fn kind_name(&self) -> (r: &'static str)
        ensures
            r@ == self.spec_kind_name(),
    {
        match self {
            MxmlError::MalformedTag { .. } => "malformed tag",
            MxmlError::UnresolvedScopeOwner { .. } => "unresolved scope owner",
            MxmlError::VoidElementScopeViolation { .. } => "void element scope violation",
            MxmlError::UnmatchedClosingScope { .. } => "unmatched closing scope",
            MxmlError::ExtraEndTag { .. } => "extra end tag",
            MxmlError::MismatchedEndTag { .. } => "mismatched end tag",
            MxmlError::UnmatchedStartTags => "unmatched start tags",
        }
    }

    /// What `kind_name` returns for each variant.
    pub open spec fn spec_kind_name(&self) -> Seq<char> {
        match self {
            MxmlError::MalformedTag { .. } => "malformed tag"@,
            MxmlError::UnresolvedScopeOwner { .. } => "unresolved scope owner"@,
            MxmlError::VoidElementScopeViolation { .. } => "void element scope violation"@,
            MxmlError::UnmatchedClosingScope { .. } => "unmatched closing scope"@,
            MxmlError::ExtraEndTag { .. } => "extra end tag"@,
            MxmlError::MismatchedEndTag { .. } => "mismatched end tag"@,
            MxmlError::UnmatchedStartTags => "unmatched start tags"@,
        }
    }
}

} // verus!
