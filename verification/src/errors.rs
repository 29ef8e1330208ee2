use vstd::prelude::*;

verus! {

// ---------------------------------------------------------------------------
// Structured errors. Every failure of the core carries enough data for a
// caller to render a message; none of them mutates the line sequence.
// ---------------------------------------------------------------------------

/// A stale anchor: the line it named, the fingerprint it expected there, and
/// the fingerprint actually found.
#[derive(Debug)]
pub struct Mismatch {
    pub line: usize,
    pub expected: String,
    pub actual: String,
}

/// The mathematical form of a mismatch record.
pub struct SpecMismatch {
    pub line: nat,
    pub expected: Seq<char>,
    pub actual: Seq<char>,
}

impl View for Mismatch {
    type V = SpecMismatch;

    open spec fn view(&self) -> SpecMismatch {
        SpecMismatch { line: self.line as nat, expected: self.expected@, actual: self.actual@ }
    }
}

/// The view of a list of mismatch records.
pub open spec fn mismatches_view(v: Seq<Mismatch>) -> Seq<SpecMismatch> {
    Seq::new(v.len(), |i: int| v[i]@)
}

/// Why an edit batch was refused. Every error aborts the whole batch; no
/// partial application is ever observable.
#[derive(Debug)]
pub enum HashlineError {
    /// The anchor token is malformed.
    InvalidAnchor { token: String },
    /// An anchor or range bound names a line beyond the current bounds.
    OutOfRange { line: usize, len: usize },
    /// A range starts after it ends.
    InvalidRange,
    /// Text to insert must be non-empty.
    EmptyInsertText,
    /// Text to search for must be non-empty.
    EmptyOldText,
    /// Anchors whose fingerprints no longer match and could not be relocated.
    StaleAnchors { mismatches: Vec<Mismatch> },
    /// The text to replace occurs nowhere.
    SubstringNotFound,
    /// The batch would leave the file exactly as it is.
    NoEffectiveChange,
}

/// The mathematical form of an error.
pub enum SpecError {
    InvalidAnchor { token: Seq<char> },
    OutOfRange { line: nat, len: nat },
    InvalidRange,
    EmptyInsertText,
    EmptyOldText,
    StaleAnchors { mismatches: Seq<SpecMismatch> },
    SubstringNotFound,
    NoEffectiveChange,
}

impl View for HashlineError {
    type V = SpecError;

    open spec fn view(&self) -> SpecError {
        match self {
            HashlineError::InvalidAnchor { token } => SpecError::InvalidAnchor { token: token@ },
            HashlineError::OutOfRange { line, len } => SpecError::OutOfRange {
                line: *line as nat,
                len: *len as nat,
            },
            HashlineError::InvalidRange => SpecError::InvalidRange,
            HashlineError::EmptyInsertText => SpecError::EmptyInsertText,
            HashlineError::EmptyOldText => SpecError::EmptyOldText,
            HashlineError::StaleAnchors { mismatches } => SpecError::StaleAnchors {
                mismatches: mismatches_view(mismatches@),
            },
            HashlineError::SubstringNotFound => SpecError::SubstringNotFound,
            HashlineError::NoEffectiveChange => SpecError::NoEffectiveChange,
        }
    }
}

} // verus!
