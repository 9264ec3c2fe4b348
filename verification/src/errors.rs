//! The error taxonomy of the pipeline. Every error is fatal to the batch it
//! occurs in: a malformed or contradictory prototype definition is never
//! partially accepted.

use vstd::prelude::*;

verus! {

/// An error of the translator, the decoder or the registry builder.
///
/// Translator errors carry the index of the offending physical line
/// (the first line of the document is line `0`).
#[derive(Clone, Copy, Debug, PartialEq, Eq, Structural)]
pub enum ProtoError {
    /// A bracketed header line that does not end in `]` or has an empty name.
    MalformedSection { line: usize },
    /// A directive line with no `=` between key and value.
    MissingSeparator { line: usize },
    /// A field assigned twice in one section, directly or through an alias.
    DuplicateField,
    /// A section closed with its identifier or its type discriminant unset.
    IncompleteRecord,
    /// Canonical text that does not conform to the record shape's schema.
    DecodeMismatch,
    /// Two records of one batch that share a prototype identifier.
    IdentifierCollision { pid: u16 },
    /// A manifest entry that does not name a readable source file.
    InvalidManifestEntry,
}

/// An error of a whole registry build: the error itself and the index of
/// the source file (in the order of the manifest) it arose in.
#[derive(Clone, Copy, Debug, PartialEq, Eq, Structural)]
pub struct BuildError {
    pub file: usize,
    pub err: ProtoError,
}

} // verus!
