//! The error taxonomy of the codec.

use vstd::prelude::*;

verus! {

/// What can go wrong while decoding a document, or while encoding one.
///
/// - `SyntaxError`: the input is not well-formed XML of the subset this
///   library reads (mismatched tags, an unterminated attribute, an entity
///   reference it does not know).
/// - `StructureError`: a wrapper element holds the wrong number of children,
///   such as a cipher-data wrapper with no cipher value inside.
/// - `ValidationError`: an element the schema mandates is missing, such as a
///   root element that is not an entity descriptor, or an organization with
///   no organization name.
/// - `TimestampError`: a recognized date-time attribute whose value is not a
///   well-formed timestamp.
/// - `EncodingError`: a write-buffer failure during encoding. The verified
///   encoder writes to an in-memory string and never fails, so no call in
///   this crate produces it; it completes the taxonomy for callers.
#[derive(Clone, Copy, Debug, PartialEq, Eq, Structural)]
pub enum MetadataError {
    SyntaxError,
    StructureError,
    ValidationError,
    TimestampError,
    EncodingError,
}

} // verus!
