use vstd::prelude::*;

verus! {

/// Why a dictionary load failed. Every failure aborts the whole load:
/// the caller gets one of these and no partially built index.
#[derive(Clone, Copy, Debug, PartialEq, Eq, Structural)]
pub enum DartError {
    /// The magic number is not the one the caller expected: the file is
    /// not a dictionary of the expected kind.
    FormatMismatch,
    /// The version field is not the single supported value.
    UnsupportedVersion,
    /// A table is stored with a byte count that is not a multiple of its
    /// record size, the trie is deeper than any well-formed key, or an
    /// entry points outside the token table.
    StructuralCorruption,
    /// The encoding field does not decode to "UTF-8", or bytes that
    /// should form text are not valid UTF-8.
    UnsupportedEncoding,
    /// The input ended before the bytes a field or table declared.
    IOError,
}

} // verus!
