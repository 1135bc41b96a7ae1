/// The ways a load can fail, as values.
pub mod error;
/// Little-endian integer reads and nul-terminated string decoding.
pub mod bytes;
/// The double-array trie: nodes, transition validity, and the walker.
pub mod trie;
/// Token records, the assembled dictionary, and its query surface.
pub mod dict;
/// The header parser and the whole-file load.
pub mod loader;
