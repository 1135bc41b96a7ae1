use dart_dict::dict::FormatToken;
use dart_dict::error::DartError;
use dart_dict::loader::load_mecab_dart_file;

const MAGIC: u32 = 0xBEEF;

fn push_u32(v: &mut Vec<u8>, x: u32) {
    v.extend_from_slice(&x.to_le_bytes());
}

fn header(magic: u32, version: u32, link_bytes: u32, token_bytes: u32, feature_bytes: u32, encoding: &[u8]) -> Vec<u8> {
    let mut v = Vec::new();
    push_u32(&mut v, magic);
    push_u32(&mut v, version);
    push_u32(&mut v, 7); // dictionary kind, ignored
    push_u32(&mut v, 99); // unused count, ignored
    push_u32(&mut v, 3); // left_contexts
    push_u32(&mut v, 4); // right_contexts
    push_u32(&mut v, link_bytes);
    push_u32(&mut v, token_bytes);
    push_u32(&mut v, feature_bytes);
    push_u32(&mut v, 0xABCD_EF01); // reserved, skipped
    let mut enc = [0u8; 32];
    enc[..encoding.len()].copy_from_slice(encoding);
    v.extend_from_slice(&enc);
    v
}

fn push_links(v: &mut Vec<u8>, len: usize, set: &[(usize, u32, u32)]) {
    let mut links = vec![(0u32, 0xFFFF_FFFFu32); len];
    for &(i, base, check) in set {
        links[i] = (base, check);
    }
    for (base, check) in links {
        push_u32(v, base);
        push_u32(v, check);
    }
}

fn push_tokens(v: &mut Vec<u8>, count: u32) {
    for n in 0..count {
        push_u32(v, n);
        push_u32(v, n * 10);
        push_u32(v, 0);
        push_u32(v, 0);
    }
}

/// A minimal well-formed file whose trie encodes the single key "cat"
/// pointing at 2 token records starting at index 5, over a table of 7.
fn cat_file() -> Vec<u8> {
    let n_links = 121usize;
    let mut v = header(MAGIC, 0x66, n_links as u32 * 8, 7 * 16, 6, b"UTF-8");
    push_links(
        &mut v,
        n_links,
        &[
            (0, 1, 0xFFFF_FFFF), // root transitions start at base 1
            (101, 2, 1),         // 'c': 1 + 1 + 99
            (100, 3, 2),         // 'a': 2 + 1 + 97
            (120, 4, 3),         // 't': 3 + 1 + 116
            (4, !(5 * 256 + 2u32), 4), // output node: first 5, count 2
        ],
    );
    push_tokens(&mut v, 7);
    v.extend_from_slice(b"abc\0de");
    v
}

fn token(n: u32) -> FormatToken {
    FormatToken { w0: n, w1: n * 10, w2: 0, w3: 0 }
}

#[test]
fn end_to_end_cat() {
    let d = load_mecab_dart_file(MAGIC, &cat_file()).unwrap();
    let toks = d.dic_get(&"cat".to_string()).unwrap();
    assert_eq!(toks.len(), 2);
    assert_eq!(toks[0], token(5));
    assert_eq!(toks[1], token(6));
    assert!(d.dic_get(&"ca".to_string()).is_none());
    assert!(d.dic_get(&"cats".to_string()).is_none());

    assert!(d.contains_longer.iter().any(|s| s == "c"));
    assert!(d.contains_longer.iter().any(|s| s == "ca"));
    assert!(!d.contains_longer.iter().any(|s| s == "cat"));
    assert!(!d.contains_longer.iter().any(|s| s.is_empty()));

    assert!(d.may_contain(&"c".to_string()));
    assert!(d.may_contain(&"ca".to_string()));
    assert!(d.may_contain(&"cat".to_string()));
    assert!(!d.may_contain(&"".to_string()));
    assert!(!d.may_contain(&"x".to_string()));
    assert!(!d.may_contain(&"cats".to_string()));

    assert_eq!(d.left_contexts, 3);
    assert_eq!(d.right_contexts, 4);
    assert_eq!(d.feature_bytes, b"abc\0de");
    assert_eq!(d.feature_get(0).unwrap(), "abc");
    assert_eq!(d.feature_get(4).unwrap(), "de");
    assert_eq!(d.feature_get(6).unwrap(), "");
}

#[test]
fn wrong_magic_fails_format_mismatch() {
    let mut v = cat_file();
    v[0..4].copy_from_slice(&0xDEADu32.to_le_bytes());
    assert_eq!(load_mecab_dart_file(0xBEEF, &v).err(), Some(DartError::FormatMismatch));
}

#[test]
fn wrong_version_fails() {
    let v = header(MAGIC, 0x67, 0, 0, 0, b"UTF-8");
    assert_eq!(load_mecab_dart_file(MAGIC, &v).err(), Some(DartError::UnsupportedVersion));
}

#[test]
fn misaligned_link_bytes_fails() {
    let v = header(MAGIC, 0x66, 12, 0, 0, b"UTF-8");
    assert_eq!(load_mecab_dart_file(MAGIC, &v).err(), Some(DartError::StructuralCorruption));
}

#[test]
fn misaligned_token_bytes_fails() {
    let v = header(MAGIC, 0x66, 8, 24, 0, b"UTF-8");
    assert_eq!(load_mecab_dart_file(MAGIC, &v).err(), Some(DartError::StructuralCorruption));
}

#[test]
fn wrong_encoding_fails() {
    let v = header(MAGIC, 0x66, 0, 0, 0, b"EUC-JP");
    assert_eq!(load_mecab_dart_file(MAGIC, &v).err(), Some(DartError::UnsupportedEncoding));
}

#[test]
fn empty_input_fails_io() {
    assert_eq!(load_mecab_dart_file(MAGIC, &[]).err(), Some(DartError::IOError));
}

#[test]
fn truncated_header_fails_io() {
    let v = header(MAGIC, 0x66, 8, 0, 0, b"UTF-8");
    assert_eq!(load_mecab_dart_file(MAGIC, &v[..0x30]).err(), Some(DartError::IOError));
}

#[test]
fn truncated_link_table_fails_io() {
    // header declares 8 link bytes but none follow
    let v = header(MAGIC, 0x66, 8, 0, 0, b"UTF-8");
    assert_eq!(load_mecab_dart_file(MAGIC, &v).err(), Some(DartError::IOError));
}

#[test]
fn empty_link_table_fails_structural() {
    let v = header(MAGIC, 0x66, 0, 0, 0, b"UTF-8");
    assert_eq!(load_mecab_dart_file(MAGIC, &v).err(), Some(DartError::StructuralCorruption));
}

#[test]
fn cyclic_trie_fails_structural() {
    // base 1 steps to base 3 (via byte 0 at index 2), base 3 steps back
    // to base 1 (via byte 0 at index 4): the depth bound must trip
    let n_links = 5usize;
    let mut v = header(MAGIC, 0x66, n_links as u32 * 8, 0, 0, b"UTF-8");
    push_links(
        &mut v,
        n_links,
        &[(0, 1, 0xFFFF_FFFF), (2, 3, 1), (4, 1, 3)],
    );
    assert_eq!(load_mecab_dart_file(MAGIC, &v).err(), Some(DartError::StructuralCorruption));
}

#[test]
fn token_range_outside_table_fails_structural() {
    // output node points at tokens 5 and 6 of a 3-record table
    let n_links = 5usize;
    let mut v = header(MAGIC, 0x66, n_links as u32 * 8, 3 * 16, 0, b"UTF-8");
    push_links(
        &mut v,
        n_links,
        &[(0, 1, 0xFFFF_FFFF), (2, 3, 1), (3, !(5 * 256 + 2u32), 3)],
    );
    push_tokens(&mut v, 3);
    assert_eq!(load_mecab_dart_file(MAGIC, &v).err(), Some(DartError::StructuralCorruption));
}

#[test]
fn nul_byte_key_decodes_to_empty_key() {
    // the single key is the byte 0, which the nul-terminated string
    // convention reads as the empty string, with an empty token range
    let n_links = 4usize;
    let mut v = header(MAGIC, 0x66, n_links as u32 * 8, 0, 0, b"UTF-8");
    push_links(
        &mut v,
        n_links,
        &[(0, 1, 0xFFFF_FFFF), (2, 3, 1), (3, !0u32, 3)],
    );
    let d = load_mecab_dart_file(MAGIC, &v).unwrap();
    assert_eq!(d.dic_get(&"".to_string()).unwrap().len(), 0);
    assert!(d.may_contain(&"".to_string()));
    assert!(d.contains_longer.is_empty());
}

/// A file whose trie encodes the two-codepoint key made of U+65E5 and
/// U+672C: prefixes are counted over codepoints, never mid-sequence.
#[test]
fn multibyte_key_prefixes_are_codepoints() {
    let bytes = "\u{65e5}\u{672c}".as_bytes(); // six bytes, two codepoints
    let n_links = 236usize;
    let mut v = header(MAGIC, 0x66, n_links as u32 * 8, 16, 0, b"UTF-8");
    let mut set: Vec<(usize, u32, u32)> = vec![(0, 1, 0xFFFF_FFFF)];
    for (step, &byte) in bytes.iter().enumerate() {
        let from = step as u32 + 1;
        let idx = from as usize + 1 + byte as usize;
        set.push((idx, from + 1, from));
    }
    set.push((7, !1u32, 7)); // output: first 0, count 1
    push_links(&mut v, n_links, &set);
    push_tokens(&mut v, 1);
    let d = load_mecab_dart_file(MAGIC, &v).unwrap();
    let key = "\u{65e5}\u{672c}".to_string();
    assert_eq!(d.dic_get(&key).unwrap().len(), 1);
    assert_eq!(d.contains_longer.len(), 1);
    assert!(d.contains_longer.iter().any(|s| s == "\u{65e5}"));
    assert!(d.may_contain(&"\u{65e5}".to_string()));
    assert!(!d.may_contain(&"\u{672c}".to_string()));
}
