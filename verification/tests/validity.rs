use dart_dict::bytes::{read_str_buffer, read_u32};
use dart_dict::dict::{collect_links_into_hashmap, entries_to_tokens, DartDict, FormatToken};
use dart_dict::error::DartError;
use dart_dict::trie::{check_valid_link, check_valid_out, collect_links_hashmap, Link};

fn token(n: u32) -> FormatToken {
    FormatToken { w0: n, w1: n * 10, w2: 0, w3: 0 }
}

#[test]
fn valid_link_rejects_out_of_bounds() {
    // destination index >= table length: rejected with code 1, and only then
    let links = vec![Link { base: 1, check: 0 }, Link { base: 5, check: 0 }];
    assert_eq!(check_valid_link(&links, 0, 2), Err(1));
    assert_eq!(check_valid_link(&links, 0, 100), Err(1));
    assert_eq!(check_valid_link(&links, 0, 1), Ok(()));
}

#[test]
fn valid_link_rejects_wrong_origin() {
    // destination check != source index: rejected with code 2
    let links = vec![Link { base: 1, check: 0 }, Link { base: 5, check: 7 }];
    assert_eq!(check_valid_link(&links, 0, 1), Err(2));
    assert_eq!(check_valid_link(&links, 7, 1), Ok(()));
}

#[test]
fn valid_link_rejects_self_successor() {
    // destination base == source index: rejected with code 3
    let links = vec![Link { base: 1, check: 0 }, Link { base: 0, check: 0 }];
    assert_eq!(check_valid_link(&links, 0, 1), Err(3));
}

#[test]
fn valid_out_requires_high_bit() {
    let links = vec![
        Link { base: 1, check: 0 },
        Link { base: 5, check: 0 },
        Link { base: 0x8000_0001, check: 0 },
    ];
    assert_eq!(check_valid_out(&links, 0, 1), Err(-1));
    assert_eq!(check_valid_out(&links, 0, 2), Ok(()));
    assert_eq!(check_valid_out(&links, 0, 9), Err(1));
}

#[test]
fn read_u32_is_little_endian() {
    let b = [0x78u8, 0x56, 0x34, 0x12, 0xFF];
    assert_eq!(read_u32(&b, 0), Ok(0x1234_5678));
    assert_eq!(read_u32(&b, 1), Ok(0xFF12_3456));
    assert_eq!(read_u32(&b, 2), Err(DartError::IOError));
}

#[test]
fn link_read_parses_pairs() {
    let mut b = Vec::new();
    b.extend_from_slice(&7u32.to_le_bytes());
    b.extend_from_slice(&9u32.to_le_bytes());
    assert_eq!(Link::read(&b, 0), Ok(Link { base: 7, check: 9 }));
    assert_eq!(Link::read(&b, 1), Err(DartError::IOError));
}

#[test]
fn format_token_read_parses_words() {
    let mut b = Vec::new();
    for w in [1u32, 2, 3, 4] {
        b.extend_from_slice(&w.to_le_bytes());
    }
    assert_eq!(FormatToken::read(&b, 0), Ok(FormatToken { w0: 1, w1: 2, w2: 3, w3: 4 }));
    assert_eq!(FormatToken::read(&b, 8), Err(DartError::IOError));
}

#[test]
fn read_str_buffer_stops_at_nul() {
    assert_eq!(read_str_buffer(b"ab\0cd").unwrap(), "ab");
    assert_eq!(read_str_buffer(b"\0cd").unwrap(), "");
    assert_eq!(read_str_buffer(b"abc").unwrap(), "abc");
}

#[test]
fn read_str_buffer_decodes_multibyte() {
    // "\u{65e5}" is three bytes of UTF-8
    assert_eq!(read_str_buffer("\u{65e5}x".as_bytes()).unwrap(), "\u{65e5}x");
}

#[test]
fn read_str_buffer_rejects_invalid_utf8() {
    assert_eq!(read_str_buffer(&[0xFF, 0xFE]), Err(DartError::UnsupportedEncoding));
}

#[test]
fn entries_to_tokens_slices_table() {
    let tokens: Vec<FormatToken> = (0..7).map(token).collect();
    // pointer packs first_index * 256 + count
    let entries = vec![("cat".to_string(), 5 * 256 + 2)];
    let dict = entries_to_tokens(entries, &tokens);
    assert_eq!(dict.len(), 1);
    assert_eq!(dict[0].0, "cat");
    assert_eq!(dict[0].1, vec![token(5), token(6)]);
}

#[test]
fn entries_to_tokens_last_entry_wins() {
    let tokens: Vec<FormatToken> = (0..7).map(token).collect();
    let entries = vec![
        ("a".to_string(), 0 * 256 + 3),
        ("b".to_string(), 3 * 256 + 1),
        ("a".to_string(), 4 * 256 + 2),
    ];
    let dict = entries_to_tokens(entries, &tokens);
    assert_eq!(dict.len(), 2);
    let a = dict.iter().find(|row| row.0 == "a").unwrap();
    assert_eq!(a.1, vec![token(4), token(5)]);
    let b = dict.iter().find(|row| row.0 == "b").unwrap();
    assert_eq!(b.1, vec![token(3)]);
}

/// The link table of a trie holding the single key "cat", whose output
/// node packs first_index 5 and count 2.
fn cat_links() -> Vec<Link> {
    let mut links = vec![Link { base: 0, check: 0xFFFF_FFFF }; 121];
    links[0] = Link { base: 1, check: 0xFFFF_FFFF };
    links[101] = Link { base: 2, check: 1 }; // 'c': 1 + 1 + 99
    links[100] = Link { base: 3, check: 2 }; // 'a': 2 + 1 + 97
    links[120] = Link { base: 4, check: 3 }; // 't': 3 + 1 + 116
    links[4] = Link { base: !(5 * 256 + 2u32), check: 4 };
    links
}

#[test]
fn walker_collects_key_and_pointer() {
    let links = cat_links();
    let mut collection: Vec<(String, u32)> = Vec::new();
    let root = links[0].base;
    collect_links_hashmap(&links, root, &mut collection, &Vec::new(), 16).unwrap();
    assert_eq!(collection, vec![("cat".to_string(), 5 * 256 + 2)]);
}

#[test]
fn walker_depth_bound_trips() {
    let links = cat_links();
    let mut collection: Vec<(String, u32)> = Vec::new();
    let root = links[0].base;
    let r = collect_links_hashmap(&links, root, &mut collection, &Vec::new(), 2);
    assert_eq!(r, Err(DartError::StructuralCorruption));
}

#[test]
fn collect_into_hashmap_assembles_lists() {
    let tokens: Vec<FormatToken> = (0..7).map(token).collect();
    let dict = collect_links_into_hashmap(cat_links(), tokens).unwrap();
    assert_eq!(dict.len(), 1);
    assert_eq!(dict[0].0, "cat");
    assert_eq!(dict[0].1, vec![token(5), token(6)]);
}

#[test]
fn collect_into_hashmap_rejects_range_past_table() {
    let tokens: Vec<FormatToken> = (0..6).map(token).collect(); // 5 + 2 > 6
    assert!(collect_links_into_hashmap(cat_links(), tokens).is_err());
}

fn dict_with_features(bytes: &[u8]) -> DartDict {
    DartDict {
        dict: Vec::new(),
        contains_longer: Vec::new(),
        left_contexts: 0,
        right_contexts: 0,
        feature_bytes: bytes.to_vec(),
    }
}

#[test]
fn feature_get_past_end_is_empty_never_error() {
    let d = dict_with_features(b"abc\0de");
    assert_eq!(d.feature_get(6).unwrap(), "");
    assert_eq!(d.feature_get(7).unwrap(), "");
    assert_eq!(d.feature_get(u32::MAX).unwrap(), "");
}

#[test]
fn feature_get_reads_nul_terminated() {
    let d = dict_with_features(b"abc\0de");
    assert_eq!(d.feature_get(0).unwrap(), "abc");
    assert_eq!(d.feature_get(1).unwrap(), "bc");
    assert_eq!(d.feature_get(4).unwrap(), "de");
}

#[test]
fn feature_get_invalid_utf8_is_error() {
    let d = dict_with_features(&[0xFF, 0xFE]);
    assert_eq!(d.feature_get(0), Err(DartError::UnsupportedEncoding));
}
