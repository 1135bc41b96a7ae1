use vstd::prelude::*;
use vstd::utf8::{decode_utf8, valid_utf8};

use crate::bytes::{read_str_buffer, read_u32, truncate_at_nul, u32_le_at};
use crate::dict::{
    assoc_map, build_contains_longer, collect_links_into_hashmap, entries_in_range, entries_map,
    is_proper_prefix_in, strict_prefix_of, token_at, DartDict, FormatToken,
};
use crate::error::DartError;
use crate::trie::{decoded_entries, walk, Link, MAX_KEY_BYTES};

verus! {

/// The single supported version of the format.
pub const SUPPORTED_VERSION: u32 = 0x66;

/// Whether the fixed 32-byte encoding-name field at 0x28 decodes, by
/// the format's nul-terminated convention, to exactly "UTF-8".
pub open spec fn encoding_field_ok(b: Seq<u8>) -> bool {
    let field = truncate_at_nul(b.subrange(0x28, 0x48));
    valid_utf8(field) && decode_utf8(field) == "UTF-8"@
}

/// What validating the fixed-layout header yields, checks in file
/// order: a short read fails with an I/O error at the field it first
/// bites, and each content rule fails with its own kind.
pub open spec fn header_outcome(b: Seq<u8>, arg_magic: u32) -> Result<(), DartError> {
    if b.len() < 4 {
        Err(DartError::IOError)
    } else if u32_le_at(b, 0) != arg_magic {
        Err(DartError::FormatMismatch)
    } else if b.len() < 8 {
        Err(DartError::IOError)
    } else if u32_le_at(b, 4) != SUPPORTED_VERSION {
        Err(DartError::UnsupportedVersion)
    } else if b.len() < 0x1C {
        Err(DartError::IOError)
    } else if u32_le_at(b, 0x18) % 8 != 0 {
        Err(DartError::StructuralCorruption)
    } else if b.len() < 0x20 {
        Err(DartError::IOError)
    } else if u32_le_at(b, 0x1C) % 16 != 0 {
        Err(DartError::StructuralCorruption)
    } else if b.len() < 0x48 {
        Err(DartError::IOError)
    } else if !encoding_field_ok(b) {
        Err(DartError::UnsupportedEncoding)
    } else {
        Ok(())
    }
}

/// The link record stored at byte offset `off`.
pub open spec fn link_at(b: Seq<u8>, off: int) -> Link {
    Link { base: u32_le_at(b, off) as u32, check: u32_le_at(b, off + 4) as u32 }
}

/// The link table: `n` 8-byte records starting at 0x48, in file order.
pub open spec fn links_of(b: Seq<u8>, n: int) -> Seq<Link> {
    Seq::new(n as nat, |i: int| link_at(b, 0x48 + 8 * i))
}

/// The token table: `n` 16-byte records starting at `start`.
pub open spec fn tokens_of(b: Seq<u8>, start: int, n: int) -> Seq<FormatToken> {
    Seq::new(n as nat, |i: int| token_at(b, start + 16 * i))
}

/// Whether a whole load succeeds, and with which error it fails: the
/// header first, then enough bytes for the three tables, then a
/// non-empty link table, a traversal within the depth bound, and every
/// entry's token range inside the token table.
pub open spec fn load_outcome(b: Seq<u8>, arg_magic: u32) -> Result<(), DartError> {
    if header_outcome(b, arg_magic) is Err {
        header_outcome(b, arg_magic)
    } else {
        let linkbytes = u32_le_at(b, 0x18);
        let tokenbytes = u32_le_at(b, 0x1C);
        let featurebytes = u32_le_at(b, 0x20);
        if b.len() < 0x48 + linkbytes + tokenbytes + featurebytes {
            Err(DartError::IOError)
        } else if linkbytes == 0 {
            Err(DartError::StructuralCorruption)
        } else {
            let links = links_of(b, linkbytes / 8);
            let tokens = tokens_of(b, 0x48 + linkbytes, tokenbytes / 16);
            let w = walk(links, links[0].base, Seq::<u8>::empty(), MAX_KEY_BYTES as nat);
            if w is None {
                Err(DartError::StructuralCorruption)
            } else if !entries_in_range(decoded_entries(w.unwrap()), tokens.len() as int) {
                Err(DartError::StructuralCorruption)
            } else {
                Ok(())
            }
        }
    }
}

/// Loads a whole dictionary from its bytes: header validation, the
/// three tables, the trie walk, the key → token-list table, and the
/// prefix set, all-or-nothing.
pub fn load_mecab_dart_file(arg_magic: u32, dic: &[u8]) -> (r: Result<DartDict, DartError>)
    ensures
        r is Ok <==> load_outcome(dic@, arg_magic) is Ok,
        r matches Err(e) ==> Err::<(), DartError>(e) == load_outcome(dic@, arg_magic),
        r matches Ok(d) ==> {
            let b = dic@;
            let linkbytes = u32_le_at(b, 0x18);
            let tokenbytes = u32_le_at(b, 0x1C);
            let featurebytes = u32_le_at(b, 0x20);
            let links = links_of(b, linkbytes / 8);
            let tokens = tokens_of(b, 0x48 + linkbytes, tokenbytes / 16);
            &&& d.wf()
            &&& d.left_contexts == u32_le_at(b, 0x10)
            &&& d.right_contexts == u32_le_at(b, 0x14)
            &&& d.feature_bytes@ == b.subrange(
                0x48 + linkbytes + tokenbytes,
                0x48 + linkbytes + tokenbytes + featurebytes,
            )
            &&& d.dict_map() == entries_map(
                decoded_entries(
                    walk(links, links[0].base, Seq::<u8>::empty(), MAX_KEY_BYTES as nat).unwrap(),
                ),
                tokens,
            )
        },
{
    let blen = dic.len();
    let magic = match read_u32(dic, 0) {
        Ok(v) => v,
        Err(e) => {
            return Err(e);
        },
    };
    if magic != arg_magic {
        return Err(DartError::FormatMismatch);
    }
    let version = match read_u32(dic, 4) {
        Ok(v) => v,
        Err(e) => {
            return Err(e);
        },
    };
    if version != SUPPORTED_VERSION {
        return Err(DartError::UnsupportedVersion);
    }
    // 0x08 holds the dictionary kind and 0x0C a count, neither of
    // which the load needs: both are skipped.
    let left_contexts = match read_u32(dic, 0x10) {
        Ok(v) => v,
        Err(e) => {
            return Err(e);
        },
    };
    let right_contexts = match read_u32(dic, 0x14) {
        Ok(v) => v,
        Err(e) => {
            return Err(e);
        },
    };
    let linkbytes = match read_u32(dic, 0x18) {
        Ok(v) => v,
        Err(e) => {
            return Err(e);
        },
    };
    if linkbytes % 8 != 0 {
        return Err(DartError::StructuralCorruption);
    }
    let tokenbytes = match read_u32(dic, 0x1C) {
        Ok(v) => v,
        Err(e) => {
            return Err(e);
        },
    };
    if tokenbytes % 16 != 0 {
        return Err(DartError::StructuralCorruption);
    }
    let featurebytes = match read_u32(dic, 0x20) {
        Ok(v) => v,
        Err(e) => {
            return Err(e);
        },
    };
    // 0x24 holds four reserved bytes, skipped.
    if blen < 0x48 {
        return Err(DartError::IOError);
    }
    let enc_field: &[u8] = &dic[0x28..0x48];
    let enc = match read_str_buffer(enc_field) {
        Ok(s) => s,
        Err(_) => {
            return Err(DartError::UnsupportedEncoding);
        },
    };
    let expected: String = "UTF-8".to_owned();
    if enc != expected {
        return Err(DartError::UnsupportedEncoding);
    }
    assert(encoding_field_ok(dic@));
    assert(header_outcome(dic@, arg_magic) is Ok);

    if (blen as u64) < 0x48u64 + linkbytes as u64 + tokenbytes as u64 + featurebytes as u64 {
        return Err(DartError::IOError);
    }
    let ghost b: Seq<u8> = dic@;
    assert(0x48 + linkbytes as int + tokenbytes as int + featurebytes as int <= b.len());

    let n_links: u32 = linkbytes / 8;
    assert(8 * n_links as int == linkbytes as int);
    let mut links: Vec<Link> = Vec::new();
    let mut idx: usize = 0;
    while idx < n_links as usize
        invariant
            idx <= n_links as int,
            8 * n_links as int == linkbytes as int,
            0x48 + linkbytes as int <= b.len() <= usize::MAX,
            b == dic@,
            links@.len() == idx,
            forall|i: int| 0 <= i < idx ==> links@[i] == link_at(b, 0x48 + 8 * i),
        decreases n_links as int - idx,
    {
        let off: usize = 0x48 + 8 * idx;
        let l = match Link::read(dic, off) {
            Ok(l) => l,
            Err(_) => {
                proof {
                    assert(8 * idx as int + 8 <= linkbytes as int);
                    assert(false);
                }
                return Err(DartError::IOError);
            },
        };
        proof {
            assert(8 * idx as int + 8 <= linkbytes as int);
            crate::bytes::lemma_u32_le_at_bounds(b, off as int);
            crate::bytes::lemma_u32_le_at_bounds(b, off as int + 4);
        }
        links.push(l);
        idx = idx + 1;
    }
    assert(links@ =~= links_of(b, linkbytes as int / 8));

    let tok_start: usize = 0x48 + linkbytes as usize;
    let n_tokens: u32 = tokenbytes / 16;
    assert(16 * n_tokens as int == tokenbytes as int);
    let mut tokens: Vec<FormatToken> = Vec::new();
    let mut tdx: usize = 0;
    while tdx < n_tokens as usize
        invariant
            tdx <= n_tokens as int,
            16 * n_tokens as int == tokenbytes as int,
            tok_start == 0x48 + linkbytes as int,
            tok_start + tokenbytes as int <= b.len() <= usize::MAX,
            b == dic@,
            tokens@.len() == tdx,
            forall|i: int| 0 <= i < tdx ==> tokens@[i] == token_at(b, tok_start + 16 * i),
        decreases n_tokens as int - tdx,
    {
        let off: usize = tok_start + 16 * tdx;
        let t = match FormatToken::read(dic, off) {
            Ok(t) => t,
            Err(_) => {
                proof {
                    assert(16 * tdx as int + 16 <= tokenbytes as int);
                    assert(false);
                }
                return Err(DartError::IOError);
            },
        };
        proof {
            assert(16 * tdx as int + 16 <= tokenbytes as int);
            crate::bytes::lemma_u32_le_at_bounds(b, off as int);
            crate::bytes::lemma_u32_le_at_bounds(b, off as int + 4);
            crate::bytes::lemma_u32_le_at_bounds(b, off as int + 8);
            crate::bytes::lemma_u32_le_at_bounds(b, off as int + 12);
        }
        tokens.push(t);
        tdx = tdx + 1;
    }
    assert(tokens@ =~= tokens_of(b, 0x48 + linkbytes as int, tokenbytes as int / 16));

    let feat_start: usize = tok_start + tokenbytes as usize;
    let mut feature_bytes: Vec<u8> = Vec::new();
    let mut fdx: usize = 0;
    while fdx < featurebytes as usize
        invariant
            fdx <= featurebytes as int,
            feat_start == 0x48 + linkbytes as int + tokenbytes as int,
            feat_start + featurebytes as int <= b.len() <= usize::MAX,
            b == dic@,
            feature_bytes@ == b.subrange(feat_start as int, feat_start as int + fdx),
        decreases featurebytes as int - fdx,
    {
        feature_bytes.push(dic[feat_start + fdx]);
        proof {
            assert(feature_bytes@ =~= b.subrange(feat_start as int, feat_start as int + fdx + 1));
        }
        fdx = fdx + 1;
    }

    if links.is_empty() {
        proof {
            assert(linkbytes as int / 8 == 0);
            assert(linkbytes == 0);
        }
        return Err(DartError::StructuralCorruption);
    }
    let ghost links_g: Seq<Link> = links@;
    let ghost tokens_g: Seq<FormatToken> = tokens@;
    let dict_rows = match collect_links_into_hashmap(links, tokens) {
        Ok(d) => d,
        Err(e) => {
            return Err(e);
        },
    };
    let contains_longer = build_contains_longer(&dict_rows);
    let dd = DartDict { dict: dict_rows, contains_longer, left_contexts, right_contexts, feature_bytes };
    proof {
        assert forall|s: Seq<char>| #[trigger] dd.longer_contains(s) <==> (s.len() >= 1
            && exists|k: Seq<char>|
            #[trigger] dd.dict_map().contains_key(k) && strict_prefix_of(s, k)) by {
            crate::dict::lemma_prefix_forms(dd.dict@, s);
            assert(dd.longer_contains(s) == crate::dict::contains_str(dd.contains_longer@, s));
            assert(crate::dict::contains_str(dd.contains_longer@, s) <==> is_proper_prefix_in(
                dd.dict@,
                dd.dict@.len() as int,
                s,
            ));
            if dd.longer_contains(s) {
                let k = choose|k: Seq<char>|
                    #[trigger] assoc_map(dd.dict@).contains_key(k) && strict_prefix_of(s, k);
                assert(dd.dict_map().contains_key(k) && strict_prefix_of(s, k));
            }
            if s.len() >= 1 && exists|k: Seq<char>|
                #[trigger] dd.dict_map().contains_key(k) && strict_prefix_of(s, k) {
                let k = choose|k: Seq<char>|
                    #[trigger] dd.dict_map().contains_key(k) && strict_prefix_of(s, k);
                assert(assoc_map(dd.dict@).contains_key(k) && strict_prefix_of(s, k));
            }
        }
        assert(dd.wf());
    }
    Ok(dd)
}

} // verus!
