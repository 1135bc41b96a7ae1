use vstd::prelude::*;
use vstd::utf8::{decode_utf8, valid_utf8};

use crate::bytes::{read_str_buffer, read_u32, truncate_at_nul, u32_le_at};
use crate::error::DartError;
use crate::trie::{collect_links_hashmap, decoded_entries, entry_views, walk, Link, MAX_KEY_BYTES};

verus! {

/// One 16-byte token record, an externally defined morphological entry:
/// this core never interprets its fields, so it is held as four
/// little-endian words.
#[derive(Clone, Copy, Debug, PartialEq, Eq, Structural)]
pub struct FormatToken {
    pub w0: u32,
    pub w1: u32,
    pub w2: u32,
    pub w3: u32,
}

/// The token record stored as 16 bytes at `off`.
pub open spec fn token_at(b: Seq<u8>, off: int) -> FormatToken {
    FormatToken {
        w0: u32_le_at(b, off) as u32,
        w1: u32_le_at(b, off + 4) as u32,
        w2: u32_le_at(b, off + 8) as u32,
        w3: u32_le_at(b, off + 12) as u32,
    }
}

impl FormatToken {
    /// Reads one 16-byte record.
    pub fn read(b: &[u8], off: usize) -> (r: Result<FormatToken, DartError>)
        ensures
            off + 16 <= b@.len() ==> r == Ok::<FormatToken, DartError>(token_at(b@, off as int)),
            off + 16 > b@.len() ==> r == Err::<FormatToken, DartError>(DartError::IOError),
    {
        let n = b.len();
        let w0 = match read_u32(b, off) {
            Ok(v) => v,
            Err(e) => {
                return Err(e);
            },
        };
        assert(off + 4 <= n);
        let w1 = match read_u32(b, off + 4) {
            Ok(v) => v,
            Err(e) => {
                return Err(e);
            },
        };
        let w2 = match read_u32(b, off + 8) {
            Ok(v) => v,
            Err(e) => {
                return Err(e);
            },
        };
        let w3 = match read_u32(b, off + 12) {
            Ok(v) => v,
            Err(e) => {
                return Err(e);
            },
        };
        Ok(FormatToken { w0, w1, w2, w3 })
    }
}

/// The slice of the token table a packed pointer selects:
/// `ptr / 256` is the first index, `ptr % 256` the count.
pub open spec fn token_slice(tokens: Seq<FormatToken>, ptr: u32) -> Seq<FormatToken> {
    tokens.subrange(ptr as int / 256, ptr as int / 256 + ptr as int % 256)
}

/// Every entry's token range lies inside a table of `n` records.
pub open spec fn entries_in_range(es: Seq<(Seq<char>, u32)>, n: int) -> bool {
    forall|e: int|
        0 <= e < es.len() ==> (#[trigger] es[e].1) as int / 256 + es[e].1 as int % 256 <= n
}

/// The mapping the entry list denotes: each entry inserts its key in
/// order, so a later entry with an equal key replaces the earlier one.
pub open spec fn entries_map(es: Seq<(Seq<char>, u32)>, tokens: Seq<FormatToken>) -> Map<
    Seq<char>,
    Seq<FormatToken>,
>
    decreases es.len(),
{
    if es.len() == 0 {
        Map::empty()
    } else {
        entries_map(es.drop_last(), tokens).insert(es.last().0, token_slice(tokens, es.last().1))
    }
}

/// No two rows of the association list share a key.
pub open spec fn keys_unique(d: Seq<(String, Vec<FormatToken>)>) -> bool {
    forall|i: int, j: int| 0 <= i < j < d.len() ==> (#[trigger] d[i].0@) != (#[trigger] d[j].0@)
}

/// The mapping an association list denotes.
pub open spec fn assoc_map(d: Seq<(String, Vec<FormatToken>)>) -> Map<Seq<char>, Seq<FormatToken>>
    decreases d.len(),
{
    if d.len() == 0 {
        Map::empty()
    } else {
        assoc_map(d.drop_last()).insert(d.last().0@, d.last().1@)
    }
}

/// Membership of a string, by content, in a list of strings.
pub open spec fn contains_str(v: Seq<String>, s: Seq<char>) -> bool {
    exists|i: int| 0 <= i < v.len() && (#[trigger] v[i]@) == s
}

/// `s` is a proper prefix of `k` over codepoints.
pub open spec fn strict_prefix_of(s: Seq<char>, k: Seq<char>) -> bool {
    s.len() < k.len() && k.subrange(0, s.len() as int) == s
}

pub proof fn lemma_assoc_map_contains(d: Seq<(String, Vec<FormatToken>)>)
    ensures
        forall|k: Seq<char>|
            #[trigger] assoc_map(d).contains_key(k) <==> exists|i: int|
                0 <= i < d.len() && (#[trigger] d[i].0@) == k,
    decreases d.len(),
{
    if d.len() == 0 {
    } else {
        let dl = d.drop_last();
        lemma_assoc_map_contains(dl);
        assert forall|k: Seq<char>| #[trigger] assoc_map(d).contains_key(k) implies exists|i: int|
            0 <= i < d.len() && (#[trigger] d[i].0@) == k by {
            if k == d.last().0@ {
                assert(d[d.len() - 1].0@ == k);
            } else {
                assert(assoc_map(dl).contains_key(k));
                let i = choose|i: int| 0 <= i < dl.len() && (#[trigger] dl[i].0@) == k;
                assert(d[i].0@ == k);
            }
        }
        assert forall|k: Seq<char>|
            exists|i: int| 0 <= i < d.len() && (#[trigger] d[i].0@) == k implies #[trigger] assoc_map(
            d,
        ).contains_key(k) by {
            let i = choose|i: int| 0 <= i < d.len() && (#[trigger] d[i].0@) == k;
            if i == d.len() - 1 {
            } else {
                assert(dl[i].0@ == k);
                assert(assoc_map(dl).contains_key(k));
            }
        }
    }
}

pub proof fn lemma_assoc_map_index(d: Seq<(String, Vec<FormatToken>)>, i: int)
    requires
        keys_unique(d),
        0 <= i < d.len(),
    ensures
        assoc_map(d).contains_key(d[i].0@),
        assoc_map(d)[d[i].0@] == d[i].1@,
    decreases d.len(),
{
    if i == d.len() - 1 {
    } else {
        let dl = d.drop_last();
        assert(keys_unique(dl));
        assert(dl[i] == d[i]);
        lemma_assoc_map_index(dl, i);
        assert(d.last().0@ != d[i].0@);
    }
}

proof fn lemma_assoc_map_remove(d: Seq<(String, Vec<FormatToken>)>, j: int)
    requires
        keys_unique(d),
        0 <= j < d.len(),
    ensures
        keys_unique(d.remove(j)),
        assoc_map(d.remove(j)) == assoc_map(d).remove(d[j].0@),
    decreases d.len(),
{
    assert forall|p: int, q: int| 0 <= p < q < d.remove(j).len() implies (#[trigger] d.remove(
        j,
    )[p].0@) != (#[trigger] d.remove(j)[q].0@) by {
        let p2: int = if p < j {
            p
        } else {
            p + 1
        };
        let q2: int = if q < j {
            q
        } else {
            q + 1
        };
        assert(d.remove(j)[p] == d[p2]);
        assert(d.remove(j)[q] == d[q2]);
    }
    let dl = d.drop_last();
    if j == d.len() - 1 {
        assert(d.remove(j) =~= dl);
        lemma_assoc_map_contains(dl);
        assert(keys_unique(dl));
        assert(!assoc_map(dl).contains_key(d[j].0@)) by {
            if assoc_map(dl).contains_key(d[j].0@) {
                let i = choose|i: int| 0 <= i < dl.len() && (#[trigger] dl[i].0@) == d[j].0@;
                assert(d[i].0@ == d[j].0@);
            }
        }
        assert(assoc_map(dl) =~= assoc_map(dl).insert(d.last().0@, d.last().1@).remove(d[j].0@));
    } else {
        assert(keys_unique(dl));
        lemma_assoc_map_remove(dl, j);
        assert(d.remove(j).drop_last() =~= dl.remove(j));
        assert(d.remove(j).last() == d.last());
        assert(assoc_map(d.remove(j)) == assoc_map(dl.remove(j)).insert(
            d.last().0@,
            d.last().1@,
        ));
        assert(dl[j] == d[j]);
        assert(d.last().0@ != d[j].0@);
        assert(assoc_map(dl).remove(d[j].0@).insert(d.last().0@, d.last().1@) =~= assoc_map(
            dl,
        ).insert(d.last().0@, d.last().1@).remove(d[j].0@));
    }
}

/// Builds the key → token-list table from collected entries: each
/// packed pointer selects `tokens[ptr/256 .. ptr/256 + ptr%256]`, and a
/// later entry with an equal key replaces the earlier one entirely.
pub fn entries_to_tokens(entries: Vec<(String, u32)>, tokens: &[FormatToken]) -> (r: Vec<
    (String, Vec<FormatToken>),
>)
    requires
        forall|e: int|
            0 <= e < entries@.len() ==> (#[trigger] entries@[e].1) as int / 256
                + entries@[e].1 as int % 256 <= tokens@.len(),
    ensures
        keys_unique(r@),
        assoc_map(r@) == entries_map(entry_views(entries@), tokens@),
{
    let ghost ev: Seq<(Seq<char>, u32)> = entry_views(entries@);
    let mut r: Vec<(String, Vec<FormatToken>)> = Vec::new();
    let mut k: usize = 0;
    while k < entries.len()
        invariant
            k <= entries@.len(),
            forall|e: int|
                0 <= e < entries@.len() ==> (#[trigger] entries@[e].1) as int / 256
                    + entries@[e].1 as int % 256 <= tokens@.len(),
            ev == entry_views(entries@),
            keys_unique(r@),
            assoc_map(r@) == entries_map(ev.take(k as int), tokens@),
        decreases entries@.len() - k,
    {
        let ptr: u32 = entries[k].1;
        let first: u32 = ptr / 0x100;
        let count: u32 = ptr % 0x100;
        assert(first as int == ptr as int / 256 && count as int == ptr as int % 256);
        assert(first as int + count as int <= tokens@.len());
        let mut similar: Vec<FormatToken> = Vec::new();
        let mut t: u32 = 0;
        while t < count
            invariant
                t <= count,
                first < 0x100_0000,
                count < 0x100,
                first as int + count as int <= tokens@.len(),
                similar@ == tokens@.subrange(first as int, first as int + t as int),
            decreases count - t,
        {
            similar.push(tokens[(first + t) as usize]);
            assert(similar@ =~= tokens@.subrange(first as int, first as int + t as int + 1));
            t = t + 1;
        }
        assert(similar@ == token_slice(tokens@, ptr));
        let key: String = entries[k].0.clone();
        assert(key@ == ev[k as int].0);

        let mut j: usize = 0;
        let mut pos: usize = r.len();
        while j < r.len()
            invariant
                j <= r@.len(),
                pos == r@.len() ==> forall|q: int| 0 <= q < j ==> (#[trigger] r@[q].0@) != key@,
                pos < r@.len() ==> r@[pos as int].0@ == key@,
                pos <= r@.len(),
            decreases r@.len() - j,
        {
            if pos == r.len() && r[j].0 == key {
                pos = j;
            }
            j = j + 1;
        }
        let ghost r_old: Seq<(String, Vec<FormatToken>)> = r@;
        if pos < r.len() {
            let _replaced = r.remove(pos);
            proof {
                lemma_assoc_map_remove(r_old, pos as int);
            }
            r.push((key, similar));
            proof {
                assert(r@.drop_last() =~= r_old.remove(pos as int));
                assert(assoc_map(r@) == assoc_map(r_old).remove(key@).insert(key@, similar@));
                assert(assoc_map(r@) =~= assoc_map(r_old).insert(key@, similar@));
                lemma_assoc_map_contains(r_old.remove(pos as int));
                assert forall|p: int, q: int| 0 <= p < q < r@.len() implies (#[trigger] r@[p].0@)
                    != (#[trigger] r@[q].0@) by {
                    if q < r@.len() - 1 {
                        assert(r@[p] == r_old.remove(pos as int)[p]);
                        assert(r@[q] == r_old.remove(pos as int)[q]);
                    } else {
                        assert(r@[p] == r_old.remove(pos as int)[p]);
                        if r@[p].0@ == key@ {
                            assert(r_old.remove(pos as int)[p].0@ == key@);
                            let p2: int = if p < pos {
                                p
                            } else {
                                p + 1
                            };
                            assert(r_old.remove(pos as int)[p] == r_old[p2]);
                            assert(r_old[p2].0@ == key@ && r_old[pos as int].0@ == key@ && p2
                                != pos);
                        }
                    }
                }
            }
        } else {
            proof {
                lemma_assoc_map_contains(r_old);
            }
            r.push((key, similar));
            proof {
                assert(r@.drop_last() =~= r_old);
                assert(assoc_map(r@) == assoc_map(r_old).insert(key@, similar@));
                assert forall|p: int, q: int| 0 <= p < q < r@.len() implies (#[trigger] r@[p].0@)
                    != (#[trigger] r@[q].0@) by {
                    if q < r@.len() - 1 {
                        assert(r@[p] == r_old[p]);
                        assert(r@[q] == r_old[q]);
                    } else {
                        assert(r@[p] == r_old[p]);
                    }
                }
            }
        }
        proof {
            assert(ev.take(k as int + 1).drop_last() =~= ev.take(k as int));
            assert(ev.take(k as int + 1).last() == ev[k as int]);
            assert(entries_map(ev.take(k as int + 1), tokens@) == entries_map(
                ev.take(k as int),
                tokens@,
            ).insert(ev[k as int].0, token_slice(tokens@, ev[k as int].1)));
            assert(ev[k as int].1 == entries@[k as int].1);
        }
        k = k + 1;
    }
    proof {
        assert(ev.take(entries@.len() as int) =~= ev);
    }
    r
}

/// Membership scan of a string list, by content.
fn vec_contains_string(v: &Vec<String>, s: &String) -> (r: bool)
    ensures
        r == contains_str(v@, s@),
{
    let mut i: usize = 0;
    while i < v.len()
        invariant
            i <= v@.len(),
            forall|j: int| 0 <= j < i ==> (#[trigger] v@[j]@) != s@,
        decreases v@.len() - i,
    {
        if v[i] == *s {
            assert(v@[i as int]@ == s@);
            return true;
        }
        i = i + 1;
    }
    false
}

/// `s` is a non-empty codepoint prefix, shorter than the key itself, of
/// one of the first `upto` keys of the table.
pub open spec fn is_proper_prefix_in(
    d: Seq<(String, Vec<FormatToken>)>,
    upto: int,
    s: Seq<char>,
) -> bool {
    exists|q: int, l: int|
        0 <= q < upto && 1 <= l && l < d[q].0@.len() && s == #[trigger] d[q].0@.subrange(0, l)
}

proof fn lemma_contains_str_push(v: Seq<String>, x: String)
    ensures
        forall|s: Seq<char>|
            #[trigger] contains_str(v.push(x), s) <==> (contains_str(v, s) || s == x@),
{
    assert forall|s: Seq<char>| #[trigger] contains_str(v.push(x), s) implies (contains_str(v, s)
        || s == x@) by {
        let i = choose|i: int| 0 <= i < v.push(x).len() && (#[trigger] v.push(x)[i]@) == s;
        if i < v.len() {
            assert(v[i]@ == s);
        }
    }
    assert forall|s: Seq<char>| contains_str(v, s) || s == x@ implies #[trigger] contains_str(
        v.push(x),
        s,
    ) by {
        if contains_str(v, s) {
            let i = choose|i: int| 0 <= i < v.len() && (#[trigger] v[i]@) == s;
            assert(v.push(x)[i]@ == s);
        } else {
            assert(v.push(x)[v.len() as int]@ == s);
        }
    }
}

proof fn lemma_prefix_in_step(d: Seq<(String, Vec<FormatToken>)>, p: int)
    requires
        0 <= p < d.len(),
    ensures
        forall|s: Seq<char>|
            is_proper_prefix_in(d, p + 1, s) <==> (is_proper_prefix_in(d, p, s) || exists|m: int|
                1 <= m < d[p].0@.len() && s == #[trigger] d[p].0@.subrange(0, m)),
{
    assert forall|s: Seq<char>| is_proper_prefix_in(d, p + 1, s) implies (is_proper_prefix_in(
        d,
        p,
        s,
    ) || exists|m: int| 1 <= m < d[p].0@.len() && s == #[trigger] d[p].0@.subrange(0, m)) by {
        let (q, l) = choose|q: int, l: int|
            0 <= q < p + 1 && 1 <= l && l < d[q].0@.len() && s == #[trigger] d[q].0@.subrange(0, l);
        if q < p {
            assert(s == d[q].0@.subrange(0, l));
            assert(is_proper_prefix_in(d, p, s));
        } else {
            assert(s == d[p].0@.subrange(0, l));
        }
    }
    assert forall|s: Seq<char>|
        (is_proper_prefix_in(d, p, s) || exists|m: int|
            1 <= m < d[p].0@.len() && s == #[trigger] d[p].0@.subrange(0, m)) implies
        is_proper_prefix_in(d, p + 1, s) by {
        if is_proper_prefix_in(d, p, s) {
            let (q, l) = choose|q: int, l: int|
                0 <= q < p && 1 <= l && l < d[q].0@.len() && s == #[trigger] d[q].0@.subrange(0, l);
            assert(0 <= q < p + 1 && 1 <= l && l < d[q].0@.len() && s == d[q].0@.subrange(0, l));
        } else {
            let m = choose|m: int| 1 <= m < d[p].0@.len() && s == #[trigger] d[p].0@.subrange(0, m);
            assert(0 <= p < p + 1 && 1 <= m && m < d[p].0@.len() && s == d[p].0@.subrange(0, m));
        }
    }
}

/// Collects every non-empty proper codepoint prefix of every key of
/// the table, each held once.
pub fn build_contains_longer(dict: &Vec<(String, Vec<FormatToken>)>) -> (r: Vec<String>)
    ensures
        forall|s: Seq<char>|
            #[trigger] contains_str(r@, s) <==> is_proper_prefix_in(dict@, dict@.len() as int, s),
{
    let mut r: Vec<String> = Vec::new();
    assert forall|s: Seq<char>| #[trigger] contains_str(r@, s) implies false by {
        let i = choose|i: int| 0 <= i < r@.len() && (#[trigger] r@[i]@) == s;
    }
    let mut p: usize = 0;
    while p < dict.len()
        invariant
            p <= dict@.len(),
            forall|s: Seq<char>|
                #[trigger] contains_str(r@, s) <==> is_proper_prefix_in(dict@, p as int, s),
        decreases dict@.len() - p,
    {
        let a: &str = dict[p].0.as_str();
        let n: usize = a.unicode_len();
        let mut l: usize = 1;
        while l < n
            invariant
                1 <= l,
                l <= n || l == 1,
                p < dict@.len(),
                a@ == dict@[p as int].0@,
                n == a@.len(),
                forall|s: Seq<char>|
                    #[trigger] contains_str(r@, s) <==> (is_proper_prefix_in(dict@, p as int, s)
                        || exists|m: int| 1 <= m < l && s == #[trigger] a@.subrange(0, m)),
            decreases n - l,
        {
            let pre: String = a.substring_char(0, l).to_owned();
            assert(pre@ == a@.subrange(0, l as int));
            let ghost r_old: Seq<String> = r@;
            if !vec_contains_string(&r, &pre) {
                r.push(pre);
                proof {
                    lemma_contains_str_push(r_old, r@.last());
                }
            }
            proof {
                assert forall|s: Seq<char>| #[trigger] contains_str(r@, s) implies (
                is_proper_prefix_in(dict@, p as int, s) || exists|m: int|
                    1 <= m < l + 1 && s == #[trigger] a@.subrange(0, m)) by {
                    if s == pre@ {
                        assert(s == a@.subrange(0, l as int));
                    } else {
                        assert(contains_str(r_old, s));
                        if !is_proper_prefix_in(dict@, p as int, s) {
                            let m = choose|m: int|
                                1 <= m < l && s == #[trigger] a@.subrange(0, m);
                            assert(1 <= m < l + 1 && s == a@.subrange(0, m));
                        }
                    }
                }
                assert forall|s: Seq<char>|
                    (is_proper_prefix_in(dict@, p as int, s) || exists|m: int|
                        1 <= m < l + 1 && s == #[trigger] a@.subrange(0, m)) implies
                    #[trigger] contains_str(r@, s) by {
                    if is_proper_prefix_in(dict@, p as int, s) {
                        assert(contains_str(r_old, s));
                    } else {
                        let m = choose|m: int| 1 <= m < l + 1 && s == #[trigger] a@.subrange(0, m);
                        if m < l {
                            assert(contains_str(r_old, s));
                        } else {
                            assert(s == pre@);
                            assert(contains_str(r@, s) || contains_str(r_old, s));
                        }
                    }
                }
            }
            l = l + 1;
        }
        proof {
            lemma_prefix_in_step(dict@, p as int);
            assert forall|s: Seq<char>| #[trigger] contains_str(r@, s) implies is_proper_prefix_in(
                dict@,
                p as int + 1,
                s,
            ) by {
                if !is_proper_prefix_in(dict@, p as int, s) {
                    let m = choose|m: int| 1 <= m < l && s == #[trigger] a@.subrange(0, m);
                    assert(m < n);
                    assert(s == dict@[p as int].0@.subrange(0, m));
                }
            }
            assert forall|s: Seq<char>| is_proper_prefix_in(dict@, p as int + 1, s) implies
                #[trigger] contains_str(r@, s) by {
                if !is_proper_prefix_in(dict@, p as int, s) {
                    let m = choose|m: int|
                        1 <= m < dict@[p as int].0@.len() && s == #[trigger] dict@[
                            p as int
                        ].0@.subrange(0, m);
                    assert(s == a@.subrange(0, m));
                    assert(m < n);
                    assert(l >= n || (l == 1 && n <= 1));
                    assert(1 <= m < l);
                }
            }
        }
        p = p + 1;
    }
    r
}

/// Walks the whole trie from the root transition and assembles the key
/// → token-list table. A traversal deeper than any well-formed key, or
/// an entry whose token range lies outside the table, is reported as
/// structural corruption.
pub fn collect_links_into_hashmap(links: Vec<Link>, tokens: Vec<FormatToken>) -> (r: Result<
    Vec<(String, Vec<FormatToken>)>,
    DartError,
>)
    requires
        links@.len() > 0,
    ensures
        ({
            let w = walk(links@, links@[0].base, Seq::<u8>::empty(), MAX_KEY_BYTES as nat);
            match r {
                Ok(d) => {
                    &&& w is Some
                    &&& entries_in_range(decoded_entries(w.unwrap()), tokens@.len() as int)
                    &&& keys_unique(d@)
                    &&& assoc_map(d@) == entries_map(decoded_entries(w.unwrap()), tokens@)
                },
                Err(e) => {
                    &&& e == DartError::StructuralCorruption
                    &&& (w is None || !entries_in_range(
                        decoded_entries(w.unwrap()),
                        tokens@.len() as int,
                    ))
                },
            }
        }),
{
    let mut collection: Vec<(String, u32)> = Vec::new();
    let empty_key: Vec<u8> = Vec::new();
    let root_base = links[0].base;
    match collect_links_hashmap(
        links.as_slice(),
        root_base,
        &mut collection,
        &empty_key,
        MAX_KEY_BYTES,
    ) {
        Ok(()) => {},
        Err(e) => {
            return Err(e);
        },
    }
    let ghost es: Seq<(Seq<char>, u32)> = decoded_entries(
        walk(links@, links@[0].base, Seq::<u8>::empty(), MAX_KEY_BYTES as nat).unwrap(),
    );
    proof {
        assert(entry_views(Seq::<(String, u32)>::empty()) =~= Seq::<(Seq<char>, u32)>::empty());
        assert(entry_views(collection@) =~= es);
        assert(forall|q: int|
            0 <= q < collection@.len() ==> (#[trigger] entry_views(collection@)[q]) == (
            collection@[q].0@,
            collection@[q].1,
            ));
    }
    let mut e: usize = 0;
    while e < collection.len()
        invariant
            e <= collection@.len(),
            links@.len() > 0,
            walk(links@, links@[0].base, Seq::<u8>::empty(), MAX_KEY_BYTES as nat) is Some,
            es == decoded_entries(
                walk(links@, links@[0].base, Seq::<u8>::empty(), MAX_KEY_BYTES as nat).unwrap(),
            ),
            entry_views(collection@) == es,
            forall|q: int|
                0 <= q < collection@.len() ==> (#[trigger] es[q]) == (
                collection@[q].0@,
                collection@[q].1,
                ),
            forall|q: int|
                0 <= q < e ==> (#[trigger] collection@[q].1) as int / 256 + collection@[q].1 as int
                    % 256 <= tokens@.len(),
        decreases collection@.len() - e,
    {
        let ptr: u32 = collection[e].1;
        let first: u32 = ptr / 0x100;
        let count: u32 = ptr % 0x100;
        if first as u64 + count as u64 > tokens.len() as u64 {
            proof {
                assert(es[e as int].1 == ptr);
                assert(first as int + count as int > tokens@.len());
                assert(!(es[e as int].1 as int / 256 + es[e as int].1 as int % 256
                    <= tokens@.len()));
                assert(!entries_in_range(es, tokens@.len() as int));
            }
            return Err(DartError::StructuralCorruption);
        }
        e = e + 1;
    }
    proof {
        assert forall|q: int|
            0 <= q < es.len() implies (#[trigger] es[q].1) as int / 256 + es[q].1 as int % 256
            <= tokens@.len() by {
            assert(es[q].1 == collection@[q].1);
        }
    }
    let d = entries_to_tokens(collection, tokens.as_slice());
    Ok(d)
}

/// For every entry the walker produced whose key no later entry
/// repeats, the assembled mapping stores exactly the token-table slice
/// that entry's pointer selects: `ptr % 256` records starting at index
/// `ptr / 256`, in table order.
pub proof fn lemma_walker_key_tokens(es: Seq<(Seq<char>, u32)>, tokens: Seq<FormatToken>, j: int)
    requires
        0 <= j < es.len(),
        forall|l: int| j < l < es.len() ==> (#[trigger] es[l].0) != es[j].0,
    ensures
        entries_map(es, tokens).contains_key(es[j].0),
        entries_map(es, tokens)[es[j].0] == token_slice(tokens, es[j].1),
    decreases es.len(),
{
    if j == es.len() - 1 {
    } else {
        let el = es.drop_last();
        assert(el[j] == es[j]);
        assert forall|l: int| j < l < el.len() implies (#[trigger] el[l].0) != el[j].0 by {
            assert(el[l] == es[l]);
        }
        lemma_walker_key_tokens(el, tokens, j);
        assert(es.last().0 != es[j].0);
    }
}

/// The immutable, queryable result of one load: the key → token-list
/// table, the set of strict prefixes of its keys, the two context
/// counts carried from the header, and the raw feature blob.
pub struct DartDict {
    /// Association rows, one per key, keys unique.
    pub dict: Vec<(String, Vec<FormatToken>)>,
    /// Every non-empty proper codepoint prefix of some key.
    pub contains_longer: Vec<String>,
    pub left_contexts: u32,
    pub right_contexts: u32,
    /// Raw blob of auxiliary feature strings, addressed by byte offset.
    pub feature_bytes: Vec<u8>,
}

impl DartDict {
    /// The key → token-list mapping this index represents.
    pub open spec fn dict_map(&self) -> Map<Seq<char>, Seq<FormatToken>> {
        assoc_map(self.dict@)
    }

    /// What the prefix set answers for `s`.
    pub open spec fn longer_contains(&self, s: Seq<char>) -> bool {
        contains_str(self.contains_longer@, s)
    }

    /// Well-formed: keys are unique, and the prefix set holds exactly
    /// the non-empty strict codepoint prefixes of the keys.
    pub open spec fn wf(&self) -> bool {
        &&& keys_unique(self.dict@)
        &&& forall|s: Seq<char>|
            #[trigger] self.longer_contains(s) <==> (s.len() >= 1 && exists|k: Seq<char>|
                #[trigger] self.dict_map().contains_key(k) && strict_prefix_of(s, k))
    }

    /// True when `s` is a key or could still extend to one: it is in
    /// the prefix set or is itself a complete key.
    pub fn may_contain(&self, find: &String) -> (r: bool)
        ensures
            r == (self.longer_contains(find@) || self.dict_map().contains_key(find@)),
    {
        if vec_contains_string(&self.contains_longer, find) {
            return true;
        }
        proof {
            lemma_assoc_map_contains(self.dict@);
        }
        let mut i: usize = 0;
        while i < self.dict.len()
            invariant
                i <= self.dict@.len(),
                forall|j: int| 0 <= j < i ==> (#[trigger] self.dict@[j].0@) != find@,
            decreases self.dict@.len() - i,
        {
            if self.dict[i].0 == *find {
                assert(self.dict@[i as int].0@ == find@);
                proof {
                    lemma_assoc_map_contains(self.dict@);
                }
                return true;
            }
            i = i + 1;
        }
        proof {
            lemma_assoc_map_contains(self.dict@);
        }
        false
    }

    /// Exact lookup: the token list stored for `find`, or nothing.
    pub fn dic_get<'a>(&'a self, find: &String) -> (r: Option<&'a Vec<FormatToken>>)
        requires
            self.wf(),
        ensures
            match r {
                Some(v) => self.dict_map().contains_key(find@) && v@ == self.dict_map()[find@],
                None => !self.dict_map().contains_key(find@),
            },
    {
        let mut i: usize = 0;
        while i < self.dict.len()
            invariant
                self.wf(),
                i <= self.dict@.len(),
                forall|j: int| 0 <= j < i ==> (#[trigger] self.dict@[j].0@) != find@,
            decreases self.dict@.len() - i,
    {
            if self.dict[i].0 == *find {
                proof {
                    lemma_assoc_map_index(self.dict@, i as int);
                }
                return Some(&self.dict[i].1);
            }
            i = i + 1;
        }
        proof {
            lemma_assoc_map_contains(self.dict@);
        }
        None
    }

    /// The feature string stored at `offset`: the empty string for any
    /// offset at or past the end of the blob, never an error there.
    pub fn feature_get(&self, offset: u32) -> (r: Result<String, DartError>)
        ensures
            offset as int >= self.feature_bytes@.len() ==> (r matches Ok(s) && s@ == Seq::<
                char,
            >::empty()),
            (offset as int) < self.feature_bytes@.len() ==> {
                let tail = self.feature_bytes@.subrange(
                    offset as int,
                    self.feature_bytes@.len() as int,
                );
                &&& valid_utf8(truncate_at_nul(tail)) ==> (r matches Ok(s) && s@ == decode_utf8(
                    truncate_at_nul(tail),
                ))
                &&& !valid_utf8(truncate_at_nul(tail)) ==> r == Err::<String, DartError>(
                    DartError::UnsupportedEncoding,
                )
            },
    {
        if (offset as usize) < self.feature_bytes.len() {
            let sl: &[u8] = self.feature_bytes.as_slice();
            let tail: &[u8] = &sl[offset as usize..self.feature_bytes.len()];
            read_str_buffer(tail)
        } else {
            Ok(String::new())
        }
    }
}

/// A string is a non-empty proper codepoint prefix of one of the rows'
/// keys exactly when some key of the mapping strictly extends it.
pub proof fn lemma_prefix_forms(dv: Seq<(String, Vec<FormatToken>)>, s: Seq<char>)
    ensures
        is_proper_prefix_in(dv, dv.len() as int, s) <==> (s.len() >= 1 && exists|k: Seq<char>|
            #[trigger] assoc_map(dv).contains_key(k) && strict_prefix_of(s, k)),
{
    lemma_assoc_map_contains(dv);
    if is_proper_prefix_in(dv, dv.len() as int, s) {
        let (q, l) = choose|q: int, l: int|
            0 <= q < dv.len() && 1 <= l && l < dv[q].0@.len() && s == #[trigger] dv[q].0@.subrange(
                0,
                l,
            );
        let k = dv[q].0@;
        assert(dv[q].0@ == k);
        assert(assoc_map(dv).contains_key(k));
        assert(s.len() == l);
        assert(k.subrange(0, s.len() as int) == s);
        assert(strict_prefix_of(s, k));
    }
    if s.len() >= 1 && exists|k: Seq<char>|
        #[trigger] assoc_map(dv).contains_key(k) && strict_prefix_of(s, k) {
        let k = choose|k: Seq<char>|
            #[trigger] assoc_map(dv).contains_key(k) && strict_prefix_of(s, k);
        let q = choose|i: int| 0 <= i < dv.len() && (#[trigger] dv[i].0@) == k;
        let l = s.len() as int;
        assert(s == dv[q].0@.subrange(0, l));
        assert(is_proper_prefix_in(dv, dv.len() as int, s));
    }
}

/// The prefix set answers true for a non-empty string exactly when
/// some key is strictly longer over codepoints and starts with it.
/// (The empty string is never held, even when non-empty keys exist.)
pub proof fn lemma_contains_longer_characterization(d: &DartDict, s: Seq<char>)
    requires
        d.wf(),
        s.len() >= 1,
    ensures
        d.longer_contains(s) <==> exists|k: Seq<char>|
            #[trigger] d.dict_map().contains_key(k) && s.len() < k.len() && k.subrange(
                0,
                s.len() as int,
            ) == s,
{
    assert(d.longer_contains(s) <==> (s.len() >= 1 && exists|k: Seq<char>|
        #[trigger] d.dict_map().contains_key(k) && strict_prefix_of(s, k)));
}

/// `may_contain` answers true exactly for the complete keys and for
/// the non-empty strict codepoint prefixes of keys; it answers false
/// for every string that no key extends or equals.
pub proof fn lemma_may_contain_characterization(d: &DartDict, s: Seq<char>)
    requires
        d.wf(),
    ensures
        (d.longer_contains(s) || d.dict_map().contains_key(s)) <==> (d.dict_map().contains_key(s)
            || (s.len() >= 1 && exists|k: Seq<char>|
                #[trigger] d.dict_map().contains_key(k) && strict_prefix_of(s, k))),
{
}

} // verus!
