use vstd::prelude::*;
use vstd::utf8::{decode_utf8, valid_utf8};

use crate::bytes::{read_str_buffer, read_u32, truncate_at_nul, u32_le_at};
use crate::error::DartError;

verus! {

/// How many key bytes a traversal may accumulate before the trie is
/// declared corrupt: a generous bound on the length of any surface
/// string, guarding against cycles in a crafted file.
pub const MAX_KEY_BYTES: u32 = 1024;

/// One double-array trie node. `check` records the index this node was
/// reached from; `base` is a forward offset for an internal node, and a
/// bit-packed token-range pointer (most significant bit set) for an
/// output node.
#[derive(Clone, Copy, Debug, PartialEq, Eq, Structural)]
pub struct Link {
    pub base: u32,
    pub check: u32,
}

impl Link {
    /// Reads one 8-byte `(base, check)` record.
    pub fn read(b: &[u8], off: usize) -> (r: Result<Link, DartError>)
        ensures
            off + 8 <= b@.len() ==> (r matches Ok(l) && l.base == u32_le_at(b@, off as int)
                && l.check == u32_le_at(b@, off as int + 4)),
            off + 8 > b@.len() ==> r == Err::<Link, DartError>(DartError::IOError),
    {
        let n = b.len();
        let base = match read_u32(b, off) {
            Ok(v) => v,
            Err(e) => {
                return Err(e);
            },
        };
        assert(off + 4 <= n);
        let check = match read_u32(b, off + 4) {
            Ok(v) => v,
            Err(e) => {
                return Err(e);
            },
        };
        Ok(Link { base, check })
    }
}

/// A transition from index `from` to index `to` is valid when `to` is
/// inside the table, the destination records `from` as its origin, and
/// the destination does not point straight back at `from`.
pub open spec fn valid_link(links: Seq<Link>, from: u32, to: int) -> bool {
    &&& 0 <= to < links.len()
    &&& links[to].check == from
    &&& links[to].base != from
}

/// A valid transition whose destination is an output node: its `base`
/// has the most significant bit set and ends a dictionary entry.
pub open spec fn valid_out(links: Seq<Link>, from: u32, to: int) -> bool {
    valid_link(links, from, to) && links[to].base >= 0x8000_0000
}

/// Checks one transition, reporting which rule failed: 1 when the
/// destination is out of bounds, 2 when its `check` does not name the
/// origin, 3 when its `base` points straight back at the origin.
pub fn check_valid_link(links: &[Link], from: u32, to: u32) -> (r: Result<(), i32>)
    ensures
        r is Ok <==> valid_link(links@, from, to as int),
        r == Err::<(), i32>(1) <==> to as int >= links@.len(),
        r == Err::<(), i32>(2) <==> (to as int) < links@.len() && links@[to as int].check != from,
        r == Err::<(), i32>(3) <==> (to as int) < links@.len() && links@[to as int].check == from
            && links@[to as int].base == from,
{
    if to as usize >= links.len() {
        Err(1)
    } else if links[to as usize].check != from {
        Err(2)
    } else if links[to as usize].base == from {
        Err(3)
    } else {
        Ok(())
    }
}

/// Checks one transition to an output node: besides the transition
/// rules, the destination's `base` must have its most significant bit
/// set, else -1 is reported.
pub fn check_valid_out(links: &[Link], from: u32, to: u32) -> (r: Result<(), i32>)
    ensures
        r is Ok <==> valid_out(links@, from, to as int),
        r == Err::<(), i32>(-1i32) <==> valid_link(links@, from, to as int)
            && links@[to as int].base < 0x8000_0000,
        r == Err::<(), i32>(1) <==> to as int >= links@.len(),
        r == Err::<(), i32>(2) <==> (to as int) < links@.len() && links@[to as int].check != from,
        r == Err::<(), i32>(3) <==> (to as int) < links@.len() && links@[to as int].check == from
            && links@[to as int].base == from,
{
    match check_valid_link(links, from, to) {
        Err(err) => Err(err),
        Ok(()) => {
            if links[to as usize].base < 0x8000_0000 {
                Err(-1)
            } else {
                Ok(())
            }
        },
    }
}

/// The bitwise complement of a 32-bit value, which unpacks an output
/// node's `base` into a token-range pointer.
pub open spec fn complement32(x: u32) -> u32 {
    (0xFFFF_FFFFu32 - x) as u32
}

/// Everything a depth-bounded traversal finds below the node reached
/// through offset `base`, with `key` the bytes accumulated so far: each
/// output node met contributes its key bytes and its unpacked pointer,
/// the current node first, then children in ascending byte order.
/// `None` when the depth budget runs out anywhere below.
pub open spec fn walk(links: Seq<Link>, base: u32, key: Seq<u8>, depth: nat) -> Option<
    Seq<(Seq<u8>, u32)>,
>
    decreases depth, 0int,
{
    if depth == 0 {
        None
    } else {
        let term: Seq<(Seq<u8>, u32)> = if valid_out(links, base, base as int) {
            seq![(key, complement32(links[base as int].base))]
        } else {
            Seq::empty()
        };
        match walk_children(links, base, key, (depth - 1) as nat, 0) {
            None => None,
            Some(rest) => Some(term + rest),
        }
    }
}

/// The part of `walk` that explores the children for byte values
/// `i..256`.
pub open spec fn walk_children(links: Seq<Link>, base: u32, key: Seq<u8>, depth: nat, i: int) -> Option<
    Seq<(Seq<u8>, u32)>,
>
    decreases depth, 257 - i,
{
    if i < 0 || 256 <= i {
        Some(Seq::empty())
    } else {
        let to = base + 1 + i;
        let rest = walk_children(links, base, key, depth, i + 1);
        if to <= u32::MAX && valid_link(links, base, to) {
            match walk(links, links[to].base, key.push(i as u8), depth) {
                None => None,
                Some(sub) => match rest {
                    None => None,
                    Some(r) => Some(sub + r),
                },
            }
        } else {
            rest
        }
    }
}

/// The decoded form of the walker's raw findings: each key whose
/// nul-truncated bytes are valid UTF-8 becomes a string entry, in
/// traversal order; the others are silently dropped.
pub open spec fn decoded_entries(es: Seq<(Seq<u8>, u32)>) -> Seq<(Seq<char>, u32)>
    decreases es.len(),
{
    if es.len() == 0 {
        Seq::empty()
    } else {
        let head: Seq<(Seq<char>, u32)> = if valid_utf8(truncate_at_nul(es[0].0)) {
            seq![(decode_utf8(truncate_at_nul(es[0].0)), es[0].1)]
        } else {
            Seq::empty()
        };
        head + decoded_entries(es.drop_first())
    }
}

pub proof fn lemma_decoded_entries_concat(a: Seq<(Seq<u8>, u32)>, b: Seq<(Seq<u8>, u32)>)
    ensures
        decoded_entries(a + b) == decoded_entries(a) + decoded_entries(b),
    decreases a.len(),
{
    if a.len() == 0 {
        assert(a + b =~= b);
        assert(decoded_entries(a) + decoded_entries(b) =~= decoded_entries(b));
    } else {
        lemma_decoded_entries_concat(a.drop_first(), b);
        assert((a + b).drop_first() =~= a.drop_first() + b);
        assert((a + b)[0] == a[0]);
        let head: Seq<(Seq<char>, u32)> = if valid_utf8(truncate_at_nul(a[0].0)) {
            seq![(decode_utf8(truncate_at_nul(a[0].0)), a[0].1)]
        } else {
            Seq::empty()
        };
        assert(decoded_entries(a + b) == head + (decoded_entries(a.drop_first())
            + decoded_entries(b)));
        assert(head + (decoded_entries(a.drop_first()) + decoded_entries(b)) =~= (head
            + decoded_entries(a.drop_first())) + decoded_entries(b));
    }
}

/// The string-level view of a collected `(key, pointer)` list.
pub open spec fn entry_views(s: Seq<(String, u32)>) -> Seq<(Seq<char>, u32)> {
    s.map_values(|e: (String, u32)| (e.0@, e.1))
}

/// Depth-first collection of every dictionary entry reachable from the
/// node reached through offset `base`, appended to `collection`: the
/// executable form of `walk` followed by `decoded_entries`. Fails with
/// a corruption error when the trie is deeper than `depth`.
pub fn collect_links_hashmap(
    links: &[Link],
    base: u32,
    collection: &mut Vec<(String, u32)>,
    key: &Vec<u8>,
    depth: u32,
) -> (r: Result<(), DartError>)
    ensures
        r is Ok <==> walk(links@, base, key@, depth as nat) is Some,
        r is Ok ==> entry_views(final(collection)@) == entry_views(old(collection)@)
            + decoded_entries(walk(links@, base, key@, depth as nat).unwrap()),
        r is Err ==> r == Err::<(), DartError>(DartError::StructuralCorruption),
    decreases depth,
{
    let ghost coll0: Seq<(String, u32)> = collection@;
    if depth == 0 {
        return Err(DartError::StructuralCorruption);
    }
    let ghost d0: nat = (depth - 1) as nat;
    let ghost term: Seq<(Seq<u8>, u32)> = if valid_out(links@, base, base as int) {
        seq![(key@, complement32(links@[base as int].base))]
    } else {
        Seq::empty()
    };

    let self_ok = match check_valid_out(links, base, base) {
        Ok(()) => true,
        Err(_) => false,
    };
    if self_ok {
        let ptr: u32 = 0xFFFF_FFFFu32 - links[base as usize].base;
        match read_str_buffer(key.as_slice()) {
            Ok(s) => {
                collection.push((s, ptr));
                proof {
                    assert(decoded_entries(term.drop_first()) =~= Seq::<(Seq<char>, u32)>::empty());
                    assert(decoded_entries(term) =~= seq![(decode_utf8(truncate_at_nul(key@)), ptr)]);
                    assert(entry_views(collection@) =~= entry_views(coll0) + decoded_entries(term));
                }
            },
            Err(_) => {
                proof {
                    assert(!valid_utf8(truncate_at_nul(key@)));
                    assert(term[0].0 == key@);
                    assert(term.drop_first() =~= Seq::<(Seq<u8>, u32)>::empty());
                    assert(decoded_entries(term.drop_first()) =~= Seq::<(Seq<char>, u32)>::empty());
                    assert(decoded_entries(term) =~= Seq::<(Seq<char>, u32)>::empty());
                    assert(entry_views(collection@) =~= entry_views(coll0) + decoded_entries(term));
                }
            },
        }
    } else {
        proof {
            assert(decoded_entries(term) =~= Seq::<(Seq<char>, u32)>::empty());
            assert(entry_views(collection@) =~= entry_views(coll0) + decoded_entries(term));
        }
    }

    let ghost mut acc: Seq<(Seq<u8>, u32)> = Seq::empty();
    let mut i: u32 = 0;
    while i < 256
        invariant
            i <= 256,
            1 <= depth,
            d0 == (depth - 1) as nat,
            term == (if valid_out(links@, base, base as int) {
                seq![(key@, complement32(links@[base as int].base))]
            } else {
                Seq::<(Seq<u8>, u32)>::empty()
            }),
            walk_children(links@, base, key@, d0, i as int) is Some ==> walk_children(
                links@,
                base,
                key@,
                d0,
                0,
            ) == Some(acc + walk_children(links@, base, key@, d0, i as int).unwrap()),
            walk_children(links@, base, key@, d0, i as int) is None ==> walk_children(
                links@,
                base,
                key@,
                d0,
                0,
            ) is None,
            entry_views(collection@) == entry_views(coll0) + decoded_entries(term)
                + decoded_entries(acc),
        decreases 256 - i,
    {
        let to64: u64 = base as u64 + 1 + i as u64;
        let ghost to_int: int = base as int + 1 + i as int;
        if to64 <= 0xFFFF_FFFFu64 {
            let to: u32 = to64 as u32;
            let child_ok = match check_valid_link(links, base, to) {
                Ok(()) => true,
                Err(_) => false,
            };
            if child_ok {
                let mut newkey: Vec<u8> = Vec::new();
                let mut j: usize = 0;
                while j < key.len()
                    invariant
                        j <= key@.len(),
                        newkey@ == key@.take(j as int),
                    decreases key@.len() - j,
                {
                    newkey.push(key[j]);
                    j = j + 1;
                }
                assert(newkey@ =~= key@);
                newkey.push(i as u8);
                assert(newkey@ == key@.push(i as u8));
                let child_base = links[to as usize].base;
                let ghost coll_before: Seq<(String, u32)> = collection@;
                match collect_links_hashmap(links, child_base, collection, &newkey, depth - 1) {
                    Ok(()) => {
                        proof {
                            let sub = walk(links@, child_base, key@.push(i as u8), d0).unwrap();
                            lemma_decoded_entries_concat(acc, sub);
                            assert(entry_views(collection@) =~= entry_views(coll0)
                                + decoded_entries(term) + decoded_entries(acc + sub));
                            acc = acc + sub;
                        }
                    },
                    Err(e) => {
                        proof {
                            assert(walk(links@, child_base, key@.push(i as u8), d0) is None);
                            assert(walk_children(links@, base, key@, d0, i as int) is None);
                        }
                        return Err(e);
                    },
                }
            } else {
                proof {
                    assert(walk_children(links@, base, key@, d0, i as int) == walk_children(
                        links@,
                        base,
                        key@,
                        d0,
                        i as int + 1,
                    ));
                }
            }
        } else {
            proof {
                assert(to_int > u32::MAX);
                assert(walk_children(links@, base, key@, d0, i as int) == walk_children(
                    links@,
                    base,
                    key@,
                    d0,
                    i as int + 1,
                ));
            }
        }
        i = i + 1;
    }
    proof {
        assert(walk_children(links@, base, key@, d0, 256) == Some(Seq::<(Seq<u8>, u32)>::empty()));
        assert(acc + Seq::<(Seq<u8>, u32)>::empty() =~= acc);
        assert(walk_children(links@, base, key@, d0, 0) == Some(acc));
        assert(walk(links@, base, key@, depth as nat) == Some(term + acc));
        lemma_decoded_entries_concat(term, acc);
    }
    Ok(())
}

} // verus!
