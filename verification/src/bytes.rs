use vstd::prelude::*;
use vstd::utf8::{decode_utf8, valid_utf8};

use crate::error::DartError;

verus! {

/// The value of the four little-endian bytes starting at `off`.
pub open spec fn u32_le_at(b: Seq<u8>, off: int) -> int {
    b[off] + 0x100 * b[off + 1] + 0x1_0000 * b[off + 2] + 0x100_0000 * b[off + 3]
}

pub proof fn lemma_u32_le_at_bounds(b: Seq<u8>, off: int)
    requires
        0 <= off,
        off + 4 <= b.len(),
    ensures
        0 <= u32_le_at(b, off) <= 0xFFFF_FFFF,
{
}

/// Reads one little-endian `u32`, failing when the input is too short.
pub fn read_u32(b: &[u8], off: usize) -> (r: Result<u32, DartError>)
    ensures
        off + 4 <= b@.len() ==> (r matches Ok(v) && v == u32_le_at(b@, off as int)),
        off + 4 > b@.len() ==> r == Err::<u32, DartError>(DartError::IOError),
{
    if off < b.len() && b.len() - off >= 4 {
        let v: u32 = (b[off] as u32) + 0x100u32 * (b[off + 1] as u32) + 0x1_0000u32 * (b[off
            + 2] as u32) + 0x100_0000u32 * (b[off + 3] as u32);
        Ok(v)
    } else {
        Err(DartError::IOError)
    }
}

/// Length of the prefix that stops at the first zero byte.
pub open spec fn nul_prefix_len(b: Seq<u8>) -> int
    decreases b.len(),
{
    if b.len() == 0 {
        0
    } else if b[0] == 0 {
        0
    } else {
        1 + nul_prefix_len(b.drop_first())
    }
}

/// The bytes before the first zero byte: the raw text of a stored string.
pub open spec fn truncate_at_nul(b: Seq<u8>) -> Seq<u8> {
    b.subrange(0, nul_prefix_len(b))
}

pub proof fn lemma_nul_prefix_len_is(b: Seq<u8>, i: int)
    requires
        0 <= i <= b.len(),
        forall|j: int| 0 <= j < i ==> b[j] != 0,
        i < b.len() ==> b[i] == 0,
    ensures
        nul_prefix_len(b) == i,
    decreases b.len(),
{
    if b.len() == 0 {
    } else if b[0] == 0 {
        assert(i == 0);
    } else {
        assert(i >= 1);
        let t = b.drop_first();
        assert(forall|j: int| 0 <= j < i - 1 ==> t[j] == b[j + 1] && t[j] != 0);
        assert(i - 1 < t.len() ==> t[i - 1] == b[i]);
        lemma_nul_prefix_len_is(t, i - 1);
    }
}

/// Relies on core::str::from_utf8: it returns Ok exactly on valid UTF-8
/// input, viewing the bytes as the characters they encode.
#[verifier::external_body]
fn bytes_as_str(b: &[u8]) -> (r: Option<&str>)
    ensures
        r is Some <==> valid_utf8(b@),
        r matches Some(s) ==> s@ == decode_utf8(b@),
{
    core::str::from_utf8(b).ok()
}

/// Decodes the bytes before the first zero byte as UTF-8 text, the
/// convention every stored string of the format follows.
pub fn read_str_buffer(buffer: &[u8]) -> (r: Result<String, DartError>)
    ensures
        valid_utf8(truncate_at_nul(buffer@)) ==> (r matches Ok(s) && s@ == decode_utf8(
            truncate_at_nul(buffer@),
        )),
        !valid_utf8(truncate_at_nul(buffer@)) ==> r == Err::<String, DartError>(
            DartError::UnsupportedEncoding,
        ),
{
    let mut end: usize = 0;
    while end < buffer.len() && buffer[end] != 0
        invariant
            end <= buffer@.len(),
            forall|j: int| 0 <= j < end ==> buffer@[j] != 0,
        decreases buffer@.len() - end,
    {
        end = end + 1;
    }
    proof {
        lemma_nul_prefix_len_is(buffer@, end as int);
    }
    let head: &[u8] = &buffer[0..end];
    assert(head@ == truncate_at_nul(buffer@));
    match bytes_as_str(head) {
        Some(s) => Ok(s.to_owned()),
        None => Err(DartError::UnsupportedEncoding),
    }
}

} // verus!
