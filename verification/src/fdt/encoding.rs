//! Big-endian integer decoding, NUL-terminated string search and UTF-8 checks on byte buffers.

use vstd::prelude::*;
use vstd::string::*;
use vstd::utf8::*;

verus! {

/// The big-endian `u32` stored in the four bytes starting at `i`.
pub open spec fn be_u32_at(s: Seq<u8>, i: int) -> u32 {
    (s[i] as int * 0x100_0000 + s[i + 1] as int * 0x1_0000 + s[i + 2] as int * 0x100
        + s[i + 3] as int) as u32
}

/// The big-endian `u64` stored in the eight bytes starting at `i`.
pub open spec fn be_u64_at(s: Seq<u8>, i: int) -> u64 {
    (be_u32_at(s, i) as int * 0x1_0000_0000 + be_u32_at(s, i + 4) as int) as u64
}

/// Position of the first zero byte at or after `i`, if any.
pub open spec fn first_zero_from(s: Seq<u8>, i: int) -> Option<int>
    decreases s.len() - i,
{
    if i < 0 || i >= s.len() {
        None
    } else if s[i] == 0 {
        Some(i)
    } else {
        first_zero_from(s, i + 1)
    }
}

/// The characters that a valid UTF-8 byte sequence encodes, or `None` for invalid bytes.
pub open spec fn utf8_chars(s: Seq<u8>) -> Option<Seq<char>> {
    if valid_utf8(s) {
        Some(decode_utf8(s))
    } else {
        None
    }
}

/// The first zero byte found from `i` on lies in `s`, at or after `i`, and no byte between `i`
/// and it is zero.
pub proof fn lemma_first_zero_from_bounds(s: Seq<u8>, i: int)
    ensures
        first_zero_from(s, i) matches Some(k) ==> (0 <= i <= k < s.len() && s[k] == 0 && forall|
            j: int,
        | i <= j < k ==> s[j] != 0),
    decreases s.len() - i,
{
    if 0 <= i < s.len() && s[i] != 0 {
        lemma_first_zero_from_bounds(s, i + 1);
    }
}

/// Read the big-endian `u32` at position `i` of `buf`.
pub fn read_be_u32(buf: &[u8], i: usize) -> (r: u32)
    requires
        i + 4 <= buf@.len(),
    ensures
        r == be_u32_at(buf@, i as int),
{
    let b0: u32 = buf[i] as u32;
    let b1: u32 = buf[i + 1] as u32;
    let b2: u32 = buf[i + 2] as u32;
    let b3: u32 = buf[i + 3] as u32;
    b0 * 0x100_0000 + b1 * 0x1_0000 + b2 * 0x100 + b3
}

/// Read the big-endian `u64` at position `i` of `buf`.
pub fn read_be_u64(buf: &[u8], i: usize) -> (r: u64)
    requires
        i + 8 <= buf@.len(),
    ensures
        r == be_u64_at(buf@, i as int),
{
    let n: usize = buf.len();
    assert(i + 8 <= n);
    let hi: u64 = read_be_u32(buf, i) as u64;
    let lo: u64 = read_be_u32(buf, i + 4) as u64;
    hi * 0x1_0000_0000 + lo
}

/// Find the first zero byte at or after `start`.
pub fn find_zero(buf: &[u8], start: usize) -> (r: Option<usize>)
    ensures
        match r {
            Some(k) => first_zero_from(buf@, start as int) == Some(k as int),
            None => first_zero_from(buf@, start as int) is None,
        },
{
    let mut i: usize = start;
    while i < buf.len()
        invariant
            start <= i,
            first_zero_from(buf@, start as int) == first_zero_from(buf@, i as int),
        decreases buf.len() - i,
    {
        if buf[i] == 0 {
            return Some(i);
        }
        i = i + 1;
    }
    None
}

/// Interpret bytes as UTF-8 text.
///
/// Calls `core::str::from_utf8`, whose documentation states that it succeeds exactly on valid
/// UTF-8 input and returns a string slice over the very same bytes.
#[verifier::external_body]
pub(crate) fn str_from_utf8(bytes: &[u8]) -> (r: Option<&str>)
    ensures
        r is Some <==> valid_utf8(bytes@),
        r matches Some(s) ==> s.spec_bytes() == bytes@,
{
    core::str::from_utf8(bytes).ok()
}

/// Decode UTF-8 bytes into an owned string.
pub fn utf8_to_string(bytes: &[u8]) -> (r: Option<String>)
    ensures
        match r {
            Some(s) => utf8_chars(bytes@) == Some(s@),
            None => utf8_chars(bytes@) is None,
        },
{
    match str_from_utf8(bytes) {
        Some(s) => {
            proof {
                encode_utf8_decode_utf8(s@);
            }
            Some(s.to_owned())
        },
        None => None,
    }
}

/// Whether two byte slices hold the same bytes.
pub fn bytes_equal(a: &[u8], b: &[u8]) -> (r: bool)
    ensures
        r == (a@ == b@),
{
    if a.len() != b.len() {
        return false;
    }
    let mut i: usize = 0;
    while i < a.len()
        invariant
            a@.len() == b@.len(),
            i <= a@.len(),
            forall|j: int| 0 <= j < i ==> a@[j] == b@[j],
        decreases a.len() - i,
    {
        if a[i] != b[i] {
            return false;
        }
        i = i + 1;
    }
    assert(a@ =~= b@);
    true
}

} // verus!
