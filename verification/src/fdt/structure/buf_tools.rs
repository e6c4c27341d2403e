//! Scanning byte buffers for structure block tokens.

use vstd::prelude::*;
use crate::fdt::encoding::{be_u32_at, read_be_u32};

verus! {

/// Marks the beginning of a node; followed by the node's NUL-terminated name.
pub const FDT_BEGIN_NODE: u32 = 0x0000_0001;

/// Marks the end of a node.
pub const FDT_END_NODE: u32 = 0x0000_0002;

/// Marks the beginning of a property.
pub const FDT_PROP: u32 = 0x0000_0003;

/// Ignored by parsers; used to blank out parts of a tree.
pub const FDT_NOP: u32 = 0x0000_0004;

/// Marks the end of the structure block.
pub const FDT_END: u32 = 0x0000_0009;

/// Whether `w` is a token that a scan reports (NOP tokens only when they are not skipped).
pub open spec fn is_token(w: u32, skip_nops: bool) -> bool {
    w == FDT_BEGIN_NODE || w == FDT_END_NODE || w == FDT_PROP || w == FDT_END || (!skip_nops
        && w == FDT_NOP)
}

/// The first token among the 4-aligned words of `s` at or after `i`, with its position.
pub open spec fn next_token_from(s: Seq<u8>, i: int, skip_nops: bool) -> Option<(int, u32)>
    decreases s.len() - i,
{
    if i < 0 || i + 4 > s.len() {
        None
    } else if is_token(be_u32_at(s, i), skip_nops) {
        Some((i, be_u32_at(s, i)))
    } else {
        next_token_from(s, i + 4, skip_nops)
    }
}

/// The first 4-aligned position at or after `i` whose word equals `w`.
pub open spec fn word_pos_from(s: Seq<u8>, i: int, w: u32) -> Option<int>
    decreases s.len() - i,
{
    if i < 0 || i + 4 > s.len() {
        None
    } else if be_u32_at(s, i) == w {
        Some(i)
    } else {
        word_pos_from(s, i + 4, w)
    }
}

/// Whether `s` starts with the token `t`.
pub open spec fn starts_with_token(s: Seq<u8>, t: u32) -> bool {
    s.len() >= 4 && be_u32_at(s, 0) == t
}

/// `n` rounded up to the next multiple of four.
pub open spec fn align4(n: int) -> int {
    if n % 4 == 0 {
        n
    } else {
        n + (4 - n % 4)
    }
}

/// A scan that reports a token at position 0 found exactly the token that `s` starts with.
pub proof fn lemma_token_at_start(s: Seq<u8>, skip_nops: bool, t: u32)
    requires
        is_token(t, skip_nops),
    ensures
        (next_token_from(s, 0, skip_nops) == Some((0int, t))) == starts_with_token(s, t),
{
    if s.len() >= 4 && !is_token(be_u32_at(s, 0), skip_nops) {
        lemma_next_token_after(s, 4, skip_nops);
    }
}

proof fn lemma_next_token_after(s: Seq<u8>, i: int, skip_nops: bool)
    requires
        i >= 0,
    ensures
        next_token_from(s, i, skip_nops) matches Some((p, _)) ==> p >= i,
    decreases s.len() - i,
{
    if i + 4 <= s.len() && !is_token(be_u32_at(s, i), skip_nops) {
        lemma_next_token_after(s, i + 4, skip_nops);
    }
}

/// Round `n` up to the next multiple of four, the alignment of structure block tokens.
pub fn align_to_token(n: usize) -> (r: usize)
    requires
        n + 3 <= usize::MAX,
    ensures
        r == align4(n as int),
        r % 4 == 0,
        n <= r < n + 4,
{
    let rem: usize = n % 4;
    if rem == 0 {
        n
    } else {
        n + (4 - rem)
    }
}

/// Whether the buffer starts with the token `t`.
pub fn has_token_at_start(buf: &[u8], t: u32) -> (r: bool)
    ensures
        r == starts_with_token(buf@, t),
{
    buf.len() >= 4 && read_be_u32(buf, 0) == t
}

/// Working with byte buffers that contain FDT tokens.
pub trait ByteSliceWithTokens {
    /// The next token (a NOP only when `skip_nops` is false) among the 4-aligned words,
    /// as `(position, token)`.
    fn next_token(&self, skip_nops: bool) -> Option<(usize, u32)>;

    /// The position of the first 4-aligned occurrence of the token `token`.
    fn find_token(&self, token: u32) -> Option<usize>;
}

impl ByteSliceWithTokens for [u8] {
    fn next_token(&self, skip_nops: bool) -> (r: Option<(usize, u32)>)
        ensures
            match r {
                Some((p, t)) => next_token_from(self@, 0, skip_nops) == Some((p as int, t)),
                None => next_token_from(self@, 0, skip_nops) is None,
            },
    {
        let len: usize = self.len();
        let mut i: usize = 0;
        while len >= 4 && i <= len - 4
            invariant
                len == self@.len(),
                i <= len,
                next_token_from(self@, 0, skip_nops) == next_token_from(self@, i as int, skip_nops),
            decreases len - i,
        {
            let w: u32 = read_be_u32(self, i);
            if w == FDT_BEGIN_NODE || w == FDT_END_NODE || w == FDT_PROP || w == FDT_END || (
            !skip_nops && w == FDT_NOP) {
                return Some((i, w));
            }
            i = i + 4;
        }
        None
    }

    fn find_token(&self, token: u32) -> (r: Option<usize>)
        ensures
            match r {
                Some(p) => is_token(token, false) && word_pos_from(self@, 0, token) == Some(
                    p as int,
                ),
                None => !is_token(token, false) || word_pos_from(self@, 0, token) is None,
            },
    {
        if !(token == FDT_BEGIN_NODE || token == FDT_END_NODE || token == FDT_PROP || token
            == FDT_END || token == FDT_NOP) {
            return None;
        }
        let len: usize = self.len();
        let mut i: usize = 0;
        while len >= 4 && i <= len - 4
            invariant
                len == self@.len(),
                i <= len,
                is_token(token, false),
                word_pos_from(self@, 0, token) == word_pos_from(self@, i as int, token),
            decreases len - i,
        {
            if read_be_u32(self, i) == token {
                return Some(i);
            }
            i = i + 4;
        }
        None
    }
}

} // verus!
