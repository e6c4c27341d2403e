//! The begin- and end-tags that the boundary tag allocator writes around each chunk.
//!
//! A begin-tag stores the chunk's content size in `W` bytes (little-endian) followed by one
//! allocation marker byte; an end-tag stores the content size again in `W` bytes. `W` is chosen
//! by the tag type: 1 byte for [`TagsU8`], 2 for [`TagsU16`], 4 for [`TagsU32`] and 8 for
//! [`TagsU64`] and [`TagsUsize`].

use vstd::prelude::*;
use vstd::arithmetic::div_mod::{lemma_mod_breakdown, lemma_div_denominator};

verus! {

/// The marker byte of a free chunk.
pub const MARKER_FREE: u8 = 1;

/// The marker byte of an allocated chunk.
pub const MARKER_ALLOCATED: u8 = 2;

/// `256` to the power `w`.
pub open spec fn pow256(w: nat) -> nat
    decreases w,
{
    if w == 0 {
        1
    } else {
        256 * pow256((w - 1) as nat)
    }
}

/// The number that the `w` bytes of `s` from `p` on encode, least significant byte first.
pub open spec fn le_value(s: Seq<u8>, p: int, w: nat) -> nat
    decreases w,
{
    if w == 0 {
        0
    } else {
        le_value(s, p, (w - 1) as nat) + pow256((w - 1) as nat) * (s[p + w - 1] as nat)
    }
}

/// A choice of tag width.
pub trait TagsBinding {
    /// How many bytes a tag uses to store a content size.
    spec fn spec_width() -> nat;

    /// How many bytes a tag uses to store a content size.
    fn width() -> (r: usize)
        ensures
            r == Self::spec_width(),
            r == 1 || r == 2 || r == 4 || r == 8,
    ;
}

/// Tags that store content sizes in one byte (up to 255 bytes of backing memory).
pub struct TagsU8;

/// Tags that store content sizes in two bytes.
pub struct TagsU16;

/// Tags that store content sizes in four bytes.
pub struct TagsU32;

/// Tags that store content sizes in eight bytes.
pub struct TagsU64;

/// Tags that store content sizes in as many bytes as a `usize` on 64-bit targets (eight).
pub struct TagsUsize;

impl TagsBinding for TagsU8 {
    open spec fn spec_width() -> nat {
        1
    }

    fn width() -> (r: usize) {
        1
    }
}

impl TagsBinding for TagsU16 {
    open spec fn spec_width() -> nat {
        2
    }

    fn width() -> (r: usize) {
        2
    }
}

impl TagsBinding for TagsU32 {
    open spec fn spec_width() -> nat {
        4
    }

    fn width() -> (r: usize) {
        4
    }
}

impl TagsBinding for TagsU64 {
    open spec fn spec_width() -> nat {
        8
    }

    fn width() -> (r: usize) {
        8
    }
}

impl TagsBinding for TagsUsize {
    open spec fn spec_width() -> nat {
        8
    }

    fn width() -> (r: usize) {
        8
    }
}

/// Every power of 256 is positive.
pub proof fn lemma_pow256_positive(w: nat)
    ensures
        pow256(w) >= 1,
    decreases w,
{
    if w > 0 {
        lemma_pow256_positive((w - 1) as nat);
    }
}

/// The powers of 256 that the tag widths use.
pub proof fn lemma_pow256_values()
    ensures
        pow256(0) == 1,
        pow256(1) == 0x100,
        pow256(2) == 0x1_0000,
        pow256(4) == 0x1_0000_0000,
        pow256(7) == 0x100_0000_0000_0000,
        pow256(8) == 0x1_0000_0000_0000_0000,
{
    reveal_with_fuel(pow256, 9);
}

/// The value is below `256^w`.
pub proof fn lemma_le_value_bound(s: Seq<u8>, p: int, w: nat)
    ensures
        le_value(s, p, w) < pow256(w),
    decreases w,
{
    if w > 0 {
        lemma_le_value_bound(s, p, (w - 1) as nat);
        let a = le_value(s, p, (w - 1) as nat);
        let b = s[p + w - 1] as int;
        let q = pow256((w - 1) as nat) as int;
        assert(a + q * b < q * 256) by (nonlinear_arith)
            requires
                a < q,
                0 <= b < 256,
        ;
    }
}

/// The value only depends on the `w` bytes it is read from.
pub proof fn lemma_le_value_frame(s: Seq<u8>, t: Seq<u8>, p: int, w: nat)
    requires
        forall|k: int| p <= k < p + w ==> s[k] == t[k],
    ensures
        le_value(s, p, w) == le_value(t, p, w),
    decreases w,
{
    if w > 0 {
        lemma_le_value_frame(s, t, p, (w - 1) as nat);
    }
}

/// Write `v` into the `w` bytes of `mem` from `p` on, least significant byte first.
pub fn write_le(mem: &mut Vec<u8>, p: usize, w: usize, v: u64)
    requires
        w <= 8,
        p + w <= old(mem)@.len(),
        v < pow256(w as nat),
    ensures
        final(mem)@.len() == old(mem)@.len(),
        le_value(final(mem)@, p as int, w as nat) == v,
        forall|k: int|
            0 <= k < old(mem)@.len() && !(p <= k < p + w) ==> final(mem)@[k] == old(mem)@[k],
{
    let mut x: u64 = v;
    let mut j: usize = 0;
    let n: usize = mem.len();
    proof {
        lemma_pow256_values();
    }
    while j < w
        invariant
            j <= w <= 8,
            p + w <= mem@.len(),
            mem@.len() == old(mem)@.len(),
            n == mem@.len(),
            v < pow256(w as nat),
            pow256(j as nat) > 0,
            x as int == v as int / pow256(j as nat) as int,
            le_value(mem@, p as int, j as nat) as int == v as int % pow256(j as nat) as int,
            forall|k: int|
                0 <= k < old(mem)@.len() && !(p <= k < p + j) ==> mem@[k] == old(mem)@[k],
        decreases w - j,
    {
        let ghost before = mem@;
        let byte: u8 = (x % 256) as u8;
        mem.set(p + j, byte);
        proof {
            lemma_le_value_frame(before, mem@, p as int, j as nat);
            let q = pow256(j as nat) as int;
            lemma_mod_breakdown(v as int, q, 256);
            lemma_div_denominator(v as int, q, 256);
            assert(pow256((j + 1) as nat) == 256 * pow256(j as nat));
            assert(q * 256 == 256 * q) by (nonlinear_arith);
        }
        x = x / 256;
        j = j + 1;
    }
    proof {
        lemma_le_value_bound(mem@, p as int, w as nat);
        vstd::arithmetic::div_mod::lemma_small_mod(v as nat, pow256(w as nat));
    }
}

/// Read the value stored in the `w` bytes of `mem` from `p` on, least significant byte first.
pub fn read_le(mem: &[u8], p: usize, w: usize) -> (r: u64)
    requires
        w <= 8,
        p + w <= mem@.len(),
    ensures
        r == le_value(mem@, p as int, w as nat),
{
    let mut acc: u64 = 0;
    let mut scale: u64 = 1;
    let mut j: usize = 0;
    let n: usize = mem.len();
    proof {
        lemma_pow256_values();
    }
    while j < w
        invariant
            j <= w <= 8,
            p + w <= mem@.len(),
            n == mem@.len(),
            j < 8 ==> scale == pow256(j as nat),
            acc == le_value(mem@, p as int, j as nat),
        decreases w - j,
    {
        proof {
            lemma_le_value_bound(mem@, p as int, (j + 1) as nat);
            lemma_pow256_bounded(j as nat);
        }
        acc = acc + scale * (mem[p + j] as u64);
        if j + 1 < 8 {
            proof {
                lemma_pow256_bounded((j + 1) as nat);
            }
            scale = scale * 256;
        }
        j = j + 1;
    }
    acc
}

proof fn lemma_pow256_bounded(j: nat)
    requires
        j < 8,
    ensures
        pow256(j) <= 0x100_0000_0000_0000,
        pow256(j + 1) <= 0x1_0000_0000_0000_0000,
    decreases j,
{
    lemma_pow256_values();
    if j > 0 {
        lemma_pow256_bounded((j - 1) as nat);
    }
}

} // verus!
