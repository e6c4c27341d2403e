//! The abstract view of the backing memory as a sequence of chunks, and the facts that tie
//! the chunks to the tags written in memory.

use vstd::prelude::*;
use crate::allocators::layout::padding;
use crate::allocators::boundary_tag_alloc::tags::{
    le_value, lemma_le_value_frame, pow256, MARKER_ALLOCATED, MARKER_FREE,
};

verus! {

/// A chunk of backing memory: the position of its begin-tag, its content size and whether it
/// is allocated.
pub type Chunk = (int, int, bool);

/// The bytes that the two tags of a chunk use together.
pub open spec fn tags_size(w: nat) -> int {
    (2 * w + 1) as int
}

/// Where the content of a chunk starts.
pub open spec fn content_start(c: Chunk, w: nat) -> int {
    c.0 + w + 1
}

/// Where a chunk ends (one past its end-tag).
pub open spec fn chunk_end(c: Chunk, w: nat) -> int {
    c.0 + tags_size(w) + c.1
}

/// Position `k` holds a byte of one of the two tags of chunk `c`.
pub open spec fn tag_byte(c: Chunk, w: nat, k: int) -> bool {
    ||| c.0 <= k < content_start(c, w)
    ||| content_start(c, w) + c.1 <= k < chunk_end(c, w)
}

/// The marker byte that records whether a chunk is allocated.
pub open spec fn marker(allocated: bool) -> u8 {
    if allocated {
        MARKER_ALLOCATED
    } else {
        MARKER_FREE
    }
}

/// The chunks lie one after the other without gaps from `start` to `end`, each with at least
/// one content byte.
pub open spec fn tiles_range(cs: Seq<Chunk>, w: nat, start: int, end: int) -> bool {
    &&& cs.len() >= 1
    &&& cs[0].0 == start
    &&& forall|i: int| 0 <= i < cs.len() - 1 ==> #[trigger] cs[i + 1].0 == chunk_end(cs[i], w)
    &&& chunk_end(cs[cs.len() - 1], w) == end
    &&& forall|i: int| 0 <= i < cs.len() ==> #[trigger] cs[i].1 >= 1
}

/// The tags of chunk `c` are written in `mem`.
pub open spec fn tags_ok(mem: Seq<u8>, c: Chunk, w: nat) -> bool {
    &&& 0 <= c.0
    &&& chunk_end(c, w) <= mem.len()
    &&& le_value(mem, c.0, w) == c.1
    &&& mem[c.0 + w] == marker(c.2)
    &&& le_value(mem, c.0 + w + 1 + c.1, w) == c.1
}

/// The backing memory `mem` is divided into the chunks `cs`, whose tags are written in it.
pub open spec fn chunks_wf(mem: Seq<u8>, cs: Seq<Chunk>, w: nat) -> bool {
    &&& w == 1 || w == 2 || w == 4 || w == 8
    &&& mem.len() < pow256(w)
    &&& tiles_range(cs, w, 0, mem.len() as int)
    &&& forall|i: int| 0 <= i < cs.len() ==> #[trigger] tags_ok(mem, cs[i], w)
}

/// Later chunks start after earlier ones end.
pub proof fn lemma_tiles_order(cs: Seq<Chunk>, w: nat, start: int, end: int, i: int, j: int)
    requires
        tiles_range(cs, w, start, end),
        0 <= i < j < cs.len(),
    ensures
        chunk_end(cs[i], w) <= cs[j].0,
    decreases j - i,
{
    if j > i + 1 {
        lemma_tiles_order(cs, w, start, end, i, j - 1);
        let k = j - 1;
        assert(cs[k + 1].0 == chunk_end(cs[k], w));
    } else {
        assert(cs[i + 1].0 == chunk_end(cs[i], w));
    }
}

/// Every chunk lies within the tiled range.
pub proof fn lemma_tiles_bounds(cs: Seq<Chunk>, w: nat, start: int, end: int, i: int)
    requires
        tiles_range(cs, w, start, end),
        0 <= i < cs.len(),
    ensures
        start <= cs[i].0,
        chunk_end(cs[i], w) <= end,
{
    if i > 0 {
        lemma_tiles_order(cs, w, start, end, 0, i);
        assert(cs[0].1 >= 1);
    }
    if i < cs.len() - 1 {
        lemma_tiles_order(cs, w, start, end, i, cs.len() - 1);
        assert(cs[cs.len() - 1].1 >= 1);
    }
}

/// The tags of a chunk only depend on the bytes of the chunk.
pub proof fn lemma_tags_frame(m1: Seq<u8>, m2: Seq<u8>, c: Chunk, w: nat)
    requires
        tags_ok(m1, c, w),
        c.1 >= 0,
        chunk_end(c, w) <= m2.len(),
        forall|k: int| c.0 <= k < chunk_end(c, w) ==> m1[k] == m2[k],
    ensures
        tags_ok(m2, c, w),
{
    lemma_le_value_frame(m1, m2, c.0, w);
    lemma_le_value_frame(m1, m2, c.0 + w + 1 + c.1, w);
}

/// Replacing the chunks `i..j` by chunks `ns` that tile the same range keeps the memory well
/// formed, when only bytes within that range changed and the tags of `ns` are written.
pub proof fn lemma_replace_chunks(
    m1: Seq<u8>,
    m2: Seq<u8>,
    cs: Seq<Chunk>,
    w: nat,
    i: int,
    j: int,
    ns: Seq<Chunk>,
)
    requires
        chunks_wf(m1, cs, w),
        0 <= i < j <= cs.len(),
        tiles_range(ns, w, cs[i].0, chunk_end(cs[j - 1], w)),
        m2.len() == m1.len(),
        forall|k: int|
            0 <= k < m1.len() && !(cs[i].0 <= k < chunk_end(cs[j - 1], w)) ==> m1[k] == m2[k],
        forall|k: int| 0 <= k < ns.len() ==> #[trigger] tags_ok(m2, ns[k], w),
    ensures
        chunks_wf(m2, cs.subrange(0, i) + ns + cs.subrange(j, cs.len() as int), w),
{
    let r = cs.subrange(0, i) + ns + cs.subrange(j, cs.len() as int);
    let lo = cs[i].0;
    let hi = chunk_end(cs[j - 1], w);
    let len = m1.len() as int;
    assert forall|k: int| 0 <= k < r.len() - 1 implies #[trigger] r[k + 1].0 == chunk_end(
        r[k],
        w,
    ) by {
        if k < i - 1 {
            assert(r[k] == cs[k] && r[k + 1] == cs[k + 1]);
        } else if k == i - 1 {
            assert(r[k] == cs[k] && r[k + 1] == ns[0]);
            assert(cs[k + 1].0 == chunk_end(cs[k], w));
        } else if k < i + ns.len() - 1 {
            assert(r[k] == ns[k - i] && r[k + 1] == ns[k - i + 1]);
        } else if k == i + ns.len() - 1 {
            assert(r[k] == ns[ns.len() - 1] && r[k + 1] == cs[j]);
            let q = j - 1;
            assert(cs[q + 1].0 == chunk_end(cs[q], w));
        } else {
            let d = k - i - ns.len() + j;
            assert(r[k] == cs[d] && r[k + 1] == cs[d + 1]);
        }
    }
    assert forall|k: int| 0 <= k < r.len() implies #[trigger] r[k].1 >= 1 by {
        if k < i {
            assert(r[k] == cs[k]);
        } else if k < i + ns.len() {
            assert(r[k] == ns[k - i]);
        } else {
            assert(r[k] == cs[k - i - ns.len() + j]);
        }
    }
    if i == 0 {
        assert(r[0] == ns[0]);
    } else {
        assert(r[0] == cs[0]);
    }
    if j == cs.len() {
        assert(r[r.len() - 1] == ns[ns.len() - 1]);
    } else {
        assert(r[r.len() - 1] == cs[cs.len() - 1]);
    }
    lemma_tiles_bounds(cs, w, 0, len, i);
    lemma_tiles_bounds(cs, w, 0, len, j - 1);
    assert forall|k: int| 0 <= k < r.len() implies #[trigger] tags_ok(m2, r[k], w) by {
        if k < i {
            assert(r[k] == cs[k]);
            assert(tags_ok(m1, cs[k], w));
            lemma_tiles_order(cs, w, 0, len, k, i);
            lemma_tiles_bounds(cs, w, 0, len, k);
            lemma_tags_frame(m1, m2, cs[k], w);
        } else if k < i + ns.len() {
            assert(r[k] == ns[k - i]);
        } else {
            let d = k - i - ns.len() + j;
            assert(r[k] == cs[d]);
            assert(tags_ok(m1, cs[d], w));
            if d > j - 1 {
                lemma_tiles_order(cs, w, 0, len, j - 1, d);
            }
            lemma_tiles_bounds(cs, w, 0, len, d);
            lemma_tags_frame(m1, m2, cs[d], w);
        }
    }
}

/// The chunks after the free chunk `i` was split into a head with `head` content bytes and a
/// tail with the rest.
pub open spec fn split_seq(cs: Seq<Chunk>, i: int, head: int, w: nat) -> Seq<Chunk> {
    let c = cs[i];
    cs.subrange(0, i) + seq![
        (c.0, head, false),
        (c.0 + head + tags_size(w), c.1 - head - tags_size(w), false),
    ] + cs.subrange(i + 1, cs.len() as int)
}

/// The chunks after chunk `i` was moved `n` bytes to the right, its predecessor growing by the
/// same amount.
pub open spec fn shift_seq(cs: Seq<Chunk>, i: int, n: int) -> Seq<Chunk> {
    let p = cs[i - 1];
    let c = cs[i];
    cs.update(i - 1, (p.0, p.1 + n, p.2)).update(i, (c.0 + n, c.1 - n, c.2))
}

/// The chunks after chunk `i` was marked as allocated or free.
pub open spec fn mark_seq(cs: Seq<Chunk>, i: int, allocated: bool) -> Seq<Chunk> {
    cs.update(i, (cs[i].0, cs[i].1, allocated))
}

/// The chunks after the chunks `i` and `i + 1` were joined into one free chunk.
pub open spec fn merge_seq(cs: Seq<Chunk>, i: int, w: nat) -> Seq<Chunk> {
    cs.subrange(0, i) + seq![(cs[i].0, cs[i].1 + cs[i + 1].1 + tags_size(w), false)]
        + cs.subrange(i + 2, cs.len() as int)
}

/// The padding that the content of chunk `c` needs to be aligned to `align`, where the backing
/// memory starts at address `base`.
pub open spec fn chunk_padding(c: Chunk, w: nat, base: int, align: int) -> int {
    padding(base + content_start(c, w), align)
}

/// Chunk `i` can hold an allocation of `size` bytes aligned to `align`.
///
/// A free chunk whose content is large enough including the padding qualifies, except for the
/// first chunk when its padding is too small to become a chunk of its own and the chunk is not
/// large enough to skip a whole further `align` bytes.
pub open spec fn usable(cs: Seq<Chunk>, i: int, w: nat, base: int, size: int, align: int) -> bool {
    let c = cs[i];
    let p = chunk_padding(c, w, base, align);
    &&& !c.2
    &&& c.1 >= size + p
    &&& (p == 0 || i > 0 || p > tags_size(w) || c.1 > p + align)
}

/// The first chunk from `k` on that can hold the allocation, or `-1` if there is none.
pub open spec fn first_fit(cs: Seq<Chunk>, k: int, w: nat, base: int, size: int, align: int) -> int
    decreases cs.len() - k,
{
    if k < 0 || k >= cs.len() {
        -1
    } else if usable(cs, k, w, base, size, align) {
        k
    } else {
        first_fit(cs, k + 1, w, base, size, align)
    }
}

/// The chunks after the usable chunk `i` was made to start its content at an aligned address,
/// and the index of the chunk that then holds the aligned content.
pub open spec fn aligned_seq(cs: Seq<Chunk>, i: int, w: nat, base: int, align: int) -> (
    Seq<Chunk>,
    int,
) {
    let p = chunk_padding(cs[i], w, base, align);
    if p == 0 {
        (cs, i)
    } else if p > tags_size(w) {
        (split_seq(cs, i, p - tags_size(w), w), i + 1)
    } else if i > 0 {
        (shift_seq(cs, i, p), i)
    } else {
        (split_seq(cs, i, p + align - tags_size(w), w), i + 1)
    }
}

/// The chunks after the aligned free chunk `j` was cut down to `size` bytes (where the rest can
/// form a chunk of its own) and marked as allocated.
pub open spec fn claim_seq(cs: Seq<Chunk>, j: int, size: int, w: nat) -> Seq<Chunk> {
    if cs[j].1 > size + tags_size(w) {
        mark_seq(split_seq(cs, j, size, w), j, true)
    } else {
        mark_seq(cs, j, true)
    }
}

/// The chunks after an allocation of `size` bytes aligned to `align`, and the index of the
/// chunk that holds it, when there is a usable chunk.
pub open spec fn allocate_seq(cs: Seq<Chunk>, w: nat, base: int, size: int, align: int) -> (
    Seq<Chunk>,
    int,
) {
    let i = first_fit(cs, 0, w, base, size, align);
    let (a, j) = aligned_seq(cs, i, w, base, align);
    (claim_seq(a, j, size, w), j)
}

/// The allocation does not hit the case where the first chunk must be split but cannot be:
/// either its padding would leave a head without content, or the tail after skipping a whole
/// further `align` bytes would be too small.
pub open spec fn first_chunk_splits(cs: Seq<Chunk>, w: nat, base: int, size: int, align: int) -> bool {
    let p = chunk_padding(cs[0], w, base, align);
    first_fit(cs, 0, w, base, size, align) == 0 && 0 < p <= tags_size(w) ==> {
        &&& p + align > tags_size(w)
        &&& cs[0].1 - p - align >= size
    }
}

/// Position `k` lies in the content of an allocated chunk.
pub open spec fn in_allocated_content(cs: Seq<Chunk>, w: nat, k: int) -> bool {
    exists|a: int|
        0 <= a < cs.len() && (#[trigger] cs[a]).2 && content_start(cs[a], w) <= k
            < content_start(cs[a], w) + cs[a].1
}

/// The content of another chunk lies outside the extent of chunk `i`.
pub proof fn lemma_content_disjoint(cs: Seq<Chunk>, w: nat, start: int, end: int, a: int, i: int)
    requires
        tiles_range(cs, w, start, end),
        0 <= a < cs.len(),
        0 <= i < cs.len(),
        a != i,
    ensures
        content_start(cs[a], w) + cs[a].1 <= cs[i].0 || chunk_end(cs[i], w) <= content_start(
            cs[a],
            w,
        ),
{
    if a < i {
        lemma_tiles_order(cs, w, start, end, a, i);
    } else {
        lemma_tiles_order(cs, w, start, end, i, a);
    }
}

/// The first chunk starts at the beginning and all later ones start after it.
pub proof fn lemma_first_chunk(cs: Seq<Chunk>, w: nat, start: int, end: int, i: int)
    requires
        tiles_range(cs, w, start, end),
        0 <= i < cs.len(),
    ensures
        i == 0 <==> cs[i].0 == start,
        i > 0 ==> cs[i].0 > start,
{
    if i > 0 {
        lemma_tiles_order(cs, w, start, end, 0, i);
        assert(cs[0].1 >= 1);
    }
}

/// A chunk that the search finds lies at or after where it started and can hold the allocation.
pub proof fn lemma_first_fit(cs: Seq<Chunk>, k: int, w: nat, base: int, size: int, align: int)
    requires
        0 <= k,
    ensures
        first_fit(cs, k, w, base, size, align) == -1 || (k <= first_fit(cs, k, w, base, size, align)
            < cs.len() && usable(cs, first_fit(cs, k, w, base, size, align), w, base, size, align)),
    decreases cs.len() - k,
{
    if k < cs.len() && !usable(cs, k, w, base, size, align) {
        lemma_first_fit(cs, k + 1, w, base, size, align);
    }
}

/// The chunks after the allocated chunk `i` was marked free and joined with the chunks around it
/// that are free, first the one after it, then the one before it.
pub open spec fn free_seq(cs: Seq<Chunk>, i: int, w: nat) -> Seq<Chunk> {
    let m = mark_seq(cs, i, false);
    let m2 = if i + 1 < m.len() && !m[i + 1].2 {
        merge_seq(m, i, w)
    } else {
        m
    };
    if i > 0 && !m2[i - 1].2 {
        merge_seq(m2, i - 1, w)
    } else {
        m2
    }
}

/// The tags of a chunk only depend on the bytes of its two tags.
pub proof fn lemma_tags_only(m1: Seq<u8>, m2: Seq<u8>, c: Chunk, w: nat)
    requires
        tags_ok(m1, c, w),
        c.1 >= 0,
        m2.len() == m1.len(),
        forall|k: int| c.0 <= k < content_start(c, w) ==> m1[k] == m2[k],
        forall|k: int| content_start(c, w) + c.1 <= k < chunk_end(c, w) ==> m1[k] == m2[k],
    ensures
        tags_ok(m2, c, w),
{
    lemma_le_value_frame(m1, m2, c.0, w);
    lemma_le_value_frame(m1, m2, c.0 + w + 1 + c.1, w);
}

} // verus!
