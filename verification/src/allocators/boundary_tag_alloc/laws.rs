//! What holds across calls of the boundary tag allocator.

use vstd::prelude::*;
use crate::allocators::boundary_tag_alloc::chunks::{
    Chunk, allocate_seq, aligned_seq, chunk_padding, claim_seq, content_start, first_fit, free_seq,
    in_allocated_content, tags_size, tiles_range, mark_seq, merge_seq, shift_seq, split_seq,
    lemma_content_disjoint, lemma_first_fit,
};

verus! {

/// Allocating from an allocator whose memory is one free chunk, where the chunk's content
/// already has the requested alignment, and then deallocating the allocation gives back the
/// single free chunk.
pub proof fn lemma_allocate_then_free_restores_empty(len: int, w: nat, base: int, size: int, align: int)
    requires
        len > tags_size(w),
        1 <= size <= len - tags_size(w),
        align >= 1,
        chunk_padding((0int, len - tags_size(w), false), w, base, align) == 0,
    ensures
        ({
            let cs = seq![(0int, len - tags_size(w), false)];
            let (ncs, j) = allocate_seq(cs, w, base, size, align);
            &&& first_fit(cs, 0, w, base, size, align) == 0
            &&& free_seq(ncs, j, w) == cs
        }),
{
    let cs = seq![(0int, len - tags_size(w), false)];
    assert(first_fit(cs, 0, w, base, size, align) == 0);
    let (ncs, j) = allocate_seq(cs, w, base, size, align);
    assert(j == 0);
    if cs[0].1 > size + tags_size(w) {
        assert(ncs =~= seq![(0int, size, true), (size + tags_size(w), len - tags_size(w) - size - tags_size(w), false)]);
    } else {
        assert(ncs =~= seq![(0int, len - tags_size(w), true)]);
    }
    assert(free_seq(ncs, j, w) =~= cs);
}

/// A block that an allocation handed out lies in the content of an allocated chunk, and a later
/// allocation only hands out bytes outside the content of allocated chunks: so the two blocks do
/// not overlap.
pub proof fn lemma_allocations_do_not_overlap(
    cs: Seq<Chunk>,
    w: nat,
    j: int,
    off1: int,
    size1: int,
    off2: int,
    size2: int,
)
    requires
        0 <= j < cs.len(),
        cs[j].2,
        off1 == content_start(cs[j], w),
        1 <= size1 <= cs[j].1,
        size2 >= 1,
        forall|k: int| off2 <= k < off2 + size2 ==> !in_allocated_content(cs, w, k),
    ensures
        off1 + size1 <= off2 || off2 + size2 <= off1,
{
    if !(off1 + size1 <= off2 || off2 + size2 <= off1) {
        let k = if off1 >= off2 {
            off1
        } else {
            off2
        };
        assert(cs[j].2 && content_start(cs[j], w) <= k < content_start(cs[j], w) + cs[j].1);
        assert(in_allocated_content(cs, w, k));
    }
}

/// An allocated chunk after chunk `i` was freed is an allocated chunk from before, other than
/// chunk `i`.
proof fn lemma_free_seq_allocated(cs: Seq<Chunk>, i: int, w: nat, a: int)
    requires
        0 <= i < cs.len(),
        0 <= a < free_seq(cs, i, w).len(),
        free_seq(cs, i, w)[a].2,
    ensures
        exists|b: int| 0 <= b < cs.len() && b != i && cs[b] == free_seq(cs, i, w)[a],
{
    let m = mark_seq(cs, i, false);
    let m2 = if i + 1 < m.len() && !m[i + 1].2 {
        merge_seq(m, i, w)
    } else {
        m
    };
    let m3 = free_seq(cs, i, w);
    // find the index in m2 of the chunk at index a of m3
    let a2 = if i > 0 && !m2[i - 1].2 {
        if a < i - 1 {
            a
        } else {
            a + 1
        }
    } else {
        a
    };
    assert(m2[a2] == m3[a] && m2[a2].2) by {
        if i > 0 && !m2[i - 1].2 {
            assert(a != i - 1);
        }
    }
    // and its index in m
    let a1 = if i + 1 < m.len() && !m[i + 1].2 {
        if a2 < i {
            a2
        } else {
            a2 + 1
        }
    } else {
        a2
    };
    assert(m[a1] == m2[a2]) by {
        if i + 1 < m.len() && !m[i + 1].2 {
            assert(a2 != i);
        }
    }
    assert(a1 != i);
    assert(cs[a1] == m[a1]);
}

/// Once the allocated chunk `i` is freed, no byte of its content is in the content of an
/// allocated chunk.
pub proof fn lemma_freed_content_is_free(cs: Seq<Chunk>, w: nat, len: int, i: int, k: int)
    requires
        tiles_range(cs, w, 0, len),
        0 <= i < cs.len(),
        cs[i].2,
        content_start(cs[i], w) <= k < content_start(cs[i], w) + cs[i].1,
    ensures
        !in_allocated_content(free_seq(cs, i, w), w, k),
{
    let f = free_seq(cs, i, w);
    if in_allocated_content(f, w, k) {
        let a = choose|a: int|
            0 <= a < f.len() && (#[trigger] f[a]).2 && content_start(f[a], w) <= k
                < content_start(f[a], w) + f[a].1;
        lemma_free_seq_allocated(cs, i, w, a);
        let b = choose|b: int| 0 <= b < cs.len() && b != i && cs[b] == f[a];
        lemma_content_disjoint(cs, w, 0, len, b, i);
    }
}

/// Every allocated chunk of `cs` is still an allocated chunk of `ncs`, starting where it did and
/// with at least as much content.
pub open spec fn keeps_allocated(cs: Seq<Chunk>, ncs: Seq<Chunk>) -> bool {
    forall|a: int|
        0 <= a < cs.len() && (#[trigger] cs[a]).2 ==> exists|b: int|
            0 <= b < ncs.len() && (#[trigger] ncs[b]).2 && ncs[b].0 == cs[a].0 && ncs[b].1
                >= cs[a].1
}

pub(crate) proof fn lemma_keeps_trans(c1: Seq<Chunk>, c2: Seq<Chunk>, c3: Seq<Chunk>)
    requires
        keeps_allocated(c1, c2),
        keeps_allocated(c2, c3),
    ensures
        keeps_allocated(c1, c3),
{
    assert forall|a: int| 0 <= a < c1.len() && (#[trigger] c1[a]).2 implies exists|b: int|
        0 <= b < c3.len() && (#[trigger] c3[b]).2 && c3[b].0 == c1[a].0 && c3[b].1 >= c1[a].1 by {
        let b = choose|b: int|
            0 <= b < c2.len() && (#[trigger] c2[b]).2 && c2[b].0 == c1[a].0 && c2[b].1 >= c1[a].1;
        let d = choose|d: int|
            0 <= d < c3.len() && (#[trigger] c3[d]).2 && c3[d].0 == c2[b].0 && c3[d].1 >= c2[b].1;
        assert(c3[d].2);
    }
}

pub(crate) proof fn lemma_split_keeps(cs: Seq<Chunk>, i: int, head: int, w: nat)
    requires
        0 <= i < cs.len(),
        !cs[i].2,
    ensures
        keeps_allocated(cs, split_seq(cs, i, head, w)),
{
    let ns = split_seq(cs, i, head, w);
    assert forall|a: int| 0 <= a < cs.len() && (#[trigger] cs[a]).2 implies exists|b: int|
        0 <= b < ns.len() && (#[trigger] ns[b]).2 && ns[b].0 == cs[a].0 && ns[b].1 >= cs[a].1 by {
        if a < i {
            assert(ns[a] == cs[a]);
        } else {
            assert(ns[a + 1] == cs[a]);
        }
    }
}

proof fn lemma_shift_keeps(cs: Seq<Chunk>, i: int, n: int)
    requires
        1 <= i < cs.len(),
        !cs[i].2,
        n >= 0,
    ensures
        keeps_allocated(cs, shift_seq(cs, i, n)),
{
    let ns = shift_seq(cs, i, n);
    assert forall|a: int| 0 <= a < cs.len() && (#[trigger] cs[a]).2 implies exists|b: int|
        0 <= b < ns.len() && (#[trigger] ns[b]).2 && ns[b].0 == cs[a].0 && ns[b].1 >= cs[a].1 by {
        assert(ns[a].2 && ns[a].0 == cs[a].0 && ns[a].1 >= cs[a].1);
    }
}

pub(crate) proof fn lemma_mark_keeps(cs: Seq<Chunk>, i: int)
    requires
        0 <= i < cs.len(),
    ensures
        keeps_allocated(cs, mark_seq(cs, i, true)),
{
    let ns = mark_seq(cs, i, true);
    assert forall|a: int| 0 <= a < cs.len() && (#[trigger] cs[a]).2 implies exists|b: int|
        0 <= b < ns.len() && (#[trigger] ns[b]).2 && ns[b].0 == cs[a].0 && ns[b].1 >= cs[a].1 by {
        assert(ns[a].2);
    }
}

/// An allocation leaves every allocated chunk allocated, where it was and at least as large: it
/// only splits, moves and claims free chunks, or grows the chunk before the one it aligns.
pub proof fn lemma_allocate_keeps_allocated(cs: Seq<Chunk>, w: nat, base: int, size: int, align: int)
    requires
        first_fit(cs, 0, w, base, size, align) != -1,
        align >= 1,
    ensures
        keeps_allocated(cs, allocate_seq(cs, w, base, size, align).0),
{
    lemma_first_fit(cs, 0, w, base, size, align);
    let i = first_fit(cs, 0, w, base, size, align);
    let p = chunk_padding(cs[i], w, base, align);
    let (a, j) = aligned_seq(cs, i, w, base, align);
    crate::allocators::layout::lemma_padding(base + content_start(cs[i], w), align);
    if p == 0 {
        assert(keeps_allocated(cs, a)) by {
            assert forall|x: int| 0 <= x < cs.len() && (#[trigger] cs[x]).2 implies exists|b: int|
                0 <= b < a.len() && (#[trigger] a[b]).2 && a[b].0 == cs[x].0 && a[b].1 >= cs[x].1 by {
                assert(a[x] == cs[x]);
            }
        }
    } else if p > tags_size(w) {
        lemma_split_keeps(cs, i, p - tags_size(w), w);
    } else if i > 0 {
        lemma_shift_keeps(cs, i, p);
    } else {
        lemma_split_keeps(cs, i, p + align - tags_size(w), w);
    }
    assert(0 <= j < a.len() && !a[j].2);
    if a[j].1 > size + tags_size(w) {
        lemma_split_keeps(a, j, size, w);
        lemma_mark_keeps(split_seq(a, j, size, w), j);
        lemma_keeps_trans(a, split_seq(a, j, size, w), claim_seq(a, j, size, w));
    } else {
        lemma_mark_keeps(a, j);
    }
    lemma_keeps_trans(cs, a, claim_seq(a, j, size, w));
}

/// Where every allocated chunk is kept, every byte of allocated content stays allocated
/// content.
pub proof fn lemma_keeps_content(cs: Seq<Chunk>, ncs: Seq<Chunk>, w: nat, k: int)
    requires
        keeps_allocated(cs, ncs),
        in_allocated_content(cs, w, k),
    ensures
        in_allocated_content(ncs, w, k),
{
    let a = choose|a: int|
        0 <= a < cs.len() && (#[trigger] cs[a]).2 && content_start(cs[a], w) <= k < content_start(
            cs[a],
            w,
        ) + cs[a].1;
    let b = choose|b: int|
        0 <= b < ncs.len() && (#[trigger] ncs[b]).2 && ncs[b].0 == cs[a].0 && ncs[b].1 >= cs[a].1;
    assert(ncs[b].2 && content_start(ncs[b], w) <= k < content_start(ncs[b], w) + ncs[b].1);
}

/// Freeing chunk `i` keeps every other allocated chunk as it was.
pub proof fn lemma_free_seq_keeps_allocated(cs: Seq<Chunk>, i: int, w: nat, b: int)
    requires
        0 <= i < cs.len(),
        0 <= b < cs.len(),
        b != i,
        cs[b].2,
    ensures
        exists|c: int| 0 <= c < free_seq(cs, i, w).len() && free_seq(cs, i, w)[c] == cs[b],
{
    let m = mark_seq(cs, i, false);
    let merged_next = i + 1 < m.len() && !m[i + 1].2;
    let m2 = if merged_next {
        merge_seq(m, i, w)
    } else {
        m
    };
    let f = free_seq(cs, i, w);
    assert(m[b] == cs[b]);
    let b2 = if merged_next && b > i + 1 {
        b - 1
    } else {
        b
    };
    assert(0 <= b2 < m2.len() && m2[b2] == cs[b]) by {
        if merged_next {
            assert(b != i + 1);
        }
    }
    if i > 0 && !m2[i - 1].2 {
        assert(b2 != i - 1 && b2 != i);
        let c = if b2 > i {
            b2 - 1
        } else {
            b2
        };
        assert(f[c] == cs[b]);
    } else {
        assert(f[b2] == cs[b]);
    }
}

} // verus!
