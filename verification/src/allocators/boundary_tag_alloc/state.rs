//! The state of a boundary tag allocator: its backing memory with the tags written in it, and
//! the operations that rewrite tags to split, shift, mark and join chunks.

use vstd::prelude::*;
use core::marker::PhantomData;
use crate::allocators::layout::lemma_padding;
use crate::allocators::boundary_tag_alloc::tags::{
    le_value, lemma_le_value_frame, pow256, write_le, read_le, TagsBinding, MARKER_ALLOCATED,
    MARKER_FREE,
};
use crate::allocators::boundary_tag_alloc::chunks::{
    Chunk, chunk_end, chunks_wf, content_start, marker, tags_ok, tags_size, tiles_range,
    split_seq, shift_seq, mark_seq, merge_seq, lemma_replace_chunks, lemma_tiles_bounds,
    lemma_tiles_order, first_fit, usable, chunk_padding, aligned_seq, claim_seq,
    allocate_seq, first_chunk_splits, in_allocated_content, lemma_content_disjoint,
    lemma_first_chunk, lemma_first_fit, free_seq, lemma_tags_only, tag_byte,
};

verus! {

/// Write a begin-tag (content size and marker) at `pos`.
fn write_begin_tag(mem: &mut Vec<u8>, pos: usize, w: usize, size: usize, allocated: bool)
    requires
        w <= 8,
        pos + w + 1 <= old(mem)@.len(),
        size < pow256(w as nat),
    ensures
        final(mem)@.len() == old(mem)@.len(),
        le_value(final(mem)@, pos as int, w as nat) == size,
        final(mem)@[pos + w] == marker(allocated),
        forall|k: int|
            0 <= k < old(mem)@.len() && !(pos <= k < pos + w + 1) ==> final(mem)@[k]
                == old(mem)@[k],
{
    let _len = mem.len();
    write_le(mem, pos, w, size as u64);
    let ghost m1 = mem@;
    let byte: u8 = if allocated {
        MARKER_ALLOCATED
    } else {
        MARKER_FREE
    };
    mem.set(pos + w, byte);
    proof {
        lemma_le_value_frame(m1, mem@, pos as int, w as nat);
    }
}

/// Write an end-tag (content size) at `pos`.
fn write_end_tag(mem: &mut Vec<u8>, pos: usize, w: usize, size: usize)
    requires
        w <= 8,
        pos + w <= old(mem)@.len(),
        size < pow256(w as nat),
    ensures
        final(mem)@.len() == old(mem)@.len(),
        le_value(final(mem)@, pos as int, w as nat) == size,
        forall|k: int|
            0 <= k < old(mem)@.len() && !(pos <= k < pos + w) ==> final(mem)@[k] == old(mem)@[k],
{
    write_le(mem, pos, w, size as u64);
}

/// The backing memory of a boundary tag allocator, where its content starts in the address
/// space, and the chunks that its tags describe.
pub struct AllocatorState<Tags: TagsBinding> {
    backing_mem: Vec<u8>,
    base: usize,
    chunks: Ghost<Seq<Chunk>>,
    _tags: PhantomData<Tags>,
}

impl<Tags: TagsBinding> AllocatorState<Tags> {
    /// The bytes of the backing memory.
    pub closed spec fn mem(&self) -> Seq<u8> {
        self.backing_mem@
    }

    /// The chunks that the tags in the backing memory describe.
    pub closed spec fn chunks(&self) -> Seq<Chunk> {
        self.chunks@
    }

    /// The address of the first byte of the backing memory.
    pub closed spec fn base(&self) -> int {
        self.base as int
    }

    /// The backing memory is divided into chunks whose tags are written in it, and its
    /// addresses fit in a `usize`.
    pub open spec fn wf(&self) -> bool {
        &&& chunks_wf(self.mem(), self.chunks(), Tags::spec_width())
        &&& self.base() + self.mem().len() <= usize::MAX
    }

    /// Make the whole backing memory one free chunk.
    pub fn new(backing_mem: Vec<u8>, base: usize) -> (r: Self)
        requires
            base + backing_mem@.len() <= usize::MAX,
            backing_mem@.len() > tags_size(Tags::spec_width()),
            backing_mem@.len() < pow256(Tags::spec_width()),
        ensures
            r.wf(),
            r.base() == base,
            r.mem().len() == backing_mem@.len(),
            r.chunks() == seq![
                (0int, backing_mem@.len() - tags_size(Tags::spec_width()), false),
            ],
            forall|k: int|
                Tags::spec_width() + 1 <= k < backing_mem@.len() - Tags::spec_width() ==> r.mem()[k]
                    == backing_mem@[k],
    {
        let mut mem = backing_mem;
        let w = Tags::width();
        let len = mem.len();
        let usable = len - (2 * w + 1);
        write_begin_tag(&mut mem, 0, w, usable, false);
        let ghost m1 = mem@;
        write_end_tag(&mut mem, len - w, w, usable);
        let ghost c: Chunk = (0int, usable as int, false);
        proof {
            lemma_le_value_frame(m1, mem@, 0, w as nat);
            let cs = seq![c];
            assert(cs[0] == c);
            assert(tags_ok(mem@, cs[0], w as nat));
        }
        let ghost cs = seq![c];
        AllocatorState { backing_mem: mem, base, chunks: Ghost(cs), _tags: PhantomData }
    }

    /// The bytes of the backing memory.
    pub fn backing_mem(&self) -> (r: &[u8])
        ensures
            r@ == self.mem(),
    {
        self.backing_mem.as_slice()
    }

    /// The address of the first byte of the backing memory.
    pub fn base_address(&self) -> (r: usize)
        ensures
            r == self.base(),
    {
        self.base
    }

    /// Read the content size and allocation state of chunk `i` from its begin-tag at `pos`.
    fn read_begin_tag(&self, pos: usize, Ghost(i): Ghost<int>) -> (r: (usize, bool))
        requires
            self.wf(),
            0 <= i < self.chunks().len(),
            self.chunks()[i].0 == pos,
        ensures
            r.0 == self.chunks()[i].1,
            r.1 == self.chunks()[i].2,
    {
        let w = Tags::width();
        proof {
            lemma_tiles_bounds(self.chunks(), w as nat, 0, self.mem().len() as int, i);
            assert(tags_ok(self.mem(), self.chunks()[i], w as nat));
        }
        let size = read_le(self.backing_mem.as_slice(), pos, w);
        let m = self.backing_mem[pos + w];
        (size as usize, m == MARKER_ALLOCATED)
    }

    /// Read the content size of the chunk that ends at `pos` (the start of chunk `i`) from its
    /// end-tag.
    fn read_prev_size(&self, pos: usize, Ghost(i): Ghost<int>) -> (r: usize)
        requires
            self.wf(),
            1 <= i < self.chunks().len(),
            self.chunks()[i].0 == pos,
        ensures
            r == self.chunks()[i - 1].1,
    {
        let w = Tags::width();
        let ghost cs = self.chunks();
        proof {
            lemma_tiles_bounds(cs, w as nat, 0, self.mem().len() as int, i - 1);
            assert(tags_ok(self.mem(), cs[i - 1], w as nat));
            let k = i - 1;
            assert(cs[k + 1].0 == chunk_end(cs[k], w as nat));
        }
        let size = read_le(self.backing_mem.as_slice(), pos - w, w);
        size as usize
    }

    /// Read the content size of chunk `i` from its end-tag at `e`.
    pub fn read_end_tag(&self, e: usize, Ghost(i): Ghost<int>) -> (r: usize)
        requires
            self.wf(),
            0 <= i < self.chunks().len(),
            content_start(self.chunks()[i], Tags::spec_width()) + self.chunks()[i].1 == e,
        ensures
            r == self.chunks()[i].1,
    {
        let w = Tags::width();
        proof {
            lemma_tiles_bounds(self.chunks(), w as nat, 0, self.mem().len() as int, i);
            assert(tags_ok(self.mem(), self.chunks()[i], w as nat));
        }
        let size = read_le(self.backing_mem.as_slice(), e, w);
        size as usize
    }

    /// Split the free chunk `i` at `pos` with `size` content bytes into a head with `head`
    /// content bytes and a tail with the rest.
    pub(crate) fn split_chunk(&mut self, pos: usize, size: usize, head: usize, Ghost(i): Ghost<int>)
        requires
            old(self).wf(),
            0 <= i < old(self).chunks().len(),
            old(self).chunks()[i] == (pos as int, size as int, false),
            1 <= head,
            head + tags_size(Tags::spec_width()) < size,
        ensures
            final(self).wf(),
            final(self).chunks() == split_seq(
                old(self).chunks(),
                i,
                head as int,
                Tags::spec_width(),
            ),
            final(self).base() == old(self).base(),
            final(self).mem().len() == old(self).mem().len(),
            forall|k: int|
                0 <= k < old(self).mem().len() && !(pos <= k < chunk_end(
                    old(self).chunks()[i],
                    Tags::spec_width(),
                )) ==> final(self).mem()[k] == old(self).mem()[k],
            forall|k: int|
                0 <= k < old(self).mem().len() && !tag_byte(
                    final(self).chunks()[i],
                    Tags::spec_width(),
                    k,
                ) && !tag_byte(final(self).chunks()[i + 1], Tags::spec_width(), k)
                    ==> final(self).mem()[k] == old(self).mem()[k],
    {
        let w = Tags::width();
        let t = 2 * w + 1;
        let ghost wn = w as nat;
        let ghost m0 = self.backing_mem@;
        let ghost cs = self.chunks@;
        proof {
            lemma_tiles_bounds(cs, wn, 0, m0.len() as int, i);
        }
        let tail = size - head - t;
        let p1 = pos + w + 1 + head;
        let p2 = pos + t + head;
        let p3 = p2 + w + 1 + tail;
        write_begin_tag(&mut self.backing_mem, pos, w, head, false);
        let ghost m1 = self.backing_mem@;
        write_end_tag(&mut self.backing_mem, p1, w, head);
        let ghost m2 = self.backing_mem@;
        write_begin_tag(&mut self.backing_mem, p2, w, tail, false);
        let ghost m3 = self.backing_mem@;
        write_end_tag(&mut self.backing_mem, p3, w, tail);
        let ghost m4 = self.backing_mem@;
        let ghost ns = seq![
            (cs[i].0, head as int, false),
            (cs[i].0 + head + tags_size(wn), cs[i].1 - head - tags_size(wn), false),
        ];
        proof {
            lemma_le_value_frame(m1, m4, pos as int, wn);
            lemma_le_value_frame(m2, m4, p1 as int, wn);
            lemma_le_value_frame(m3, m4, p2 as int, wn);
            assert(tags_ok(m4, ns[0], wn));
            assert(tags_ok(m4, ns[1], wn));
            assert(tiles_range(ns, wn, cs[i].0, chunk_end(cs[i], wn))) by {
                assert(ns[1].0 == chunk_end(ns[0], wn));
            }
            lemma_replace_chunks(m0, m4, cs, wn, i, i + 1, ns);
            assert(split_seq(cs, i, head as int, wn)[i] == ns[0]);
            assert(split_seq(cs, i, head as int, wn)[i + 1] == ns[1]);
        }
        self.chunks = Ghost(split_seq(cs, i, head as int, wn));
    }

    /// Mark chunk `i` at `pos` as allocated or free.
    pub(crate) fn mark_chunk(&mut self, pos: usize, allocated: bool, Ghost(i): Ghost<int>)
        requires
            old(self).wf(),
            0 <= i < old(self).chunks().len(),
            old(self).chunks()[i].0 == pos,
        ensures
            final(self).wf(),
            final(self).chunks() == mark_seq(old(self).chunks(), i, allocated),
            final(self).base() == old(self).base(),
            final(self).mem().len() == old(self).mem().len(),
            forall|k: int|
                0 <= k < old(self).mem().len() && k != pos + Tags::spec_width() ==> final(self).mem()[k] == old(self).mem()[k],
    {
        let w = Tags::width();
        let ghost wn = w as nat;
        let ghost m0 = self.backing_mem@;
        let ghost cs = self.chunks@;
        proof {
            lemma_tiles_bounds(cs, wn, 0, m0.len() as int, i);
        }
        let byte: u8 = if allocated {
            MARKER_ALLOCATED
        } else {
            MARKER_FREE
        };
        self.backing_mem.set(pos + w, byte);
        let ghost m1 = self.backing_mem@;
        let ghost ns = seq![(cs[i].0, cs[i].1, allocated)];
        proof {
            assert(tags_ok(m0, cs[i], wn));
            lemma_le_value_frame(m0, m1, pos as int, wn);
            lemma_le_value_frame(m0, m1, pos + w + 1 + cs[i].1, wn);
            assert(tags_ok(m1, ns[0], wn));
            lemma_replace_chunks(m0, m1, cs, wn, i, i + 1, ns);
            assert(cs.subrange(0, i) + ns + cs.subrange(i + 1, cs.len() as int) =~= mark_seq(
                cs,
                i,
                allocated,
            ));
        }
        self.chunks = Ghost(mark_seq(cs, i, allocated));
    }

    /// Move the free chunk `i` at `pos` (with `size` content bytes) `n` bytes to the right,
    /// growing the chunk before it, which starts at `prev_pos` with `prev_size` content bytes.
    #[verifier::rlimit(50)]
    fn shift_chunk(
        &mut self,
        prev_pos: usize,
        prev_size: usize,
        pos: usize,
        size: usize,
        n: usize,
        Ghost(i): Ghost<int>,
    )
        requires
            old(self).wf(),
            1 <= i < old(self).chunks().len(),
            old(self).chunks()[i] == (pos as int, size as int, false),
            old(self).chunks()[i - 1].0 == prev_pos,
            old(self).chunks()[i - 1].1 == prev_size,
            1 <= n < size,
        ensures
            final(self).wf(),
            final(self).chunks() == shift_seq(old(self).chunks(), i, n as int),
            final(self).base() == old(self).base(),
            final(self).mem().len() == old(self).mem().len(),
            forall|k: int|
                0 <= k < old(self).mem().len() && !(prev_pos <= k < prev_pos
                    + Tags::spec_width() + 1) && !(pos + n - Tags::spec_width() <= k
                    < chunk_end(old(self).chunks()[i], Tags::spec_width())) ==> final(self).mem()[k] == old(self).mem()[k],
            forall|k: int|
                0 <= k < old(self).mem().len() && !tag_byte(
                    final(self).chunks()[i - 1],
                    Tags::spec_width(),
                    k,
                ) && !tag_byte(final(self).chunks()[i], Tags::spec_width(), k)
                    ==> final(self).mem()[k] == old(self).mem()[k],
    {
        let w = Tags::width();
        let ghost wn = w as nat;
        let ghost m0 = self.backing_mem@;
        let ghost cs = self.chunks@;
        let ghost prev = cs[i - 1];
        proof {
            lemma_tiles_bounds(cs, wn, 0, m0.len() as int, i);
            lemma_tiles_bounds(cs, wn, 0, m0.len() as int, i - 1);
            let k = i - 1;
            assert(cs[k + 1].0 == chunk_end(cs[k], wn));
            assert(tags_ok(m0, cs[i], wn));
        }
        let allocated = self.backing_mem[prev_pos + w] == MARKER_ALLOCATED;
        proof {
            assert(tags_ok(m0, cs[i - 1], wn));
            assert(allocated == prev.2);
        }
        let new_prev = prev_size + n;
        let new_size = size - n;
        let new_pos = pos + n;
        write_begin_tag(&mut self.backing_mem, prev_pos, w, new_prev, allocated);
        let ghost m1 = self.backing_mem@;
        write_end_tag(&mut self.backing_mem, new_pos - w, w, new_prev);
        let ghost m2 = self.backing_mem@;
        write_begin_tag(&mut self.backing_mem, new_pos, w, new_size, false);
        let ghost m3 = self.backing_mem@;
        write_end_tag(&mut self.backing_mem, new_pos + w + 1 + new_size, w, new_size);
        let ghost m4 = self.backing_mem@;
        let ghost ns = seq![
            (prev.0, prev.1 + n, prev.2),
            (cs[i].0 + n, cs[i].1 - n, cs[i].2),
        ];
        proof {
            lemma_le_value_frame(m1, m4, prev_pos as int, wn);
            lemma_le_value_frame(m2, m4, new_pos - w, wn);
            lemma_le_value_frame(m3, m4, new_pos as int, wn);
            assert(tags_ok(m4, ns[0], wn));
            assert(tags_ok(m4, ns[1], wn));
            assert(tiles_range(ns, wn, cs[i - 1].0, chunk_end(cs[i], wn))) by {
                assert(ns[1].0 == chunk_end(ns[0], wn));
            }
            lemma_replace_chunks(m0, m4, cs, wn, i - 1, i + 1, ns);
            assert(cs.subrange(0, i - 1) + ns + cs.subrange(i + 1, cs.len() as int)
                =~= shift_seq(cs, i, n as int));
            assert(shift_seq(cs, i, n as int)[i - 1] == ns[0]);
            assert(shift_seq(cs, i, n as int)[i] == ns[1]);
        }
        self.chunks = Ghost(shift_seq(cs, i, n as int));
    }

    /// Join the free chunk `i` at `pos` (with `size1` content bytes) and the free chunk after it
    /// (with `size2` content bytes) into one free chunk.
    fn merge_chunks(&mut self, pos: usize, size1: usize, size2: usize, Ghost(i): Ghost<int>)
        requires
            old(self).wf(),
            0 <= i && i + 1 < old(self).chunks().len(),
            old(self).chunks()[i] == (pos as int, size1 as int, false),
            old(self).chunks()[i + 1].1 == size2,
            !old(self).chunks()[i + 1].2,
        ensures
            final(self).wf(),
            final(self).chunks() == merge_seq(old(self).chunks(), i, Tags::spec_width()),
            final(self).base() == old(self).base(),
            final(self).mem().len() == old(self).mem().len(),
            forall|k: int|
                0 <= k < old(self).mem().len() && !(pos <= k < pos + Tags::spec_width() + 1)
                    && !(chunk_end(old(self).chunks()[i + 1], Tags::spec_width())
                    - Tags::spec_width() <= k < chunk_end(
                    old(self).chunks()[i + 1],
                    Tags::spec_width(),
                )) ==> final(self).mem()[k] == old(self).mem()[k],
    {
        let w = Tags::width();
        let t = 2 * w + 1;
        let ghost wn = w as nat;
        let ghost m0 = self.backing_mem@;
        let ghost cs = self.chunks@;
        proof {
            lemma_tiles_bounds(cs, wn, 0, m0.len() as int, i);
            lemma_tiles_bounds(cs, wn, 0, m0.len() as int, i + 1);
            assert(cs[i + 1].0 == chunk_end(cs[i], wn));
        }
        let new_size = size1 + size2 + t;
        let end_pos = pos + w + 1 + new_size;
        write_begin_tag(&mut self.backing_mem, pos, w, new_size, false);
        let ghost m1 = self.backing_mem@;
        write_end_tag(&mut self.backing_mem, end_pos, w, new_size);
        let ghost m2 = self.backing_mem@;
        let ghost ns = seq![(cs[i].0, cs[i].1 + cs[i + 1].1 + tags_size(wn), false)];
        proof {
            lemma_le_value_frame(m1, m2, pos as int, wn);
            assert(tags_ok(m2, ns[0], wn));
            lemma_replace_chunks(m0, m2, cs, wn, i, i + 2, ns);
        }
        self.chunks = Ghost(merge_seq(cs, i, wn));
    }

    /// Find the first chunk that can hold `size` bytes aligned to `align`: its position and
    /// content size.
    pub(crate) fn find_fit(&self, size: usize, align: usize) -> (r: Option<(usize, usize)>)
        requires
            self.wf(),
            size >= 1,
            align >= 1,
        ensures
            r is None <==> first_fit(
                self.chunks(),
                0,
                Tags::spec_width(),
                self.base(),
                size as int,
                align as int,
            ) == -1,
            r matches Some((pos, csize)) ==> {
                let i = first_fit(
                    self.chunks(),
                    0,
                    Tags::spec_width(),
                    self.base(),
                    size as int,
                    align as int,
                );
                &&& 0 <= i < self.chunks().len()
                &&& self.chunks()[i].0 == pos
                &&& self.chunks()[i].1 == csize
            },
    {
        let w = Tags::width();
        let t = 2 * w + 1;
        let ghost wn = w as nat;
        let ghost cs = self.chunks();
        let len = self.backing_mem.len();
        let mut pos: usize = 0;
        let ghost mut i: int = 0;
        loop
            invariant
                self.wf(),
                w == wn && wn == Tags::spec_width() && t == tags_size(wn),
                cs == self.chunks(),
                len == self.mem().len(),
                size >= 1,
                align >= 1,
                0 <= i < cs.len(),
                cs[i].0 == pos,
                first_fit(cs, 0, wn, self.base(), size as int, align as int) == first_fit(
                    cs,
                    i,
                    wn,
                    self.base(),
                    size as int,
                    align as int,
                ),
            decreases len - pos,
        {
            let (csize, allocated) = self.read_begin_tag(pos, Ghost(i));
            proof {
                lemma_tiles_bounds(cs, wn, 0, len as int, i);
                lemma_first_chunk(cs, wn, 0, len as int, i);
            }
            let addr = self.base + pos + w + 1;
            let p = (align - addr % align) % align;
            let fits = !allocated && csize >= size && csize - size >= p && (p == 0 || pos > 0 || p
                > t || (csize > p && csize - p > align));
            if fits {
                assert(usable(cs, i, wn, self.base(), size as int, align as int));
                return Some((pos, csize));
            }
            assert(!usable(cs, i, wn, self.base(), size as int, align as int));
            let next = pos + t + csize;
            if next >= len {
                assert(i == cs.len() - 1) by {
                    if i < cs.len() - 1 {
                        lemma_tiles_bounds(cs, wn, 0, len as int, i + 1);
                        assert(cs[i + 1].0 == chunk_end(cs[i], wn));
                        assert(cs[i + 1].1 >= 1);
                    }
                }
                assert(first_fit(cs, i + 1, wn, self.base(), size as int, align as int) == -1);
                return None;
            }
            proof {
                assert(i < cs.len() - 1);
                assert(cs[i + 1].0 == chunk_end(cs[i], wn));
                i = i + 1;
            }
            pos = next;
        }
    }

    /// Allocate `size` bytes aligned to `align` from the first chunk that can hold them, and
    /// return the position of the allocation in the backing memory.
    #[verifier::rlimit(80)]
    pub fn allocate_chunk(&mut self, size: usize, align: usize) -> (r: Option<usize>)
        requires
            old(self).wf(),
            size >= 1,
            align >= 1,
            first_chunk_splits(
                old(self).chunks(),
                Tags::spec_width(),
                old(self).base(),
                size as int,
                align as int,
            ),
        ensures
            final(self).wf(),
            final(self).base() == old(self).base(),
            final(self).mem().len() == old(self).mem().len(),
            r is None <==> first_fit(
                old(self).chunks(),
                0,
                Tags::spec_width(),
                old(self).base(),
                size as int,
                align as int,
            ) == -1,
            r is None ==> final(self).mem() == old(self).mem() && final(self).chunks() == old(self).chunks(),
            r matches Some(off) ==> {
                let (ncs, j) = allocate_seq(
                    old(self).chunks(),
                    Tags::spec_width(),
                    old(self).base(),
                    size as int,
                    align as int,
                );
                &&& final(self).chunks() == ncs
                &&& 0 <= j < ncs.len()
                &&& off == content_start(ncs[j], Tags::spec_width())
                &&& ncs[j].2
                &&& size <= ncs[j].1
                &&& (final(self).base() + off) % (align as int) == 0
                &&& forall|k: int|
                    off <= k < off + size ==> !in_allocated_content(
                        old(self).chunks(),
                        Tags::spec_width(),
                        k,
                    )
                &&& forall|k: int|
                    0 <= k < old(self).mem().len() && !(j > 0 && tag_byte(
                        ncs[j - 1],
                        Tags::spec_width(),
                        k,
                    )) && !tag_byte(ncs[j], Tags::spec_width(), k) && !(j + 1 < ncs.len()
                        && tag_byte(ncs[j + 1], Tags::spec_width(), k)) ==> final(self).mem()[k]
                        == old(self).mem()[k]
            },
            forall|k: int|
                in_allocated_content(old(self).chunks(), Tags::spec_width(), k) ==> final(self).mem()[k] == old(self).mem()[k],
    {
        let w = Tags::width();
        let t = 2 * w + 1;
        let ghost wn = w as nat;
        let ghost cs = self.chunks();
        let ghost m0 = self.mem();
        let ghost base = self.base();
        let len = self.backing_mem.len();
        proof {
            assert forall|k: int| in_allocated_content(cs, wn, k) implies 0 <= k < len by {
                let a = choose|a: int|
                    0 <= a < cs.len() && (#[trigger] cs[a]).2 && content_start(cs[a], wn) <= k
                        < content_start(cs[a], wn) + cs[a].1;
                lemma_tiles_bounds(cs, wn, 0, len as int, a);
            }
        }
        let found = self.find_fit(size, align);
        let (pos, csize) = match found {
            None => {
                return None;
            },
            Some(f) => f,
        };
        let ghost i = first_fit(cs, 0, wn, base, size as int, align as int);
        proof {
            lemma_first_fit(cs, 0, wn, base, size as int, align as int);
        }
        let ghost c = cs[i];
        let ghost end = chunk_end(c, wn);
        proof {
            lemma_tiles_bounds(cs, wn, 0, len as int, i);
            lemma_first_chunk(cs, wn, 0, len as int, i);
            lemma_padding(base + content_start(c, wn), align as int);
            // positions of allocated content stay clear of the bytes that get rewritten
            assert forall|k: int| in_allocated_content(cs, wn, k) implies !(c.0 - wn <= k < end)
                && !(i > 0 && cs[i - 1].0 <= k < cs[i - 1].0 + wn + 1) by {
                let a = choose|a: int|
                    0 <= a < cs.len() && (#[trigger] cs[a]).2 && content_start(cs[a], wn) <= k
                        < content_start(cs[a], wn) + cs[a].1;
                lemma_content_disjoint(cs, wn, 0, len as int, a, i);
                if i > 0 {
                    let q = i - 1;
                    assert(cs[q + 1].0 == chunk_end(cs[q], wn));
                    if a != i - 1 {
                        lemma_content_disjoint(cs, wn, 0, len as int, a, i - 1);
                    }
                }
            }
            assert forall|k: int|
                0 <= k < len && c.0 <= k < end implies !in_allocated_content(cs, wn, k) by {
                if in_allocated_content(cs, wn, k) {
                    let a = choose|a: int|
                        0 <= a < cs.len() && (#[trigger] cs[a]).2 && content_start(cs[a], wn)
                            <= k < content_start(cs[a], wn) + cs[a].1;
                    lemma_content_disjoint(cs, wn, 0, len as int, a, i);
                }
            }
        }
        let addr = self.base + pos + w + 1;
        let p = (align - addr % align) % align;
        let mut cpos = pos;
        let mut csz = csize;
        let ghost mut j = i;
        if p > 0 {
            if p > t {
                self.split_chunk(pos, csize, p - t, Ghost(i));
                cpos = pos + p;
                csz = csize - p;
                proof {
                    j = i + 1;
                }
            } else if pos > 0 {
                let psize = self.read_prev_size(pos, Ghost(i));
                proof {
                    let q = i - 1;
                    assert(cs[q + 1].0 == chunk_end(cs[q], wn));
                    lemma_tiles_bounds(cs, wn, 0, len as int, q);
                }
                let ppos = pos - t - psize;
                self.shift_chunk(ppos, psize, pos, csize, p, Ghost(i));
                cpos = pos + p;
                csz = csize - p;
            } else {
                self.split_chunk(pos, csize, p + align - t, Ghost(i));
                cpos = pos + p + align;
                csz = csize - p - align;
                proof {
                    j = i + 1;
                }
            }
        }
        let ghost a = self.chunks();
        proof {
            assert((a, j) == aligned_seq(cs, i, wn, base, align as int));
            assert(a[j] == (cpos as int, csz as int, false));
            assert(chunk_end(a[j], wn) == end);
            assert forall|k: int|
                0 <= k < len && !(c.0 - wn <= k < end) && !(i > 0 && cs[i - 1].0 <= k < cs[i
                    - 1].0 + wn + 1) implies self.mem()[k] == m0[k] by {}
            assert forall|k: int|
                0 <= k < len && !(j > 0 && tag_byte(a[j - 1], wn, k)) && !tag_byte(a[j], wn, k)
                    implies self.mem()[k] == m0[k] by {}
        }
        let ghost m1 = self.mem();
        if csz > size + t {
            self.split_chunk(cpos, csz, size, Ghost(j));
        }
        self.mark_chunk(cpos, true, Ghost(j));
        let ghost ncs = self.chunks();
        proof {
            assert(ncs == claim_seq(a, j, size as int, wn));
            assert(ncs[j].0 == cpos);
            assert forall|k: int|
                0 <= k < len && !(c.0 - wn <= k < end) && !(i > 0 && cs[i - 1].0 <= k < cs[i
                    - 1].0 + wn + 1) implies self.mem()[k] == m0[k] by {
                assert(m1[k] == m0[k]);
            }
            assert(j > 0 ==> ncs[j - 1] == a[j - 1]);
            assert(tag_byte(ncs[j], wn, cpos + wn));
            assert forall|k: int|
                0 <= k < len && !(j > 0 && tag_byte(ncs[j - 1], wn, k)) && !tag_byte(ncs[j], wn, k)
                    && !(j + 1 < ncs.len() && tag_byte(ncs[j + 1], wn, k)) implies self.mem()[k]
                == m0[k] by {
                if csz > size + t {
                    assert(j + 1 < ncs.len());
                }
                assert(!tag_byte(a[j], wn, k));
                assert(m1[k] == m0[k]);
            }
            lemma_padding(base + cpos + wn + 1 - (cpos - pos), align as int);
        }
        Some(cpos + w + 1)
    }


    /// Mark the allocated chunk `i` at `pos` as free and join it with the free chunks around it.
    #[verifier::rlimit(100)]
    pub fn deallocate_chunk(&mut self, pos: usize, Ghost(i): Ghost<int>)
        requires
            old(self).wf(),
            0 <= i < old(self).chunks().len(),
            old(self).chunks()[i].0 == pos,
            old(self).chunks()[i].2,
        ensures
            final(self).wf(),
            final(self).base() == old(self).base(),
            final(self).mem().len() == old(self).mem().len(),
            final(self).chunks() == free_seq(old(self).chunks(), i, Tags::spec_width()),
            forall|k: int|
                in_allocated_content(old(self).chunks(), Tags::spec_width(), k) && !(
                content_start(old(self).chunks()[i], Tags::spec_width()) <= k < content_start(
                    old(self).chunks()[i],
                    Tags::spec_width(),
                ) + old(self).chunks()[i].1) ==> final(self).mem()[k] == old(self).mem()[k],
            forall|k: int|
                0 <= k < old(self).mem().len() && !(pos <= k < content_start(
                    old(self).chunks()[i],
                    Tags::spec_width(),
                )) && !(i < final(self).chunks().len() && tag_byte(
                    final(self).chunks()[i],
                    Tags::spec_width(),
                    k,
                )) && !(i > 0 && tag_byte(final(self).chunks()[i - 1], Tags::spec_width(), k))
                    ==> final(self).mem()[k] == old(self).mem()[k],
    {
        let w = Tags::width();
        let t = 2 * w + 1;
        let ghost wn = w as nat;
        let ghost cs = self.chunks();
        let ghost m0 = self.mem();
        let len = self.backing_mem.len();
        let ghost c = cs[i];
        proof {
            lemma_tiles_bounds(cs, wn, 0, len as int, i);
            lemma_first_chunk(cs, wn, 0, len as int, i);
            assert forall|k: int| in_allocated_content(cs, wn, k) implies 0 <= k < len by {
                let a = choose|a: int|
                    0 <= a < cs.len() && (#[trigger] cs[a]).2 && content_start(cs[a], wn) <= k
                        < content_start(cs[a], wn) + cs[a].1;
                lemma_tiles_bounds(cs, wn, 0, len as int, a);
            }
            // the bytes that get rewritten are tags of the chunk and of its neighbours
            assert forall|k: int|
                in_allocated_content(cs, wn, k) && !(content_start(c, wn) <= k < content_start(c, wn)
                    + c.1) implies !(c.0 <= k < content_start(c, wn)) && !(content_start(c, wn) + c.1
                <= k < chunk_end(c, wn)) && !(i + 1 < cs.len() && cs[i + 1].0 <= k < chunk_end(cs[i + 1], wn) && !cs[i + 1].2)
                && !(i > 0 && cs[i - 1].0 <= k < chunk_end(cs[i - 1], wn) && !cs[i - 1].2) by {
                let a = choose|a: int|
                    0 <= a < cs.len() && (#[trigger] cs[a]).2 && content_start(cs[a], wn) <= k
                        < content_start(cs[a], wn) + cs[a].1;
                if a != i {
                    lemma_content_disjoint(cs, wn, 0, len as int, a, i);
                }
                if i + 1 < cs.len() && a != i + 1 {
                    lemma_content_disjoint(cs, wn, 0, len as int, a, i + 1);
                }
                if i > 0 && a != i - 1 {
                    lemma_content_disjoint(cs, wn, 0, len as int, a, i - 1);
                }
            }
        }
        let (size, _) = self.read_begin_tag(pos, Ghost(i));
        self.mark_chunk(pos, false, Ghost(i));
        let ghost m = self.chunks();
        let ghost ma = self.mem();
        let mut cur_size = size;
        let next = pos + t + size;
        if next < len {
            proof {
                assert(i + 1 < cs.len()) by {
                    if i + 1 >= cs.len() {
                        assert(chunk_end(cs[cs.len() - 1], wn) == len);
                    }
                }
                assert(m[i + 1].0 == chunk_end(m[i], wn));
                lemma_tiles_bounds(cs, wn, 0, len as int, i + 1);
            }
            let (nsize, nalloc) = self.read_begin_tag(next, Ghost(i + 1));
            if !nalloc {
                self.merge_chunks(pos, size, nsize, Ghost(i));
                cur_size = size + nsize + t;
            }
        } else {
            proof {
                if i + 1 < cs.len() {
                    assert(m[i + 1].0 == chunk_end(m[i], wn));
                    lemma_tiles_bounds(cs, wn, 0, len as int, i + 1);
                }
            }
        }
        let ghost m2 = self.chunks();
        let ghost mb = self.mem();
        let ghost next_merged = i + 1 < cs.len() && !cs[i + 1].2;
        proof {
            assert(m2[i].0 == pos && m2[i].1 == cur_size && !m2[i].2);
            assert(i > 0 ==> m2[i - 1] == cs[i - 1]);
        }
        if pos > 0 {
            let psize = self.read_prev_size(pos, Ghost(i));
            proof {
                let q = i - 1;
                assert(m2[q + 1].0 == chunk_end(m2[q], wn));
                lemma_tiles_bounds(m2, wn, 0, len as int, q);
            }
            let ppos = pos - t - psize;
            let (_, palloc) = self.read_begin_tag(ppos, Ghost(i - 1));
            if !palloc {
                self.merge_chunks(ppos, psize, cur_size, Ghost(i - 1));
            }
        }
        proof {
            let f = self.chunks();
            let prev_merged = i > 0 && !cs[i - 1].2;
            if i > 0 {
                assert(cs[i].0 == chunk_end(cs[i - 1], wn));
            }
            if next_merged {
                assert(cs[i + 1].0 == chunk_end(cs[i], wn));
                assert(chunk_end(m2[i], wn) == chunk_end(cs[i + 1], wn));
            } else {
                assert(chunk_end(m2[i], wn) == chunk_end(cs[i], wn));
            }
            if prev_merged {
                assert(f[i - 1].0 == cs[i - 1].0);
                assert(chunk_end(f[i - 1], wn) == chunk_end(m2[i], wn));
            } else {
                assert(f[i] == m2[i]);
            }
            assert forall|k: int|
                0 <= k < len && !(pos <= k < content_start(c, wn)) && !(i < f.len() && tag_byte(
                    f[i],
                    wn,
                    k,
                )) && !(i > 0 && tag_byte(f[i - 1], wn, k)) implies self.mem()[k] == m0[k] by {
                assert(ma[k] == m0[k]);
                assert(mb[k] == ma[k]);
            }
        }
    }


    /// Fill the `n` bytes from position `off` on, which lie in the content of chunk `j`, with
    /// `byte`.
    pub fn fill_content(&mut self, off: usize, n: usize, byte: u8, Ghost(j): Ghost<int>)
        requires
            old(self).wf(),
            0 <= j < old(self).chunks().len(),
            content_start(old(self).chunks()[j], Tags::spec_width()) <= off,
            off + n <= content_start(old(self).chunks()[j], Tags::spec_width()) + old(self).chunks()[j].1,
        ensures
            final(self).wf(),
            final(self).chunks() == old(self).chunks(),
            final(self).base() == old(self).base(),
            final(self).mem().len() == old(self).mem().len(),
            forall|k: int| off <= k < off + n ==> final(self).mem()[k] == byte,
            forall|k: int|
                0 <= k < old(self).mem().len() && !(off <= k < off + n) ==> final(self).mem()[k]
                    == old(self).mem()[k],
    {
        let ghost wn = Tags::spec_width();
        let ghost cs = self.chunks();
        let ghost m0 = self.mem();
        proof {
            lemma_tiles_bounds(cs, wn, 0, m0.len() as int, j);
        }
        let _len = self.backing_mem.len();
        let end = off + n;
        let mut x: usize = off;
        while x < end
            invariant
                end == off + n,
                off <= x <= off + n,
                off + n <= m0.len(),
                self.chunks() == cs,
                self.base() == old(self).base(),
                self.backing_mem@.len() == m0.len(),
                forall|k: int| off <= k < x ==> self.backing_mem@[k] == byte,
                forall|k: int|
                    0 <= k < m0.len() && !(off <= k < x) ==> self.backing_mem@[k] == m0[k],
            decreases off + n - x,
        {
            self.backing_mem.set(x, byte);
            x = x + 1;
        }
        proof {
            let m1 = self.mem();
            assert forall|a: int| 0 <= a < cs.len() implies #[trigger] tags_ok(m1, cs[a], wn) by {
                assert(tags_ok(m0, cs[a], wn));
                lemma_tiles_bounds(cs, wn, 0, m0.len() as int, a);
                if a != j {
                    lemma_content_disjoint(cs, wn, 0, m0.len() as int, j, a);
                }
                lemma_tags_only(m0, m1, cs[a], wn);
            }
        }
    }


    /// The content size of chunk `i` at `pos`.
    pub fn block_size(&self, pos: usize, Ghost(i): Ghost<int>) -> (r: usize)
        requires
            self.wf(),
            0 <= i < self.chunks().len(),
            self.chunks()[i].0 == pos,
        ensures
            r == self.chunks()[i].1,
    {
        self.read_begin_tag(pos, Ghost(i)).0
    }


    /// The content size and allocation state of chunk `i` at `pos`.
    pub fn chunk_info(&self, pos: usize, Ghost(i): Ghost<int>) -> (r: (usize, bool))
        requires
            self.wf(),
            0 <= i < self.chunks().len(),
            self.chunks()[i].0 == pos,
        ensures
            r.0 == self.chunks()[i].1,
            r.1 == self.chunks()[i].2,
    {
        self.read_begin_tag(pos, Ghost(i))
    }

    /// The blocks of the backing memory in order: where each starts and how many bytes it
    /// spans, tags included.
    pub fn block_iter(&self) -> (r: Vec<(usize, usize)>)
        requires
            self.wf(),
        ensures
            r@.len() == self.chunks().len(),
            forall|k: int|
                0 <= k < r@.len() ==> r@[k].0 == self.chunks()[k].0 && r@[k].1 == tags_size(
                    Tags::spec_width(),
                ) + self.chunks()[k].1,
    {
        let w = Tags::width();
        let t = 2 * w + 1;
        let ghost wn = w as nat;
        let ghost cs = self.chunks();
        let len = self.backing_mem.len();
        let mut blocks: Vec<(usize, usize)> = Vec::new();
        let mut pos: usize = 0;
        let ghost mut i: int = 0;
        loop
            invariant
                self.wf(),
                w == wn && wn == Tags::spec_width() && t == tags_size(wn),
                cs == self.chunks(),
                len == self.mem().len(),
                0 <= i < cs.len(),
                cs[i].0 == pos,
                blocks@.len() == i,
                forall|k: int|
                    0 <= k < i ==> blocks@[k].0 == cs[k].0 && blocks@[k].1 == tags_size(wn)
                        + cs[k].1,
            decreases len - pos,
        {
            proof {
                lemma_tiles_bounds(cs, wn, 0, len as int, i);
            }
            let size = self.block_size(pos, Ghost(i));
            blocks.push((pos, t + size));
            let next = pos + t + size;
            if next >= len {
                proof {
                    if i < cs.len() - 1 {
                        lemma_tiles_bounds(cs, wn, 0, len as int, i + 1);
                        assert(cs[i + 1].0 == chunk_end(cs[i], wn));
                    }
                }
                return blocks;
            }
            proof {
                assert(i < cs.len() - 1) by {
                    if i == cs.len() - 1 {
                        assert(chunk_end(cs[i], wn) == len);
                    }
                }
                assert(cs[i + 1].0 == chunk_end(cs[i], wn));
                i = i + 1;
            }
            pos = next;
        }
    }

}

} // verus!
