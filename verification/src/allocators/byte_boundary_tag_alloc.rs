//! A boundary tag allocator with one-byte tags (for up to 255 bytes of backing memory) that
//! puts the padding an alignment needs at the front of the allocated chunk's content.
//!
//! Each chunk is laid out as `size, marker, content, size`. An allocation takes the first free
//! chunk whose content can hold the padding and the requested bytes. If the rest of the chunk
//! can form a chunk of its own, the chunk is split; otherwise the extra bytes stay at the end of
//! the allocated chunk.

use vstd::prelude::*;
use crate::address::slice_address;
use crate::allocators::boundary_tag_alloc::chunks::{
    Chunk, chunk_end, chunks_wf, content_start, tag_byte, in_allocated_content, lemma_content_disjoint,
    lemma_first_chunk, lemma_tiles_bounds, mark_seq, split_seq, tags_size,
};
use crate::allocators::boundary_tag_alloc::laws::{
    lemma_keeps_content, lemma_keeps_trans, lemma_mark_keeps, lemma_split_keeps,
};
use crate::allocators::boundary_tag_alloc::state::AllocatorState;
use crate::allocators::boundary_tag_alloc::tags::{pow256, TagsBinding, TagsU8};
use crate::allocators::layout::{lemma_padding, padding, Layout};
use crate::allocators::traits::{init_byte, AllocError, AllocInit};

verus! {

/// Chunk `i` is free and its content can hold `size` bytes after the padding that aligns them.
pub open spec fn fits_front(cs: Seq<Chunk>, i: int, base: int, size: int, align: int) -> bool {
    let c = cs[i];
    &&& !c.2
    &&& c.1 >= size + padding(base + content_start(c, 1), align)
}

/// The first chunk from `k` on that can hold the allocation with its padding in front, or `-1`.
pub open spec fn first_fit_front(cs: Seq<Chunk>, k: int, base: int, size: int, align: int) -> int
    decreases cs.len() - k,
{
    if k < 0 || k >= cs.len() {
        -1
    } else if fits_front(cs, k, base, size, align) {
        k
    } else {
        first_fit_front(cs, k + 1, base, size, align)
    }
}

/// A chunk that the search finds lies at or after where it started and can hold the allocation.
pub proof fn lemma_first_fit_front(cs: Seq<Chunk>, k: int, base: int, size: int, align: int)
    requires
        0 <= k,
    ensures
        first_fit_front(cs, k, base, size, align) == -1 || (k <= first_fit_front(
            cs,
            k,
            base,
            size,
            align,
        ) < cs.len() && fits_front(cs, first_fit_front(cs, k, base, size, align), base, size, align)),
    decreases cs.len() - k,
{
    if k < cs.len() && !fits_front(cs, k, base, size, align) {
        lemma_first_fit_front(cs, k + 1, base, size, align);
    }
}

/// The chunks after chunk `i` took an allocation of `size` bytes with `pad` bytes of padding in
/// front: split when the rest can form a chunk of its own, then marked as allocated.
pub open spec fn claim_front_seq(cs: Seq<Chunk>, i: int, size: int, pad: int) -> Seq<Chunk> {
    if cs[i].1 > size + pad + tags_size(1) {
        mark_seq(split_seq(cs, i, size + pad, 1), i, true)
    } else {
        mark_seq(cs, i, true)
    }
}

/// A general purpose allocator with one-byte boundary tags.
pub struct BoundaryTagAllocator {
    state: AllocatorState<TagsU8>,
}

impl BoundaryTagAllocator {
    /// The bytes of the backing memory.
    pub closed spec fn mem(&self) -> Seq<u8> {
        self.state.mem()
    }

    /// The chunks that the tags describe.
    pub closed spec fn chunks(&self) -> Seq<Chunk> {
        self.state.chunks()
    }

    /// The address of the first byte of the backing memory.
    pub closed spec fn base(&self) -> int {
        self.state.base()
    }

    /// The tags describe chunks that tile the backing memory.
    pub closed spec fn wf(&self) -> bool {
        self.state.wf()
    }

    /// The tags of every chunk are written in the backing memory, the chunks tile it, and its
    /// addresses fit in a `usize`.
    pub proof fn lemma_wf(&self)
        requires
            self.wf(),
        ensures
            chunks_wf(self.mem(), self.chunks(), 1),
            self.base() + self.mem().len() <= usize::MAX,
    {
    }

    /// Create an allocator over the given backing memory, which lies at address `base`. All the
    /// memory initially forms one free chunk.
    pub fn new_at_address(backing_mem: Vec<u8>, base: usize) -> (r: Self)
        requires
            base + backing_mem@.len() <= usize::MAX,
            3 < backing_mem@.len() <= 255,
        ensures
            r.wf(),
            r.base() == base,
            r.mem().len() == backing_mem@.len(),
            r.chunks() == seq![(0int, backing_mem@.len() - 3, false)],
            forall|k: int| 2 <= k < backing_mem@.len() - 1 ==> r.mem()[k] == backing_mem@[k],
    {
        proof {
            crate::allocators::boundary_tag_alloc::tags::lemma_pow256_values();
        }
        BoundaryTagAllocator { state: AllocatorState::new(backing_mem, base) }
    }

    /// Create an allocator over the given backing memory. All the memory initially forms one
    /// free chunk.
    pub fn new(backing_mem: Vec<u8>) -> (r: Self)
        requires
            3 < backing_mem@.len() <= 255,
        ensures
            r.wf(),
            r.mem().len() == backing_mem@.len(),
            r.chunks() == seq![(0int, backing_mem@.len() - 3, false)],
            forall|k: int| 2 <= k < backing_mem@.len() - 1 ==> r.mem()[k] == backing_mem@[k],
    {
        let base = slice_address(backing_mem.as_slice());
        Self::new_at_address(backing_mem, base)
    }

    /// The bytes of the backing memory.
    pub fn backing_mem(&self) -> (r: &[u8])
        ensures
            r@ == self.mem(),
    {
        self.state.backing_mem()
    }

    /// The byte at address `addr`.
    pub fn read(&self, addr: usize) -> (r: u8)
        requires
            self.base() <= addr < self.base() + self.mem().len(),
        ensures
            r == self.mem()[addr - self.base()],
    {
        let base = self.state.base_address();
        self.state.backing_mem()[addr - base]
    }

    /// The blocks of the backing memory in order: where each starts and how many bytes it
    /// spans, tags included.
    pub fn block_iter(&self) -> (r: Vec<(usize, usize)>)
        requires
            self.wf(),
        ensures
            r@.len() == self.chunks().len(),
            forall|k: int|
                0 <= k < r@.len() ==> r@[k].0 == self.chunks()[k].0 && r@[k].1 == 3
                    + self.chunks()[k].1,
    {
        self.state.block_iter()
    }

    /// Find the first chunk that can hold `size` bytes aligned to `align` with the padding in
    /// front: its position and content size.
    fn find_fit(&self, size: usize, align: usize) -> (r: Option<(usize, usize)>)
        requires
            self.wf(),
            size >= 1,
            align >= 1,
        ensures
            r is None <==> first_fit_front(self.chunks(), 0, self.base(), size as int, align as int)
                == -1,
            r matches Some((pos, csize)) ==> {
                let i = first_fit_front(self.chunks(), 0, self.base(), size as int, align as int);
                &&& 0 <= i < self.chunks().len()
                &&& self.chunks()[i].0 == pos
                &&& self.chunks()[i].1 == csize
            },
    {
        let ghost cs = self.chunks();
        let base = self.state.base_address();
        let len = self.state.backing_mem().len();
        let mut pos: usize = 0;
        let ghost mut i: int = 0;
        loop
            invariant
                self.wf(),
                cs == self.chunks(),
                base == self.base(),
                len == self.mem().len(),
                size >= 1,
                align >= 1,
                0 <= i < cs.len(),
                cs[i].0 == pos,
                first_fit_front(cs, 0, base as int, size as int, align as int) == first_fit_front(
                    cs,
                    i,
                    base as int,
                    size as int,
                    align as int,
                ),
            decreases len - pos,
        {
            let (csize, allocated) = self.state.chunk_info(pos, Ghost(i));
            proof {
                lemma_tiles_bounds(cs, 1, 0, len as int, i);
            }
            let addr = base + pos + 2;
            let p = (align - addr % align) % align;
            if !allocated && csize >= size && csize - size >= p {
                return Some((pos, csize));
            }
            let next = pos + 3 + csize;
            if next >= len {
                assert(i == cs.len() - 1) by {
                    if i < cs.len() - 1 {
                        lemma_tiles_bounds(cs, 1, 0, len as int, i + 1);
                        assert(cs[i + 1].0 == chunk_end(cs[i], 1));
                    }
                }
                assert(first_fit_front(cs, i + 1, base as int, size as int, align as int) == -1);
                return None;
            }
            proof {
                assert(i < cs.len() - 1);
                assert(cs[i + 1].0 == chunk_end(cs[i], 1));
                i = i + 1;
            }
            pos = next;
        }
    }

    /// Allocate `layout.size()` bytes aligned to `layout.align()` from the first chunk that can
    /// hold them with their padding in front, filled as `init` says, and return the block: the
    /// address of its first byte and its length.
    pub fn allocate(&mut self, layout: Layout, init: AllocInit) -> (r: Result<(usize, usize), AllocError>)
        requires
            old(self).wf(),
            layout.spec_size() > 0,
        ensures
            final(self).wf(),
            final(self).base() == old(self).base(),
            final(self).mem().len() == old(self).mem().len(),
            ({
                let cs = old(self).chunks();
                let size = layout.spec_size() as int;
                let align = layout.spec_align() as int;
                let i = first_fit_front(cs, 0, old(self).base(), size, align);
                let pad = padding(old(self).base() + content_start(cs[i], 1), align);
                &&& r is Err <==> i == -1
                &&& r matches Err(e) ==> e == AllocError::InsufficientMemory && final(self).mem()
                    == old(self).mem() && final(self).chunks() == cs
                &&& r matches Ok((addr, len)) ==> {
                    let off = addr - old(self).base();
                    &&& len == size
                    &&& final(self).chunks() == claim_front_seq(cs, i, size, pad)
                    &&& off == content_start(cs[i], 1) + pad
                    &&& addr as int % align == 0
                    &&& forall|k: int|
                        off <= k < off + size ==> !in_allocated_content(cs, 1, k)
                    &&& forall|k: int|
                        off <= k < off + size ==> in_allocated_content(final(self).chunks(), 1, k)
                    &&& forall|k: int|
                        in_allocated_content(cs, 1, k) ==> in_allocated_content(
                            final(self).chunks(),
                            1,
                            k,
                        )
                    &&& forall|k: int|
                        off <= k < off + size && init_byte(init) is Some ==> final(self).mem()[k]
                            == init_byte(init)->0
                    &&& forall|k: int|
                        0 <= k < old(self).mem().len() && !tag_byte(final(self).chunks()[i], 1, k)
                            && !(i + 1 < final(self).chunks().len() && tag_byte(
                            final(self).chunks()[i + 1],
                            1,
                            k,
                        )) && !(init_byte(init) is Some && off <= k < off + size)
                            ==> final(self).mem()[k] == old(self).mem()[k]
                }
            }),
            forall|k: int|
                in_allocated_content(old(self).chunks(), 1, k) ==> final(self).mem()[k] == old(self).mem()[k],
    {
        let size = layout.size();
        let align = layout.align();
        let ghost cs = self.chunks();
        let ghost m0 = self.mem();
        let ghost base = self.base();
        let len = self.state.backing_mem().len();
        proof {
            assert forall|k: int| in_allocated_content(cs, 1, k) implies 0 <= k < len by {
                let a = choose|a: int|
                    0 <= a < cs.len() && (#[trigger] cs[a]).2 && content_start(cs[a], 1) <= k
                        < content_start(cs[a], 1) + cs[a].1;
                lemma_tiles_bounds(cs, 1, 0, len as int, a);
            }
        }
        let (pos, csize) = match self.find_fit(size, align) {
            None => {
                return Err(AllocError::InsufficientMemory);
            },
            Some(f) => f,
        };
        let ghost i = first_fit_front(cs, 0, base, size as int, align as int);
        proof {
            lemma_first_fit_front(cs, 0, base, size as int, align as int);
            lemma_tiles_bounds(cs, 1, 0, len as int, i);
            lemma_padding(base + content_start(cs[i], 1), align as int);
            assert forall|k: int| in_allocated_content(cs, 1, k) implies !(cs[i].0 <= k
                < chunk_end(cs[i], 1)) by {
                let a = choose|a: int|
                    0 <= a < cs.len() && (#[trigger] cs[a]).2 && content_start(cs[a], 1) <= k
                        < content_start(cs[a], 1) + cs[a].1;
                lemma_content_disjoint(cs, 1, 0, len as int, a, i);
            }
        }
        let base_addr = self.state.base_address();
        let addr = base_addr + pos + 2;
        let pad = (align - addr % align) % align;
        let full = size + pad;
        if csize > full + 3 {
            self.state.split_chunk(pos, csize, full, Ghost(i));
        }
        let ghost cs1 = self.chunks();
        let ghost m_split = self.mem();
        proof {
            assert forall|k: int|
                0 <= k < m0.len() && !tag_byte(cs1[i], 1, k) && !(i + 1 < cs1.len() && tag_byte(
                    cs1[i + 1],
                    1,
                    k,
                )) implies m_split[k] == m0[k] by {
                if csize > full + 3 {
                    assert(i + 1 < cs1.len());
                }
            }
        }
        self.state.mark_chunk(pos, true, Ghost(i));
        let ghost m1 = self.mem();
        match init {
            AllocInit::Uninitialized => {},
            AllocInit::Zeroed => {
                self.state.fill_content(pos + 2 + pad, size, 0, Ghost(i));
            },
            AllocInit::Data(b) => {
                self.state.fill_content(pos + 2 + pad, size, b, Ghost(i));
            },
        }
        proof {
            assert forall|k: int| in_allocated_content(cs, 1, k) implies self.mem()[k] == m0[k] by {
                assert(m1[k] == m0[k]);
            }
            let ncs = self.chunks();
            if csize > full + 3 {
                lemma_split_keeps(cs, i, full as int, 1);
                lemma_mark_keeps(cs1, i);
                lemma_keeps_trans(cs, cs1, ncs);
            } else {
                lemma_mark_keeps(cs, i);
            }
            assert forall|k: int| in_allocated_content(cs, 1, k) implies in_allocated_content(
                ncs,
                1,
                k,
            ) by {
                lemma_keeps_content(cs, ncs, 1, k);
            }
            assert forall|k: int|
                (pos + 2 + pad) <= k < (pos + 2 + pad) + size implies in_allocated_content(
                ncs,
                1,
                k,
            ) by {
                assert(ncs[i].2 && content_start(ncs[i], 1) <= k < content_start(ncs[i], 1)
                    + ncs[i].1);
            }
            assert(ncs[i].0 == cs1[i].0 && ncs[i].1 == cs1[i].1);
            assert(i + 1 < ncs.len() ==> ncs[i + 1] == cs1[i + 1]);
            assert(tag_byte(cs1[i], 1, pos + 1));
        }
        Ok((addr + pad, size))
    }
}

/// A block that lies in allocated content and a block that an allocation hands out from the
/// same chunks, outside all allocated content, do not overlap. Since an allocation keeps all
/// allocated content allocated and adds its own block to it, blocks handed out by any sequence
/// of allocations never overlap.
pub proof fn lemma_blocks_do_not_overlap(
    cs: Seq<Chunk>,
    off1: int,
    size1: int,
    off2: int,
    size2: int,
)
    requires
        size1 >= 1,
        size2 >= 1,
        forall|k: int| off1 <= k < off1 + size1 ==> in_allocated_content(cs, 1, k),
        forall|k: int| off2 <= k < off2 + size2 ==> !in_allocated_content(cs, 1, k),
    ensures
        off1 + size1 <= off2 || off2 + size2 <= off1,
{
    if !(off1 + size1 <= off2 || off2 + size2 <= off1) {
        let k = if off1 >= off2 {
            off1
        } else {
            off2
        };
        assert(in_allocated_content(cs, 1, k));
    }
}

} // verus!
