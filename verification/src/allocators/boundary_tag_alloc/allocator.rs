//! The boundary tag allocator: a general purpose allocator that attaches boundary tags to the
//! memory it hands out for bookkeeping.
//!
//! Each chunk of the backing memory is laid out as `begin-tag, content, end-tag`. An allocation
//! takes the first free chunk that can hold it. When its content is not aligned, the chunk is
//! either split so that the tail is aligned, or moved to the right by growing the chunk before
//! it. A chunk that is larger than needed is split, and the rest stays free. A deallocation
//! marks the chunk free and joins it with free neighbours.

use vstd::prelude::*;
use crate::address::slice_address;
use crate::allocators::boundary_tag_alloc::chunks::{
    Chunk, allocate_seq, chunk_end, content_start, first_chunk_splits, first_fit, free_seq,
    in_allocated_content, lemma_tiles_bounds, lemma_tiles_order, tag_byte, tags_size,
};
use crate::allocators::boundary_tag_alloc::state::AllocatorState;
use crate::allocators::boundary_tag_alloc::laws::{lemma_allocate_keeps_allocated, lemma_free_seq_keeps_allocated};
use crate::allocators::boundary_tag_alloc::tags::{pow256, TagsBinding};
use crate::allocators::layout::Layout;
use crate::allocators::traits::{init_byte, AllocError, AllocInit, Allocator};

verus! {

/// A general purpose allocator that attaches boundary tags to handed out memory for
/// bookkeeping.
pub struct BoundaryTagAllocator<Tags: TagsBinding> {
    state: AllocatorState<Tags>,
}

impl<Tags: TagsBinding> BoundaryTagAllocator<Tags> {
    /// The bytes of the backing memory.
    pub closed spec fn mem(&self) -> Seq<u8> {
        self.state.mem()
    }

    /// The chunks that the tags in the backing memory describe: the position of each begin-tag,
    /// the content size, and whether the chunk is allocated.
    pub closed spec fn chunks(&self) -> Seq<Chunk> {
        self.state.chunks()
    }

    /// The address of the first byte of the backing memory.
    pub closed spec fn base(&self) -> int {
        self.state.base()
    }

    /// The tags describe chunks that tile the backing memory.
    pub closed spec fn is_wf(&self) -> bool {
        self.state.wf()
    }

    /// The allocator's bookkeeping is consistent, stated over its model.
    pub proof fn lemma_wf(&self)
        requires
            self.is_wf(),
        ensures
            crate::allocators::boundary_tag_alloc::chunks::chunks_wf(
                self.mem(),
                self.chunks(),
                Tags::spec_width(),
            ),
            self.base() + self.mem().len() <= usize::MAX,
    {
    }

    /// Create an allocator that allocates from the given backing memory, which lies at address
    /// `base`. All the memory initially forms one free chunk.
    pub fn new_at_address(backing_mem: Vec<u8>, base: usize) -> (r: Self)
        requires
            base + backing_mem@.len() <= usize::MAX,
            backing_mem@.len() > tags_size(Tags::spec_width()),
            backing_mem@.len() < pow256(Tags::spec_width()),
        ensures
            r.is_wf(),
            r.base() == base,
            r.mem().len() == backing_mem@.len(),
            r.chunks() == seq![
                (0int, backing_mem@.len() - tags_size(Tags::spec_width()), false),
            ],
            forall|k: int|
                Tags::spec_width() + 1 <= k < backing_mem@.len() - Tags::spec_width() ==> r.mem()[k]
                    == backing_mem@[k],
    {
        BoundaryTagAllocator { state: AllocatorState::new(backing_mem, base) }
    }

    /// Create an allocator that allocates from the given backing memory. All the memory
    /// initially forms one free chunk.
    pub fn new(backing_mem: Vec<u8>) -> (r: Self)
        requires
            backing_mem@.len() > tags_size(Tags::spec_width()),
            backing_mem@.len() < pow256(Tags::spec_width()),
        ensures
            r.is_wf(),
            r.mem().len() == backing_mem@.len(),
            r.chunks() == seq![
                (0int, backing_mem@.len() - tags_size(Tags::spec_width()), false),
            ],
            forall|k: int|
                Tags::spec_width() + 1 <= k < backing_mem@.len() - Tags::spec_width() ==> r.mem()[k]
                    == backing_mem@[k],
    {
        let base = slice_address(backing_mem.as_slice());
        Self::new_at_address(backing_mem, base)
    }

    /// The bytes of the backing memory.
    pub fn backing_mem(&self) -> (r: &[u8])
        ensures
            r@ == self.mem(),
    {
        self.state.backing_mem()
    }

    /// The address of the first byte of the backing memory.
    pub fn base_address(&self) -> (r: usize)
        ensures
            r == self.base(),
    {
        self.state.base_address()
    }

    /// The byte at address `addr`.
    pub fn read(&self, addr: usize) -> (r: u8)
        requires
            self.base() <= addr < self.base() + self.mem().len(),
        ensures
            r == self.mem()[addr - self.base()],
    {
        let base = self.state.base_address();
        self.state.backing_mem()[addr - base]
    }

    /// The blocks of the backing memory in order: where each starts and how many bytes it
    /// spans, tags included.
    pub fn block_iter(&self) -> (r: Vec<(usize, usize)>)
        requires
            self.is_wf(),
        ensures
            r@.len() == self.chunks().len(),
            forall|k: int|
                0 <= k < r@.len() ==> r@[k].0 == self.chunks()[k].0 && r@[k].1 == tags_size(
                    Tags::spec_width(),
                ) + self.chunks()[k].1,
    {
        self.state.block_iter()
    }

    /// A begin-tag at address `addr` lies in the backing memory, with room for the tags after
    /// it.
    pub open spec fn begin_in_bounds(&self, addr: int) -> bool {
        self.base() <= addr < self.base() + self.mem().len() - tags_size(Tags::spec_width())
    }

    /// The begin-tag that precedes content at `addr` lies in the backing memory, with room for
    /// the tags after it.
    pub open spec fn begin_tag_in_bounds(&self, addr: int) -> bool {
        self.begin_in_bounds(addr - (Tags::spec_width() + 1))
    }

    /// An end-tag at address `addr` lies in the backing memory, after room for a begin-tag and
    /// one content byte.
    pub open spec fn end_in_bounds(&self, addr: int) -> bool {
        self.base() + Tags::spec_width() + 2 <= addr <= self.base() + self.mem().len()
            - Tags::spec_width()
    }

    /// The first chunk of the backing memory: its content size, whether it is allocated, and
    /// the address of its content.
    pub fn get_first_chunk(&self) -> (r: (usize, bool, usize))
        requires
            self.is_wf(),
        ensures
            r.0 == self.chunks()[0].1,
            r.1 == self.chunks()[0].2,
            r.2 == self.base() + content_start(self.chunks()[0], Tags::spec_width()),
    {
        let w = Tags::width();
        let len = self.state.backing_mem().len();
        proof {
            lemma_tiles_bounds(self.chunks(), Tags::spec_width(), 0, len as int, 0);
        }
        let (size, allocated) = self.state.chunk_info(0, Ghost(0));
        (size, allocated, self.state.base_address() + w + 1)
    }

    /// The chunk whose begin-tag is at address `addr`: its content size, whether it is
    /// allocated, and the address of its content; `None` if the begin-tag would not lie in the
    /// backing memory.
    pub fn get_chunk_from_begin(&self, addr: usize) -> (r: Option<(usize, bool, usize)>)
        requires
            self.is_wf(),
            self.begin_in_bounds(addr as int) ==> exists|i: int|
                0 <= i < self.chunks().len() && self.base() + (#[trigger] self.chunks()[i]).0
                    == addr,
        ensures
            r is None <==> !self.begin_in_bounds(addr as int),
            r matches Some((size, allocated, content)) ==> {
                &&& content == addr + Tags::spec_width() + 1
                &&& forall|i: int|
                    0 <= i < self.chunks().len() && self.base() + (#[trigger] self.chunks()[i]).0
                        == addr ==> self.chunks()[i].1 == size && self.chunks()[i].2 == allocated
            },
    {
        let w = Tags::width();
        let t = 2 * w + 1;
        let base = self.state.base_address();
        let len = self.state.backing_mem().len();
        proof {
            lemma_tiles_bounds(self.chunks(), Tags::spec_width(), 0, len as int, 0);
        }
        if addr < base || addr - base >= len - t {
            return None;
        }
        let ghost cs = self.chunks();
        let ghost i = choose|i: int|
            0 <= i < self.chunks().len() && self.base() + (#[trigger] self.chunks()[i]).0 == addr;
        let pos = addr - base;
        let (size, allocated) = self.state.chunk_info(pos, Ghost(i));
        proof {
            assert forall|i2: int|
                0 <= i2 < cs.len() && self.base() + (#[trigger] cs[i2]).0 == addr implies i2
                == i by {
                lemma_chunk_unique(cs, Tags::spec_width(), len as int, i, i2);
            }
            lemma_tiles_bounds(cs, Tags::spec_width(), 0, len as int, i);
        }
        Some((size, allocated, addr + w + 1))
    }

    /// The chunk whose content starts at address `addr`: its content size, whether it is
    /// allocated, and `addr`; `None` if its begin-tag would not lie in the backing memory.
    pub fn get_chunk_from_content(&self, addr: usize) -> (r: Option<(usize, bool, usize)>)
        requires
            self.is_wf(),
            addr >= Tags::spec_width() + 1,
            self.begin_tag_in_bounds(addr as int) ==> exists|i: int|
                0 <= i < self.chunks().len() && self.base() + content_start(
                    #[trigger] self.chunks()[i],
                    Tags::spec_width(),
                ) == addr,
        ensures
            r is None <==> !self.begin_tag_in_bounds(addr as int),
            r matches Some((size, allocated, content)) ==> {
                &&& content == addr
                &&& forall|i: int|
                    0 <= i < self.chunks().len() && self.base() + content_start(
                        #[trigger] self.chunks()[i],
                        Tags::spec_width(),
                    ) == addr ==> self.chunks()[i].1 == size && self.chunks()[i].2 == allocated
            },
    {
        let begin = addr - (Tags::width() + 1);
        proof {
            if self.begin_in_bounds(begin as int) {
                let i = choose|i: int|
                    0 <= i < self.chunks().len() && self.base() + content_start(
                        #[trigger] self.chunks()[i],
                        Tags::spec_width(),
                    ) == addr;
                assert(self.base() + self.chunks()[i].0 == begin);
            }
        }
        self.get_chunk_from_begin(begin)
    }

    /// The chunk whose end-tag is at address `addr`: its content size, whether it is
    /// allocated, and the address of its content; `None` if the end-tag would not lie in the
    /// backing memory.
    pub fn get_chunk_from_end(&self, addr: usize) -> (r: Option<(usize, bool, usize)>)
        requires
            self.is_wf(),
            self.end_in_bounds(addr as int) ==> exists|i: int|
                0 <= i < self.chunks().len() && self.base() + content_start(
                    #[trigger] self.chunks()[i],
                    Tags::spec_width(),
                ) + self.chunks()[i].1 == addr,
        ensures
            r is None <==> !self.end_in_bounds(addr as int),
            r matches Some((size, allocated, content)) ==> forall|i: int|
                0 <= i < self.chunks().len() && self.base() + content_start(
                    #[trigger] self.chunks()[i],
                    Tags::spec_width(),
                ) + self.chunks()[i].1 == addr ==> {
                    &&& self.chunks()[i].1 == size
                    &&& self.chunks()[i].2 == allocated
                    &&& content == self.base() + content_start(self.chunks()[i], Tags::spec_width())
                },
    {
        let w = Tags::width();
        let base = self.state.base_address();
        let len = self.state.backing_mem().len();
        proof {
            lemma_tiles_bounds(self.chunks(), Tags::spec_width(), 0, len as int, 0);
        }
        if addr < base || addr - base < w + 2 || addr - base > len - w {
            return None;
        }
        let ghost cs = self.chunks();
        let ghost i = choose|i: int|
            0 <= i < self.chunks().len() && self.base() + content_start(
                #[trigger] self.chunks()[i],
                Tags::spec_width(),
            ) + self.chunks()[i].1 == addr;
        proof {
            lemma_tiles_bounds(cs, Tags::spec_width(), 0, len as int, i);
        }
        let e = addr - base;
        let size = self.state.read_end_tag(e, Ghost(i));
        let pos = e - size - (w + 1);
        let (size, allocated) = self.state.chunk_info(pos, Ghost(i));
        proof {
            assert forall|i2: int|
                0 <= i2 < cs.len() && self.base() + content_start(
                    #[trigger] cs[i2],
                    Tags::spec_width(),
                ) + cs[i2].1 == addr implies i2 == i by {
                lemma_chunk_end_unique(cs, Tags::spec_width(), len as int, i, i2);
            }
        }
        Some((size, allocated, base + pos + w + 1))
    }

    /// `chunk` describes chunk `i`: its content size and the address of its content.
    pub open spec fn describes(&self, chunk: (usize, bool, usize), i: int) -> bool {
        &&& 0 <= i < self.chunks().len()
        &&& chunk.0 == self.chunks()[i].1
        &&& chunk.2 == self.base() + content_start(self.chunks()[i], Tags::spec_width())
    }

    /// The chunk right after the chunk that `chunk` describes (its content size, whether it is
    /// allocated, and the address of its content); `None` after the last chunk.
    pub fn get_next_chunk(&self, chunk: (usize, bool, usize)) -> (r: Option<(usize, bool, usize)>)
        requires
            self.is_wf(),
            exists|i: int| #[trigger] self.describes(chunk, i),
        ensures
            forall|i: int| #[trigger] self.describes(chunk, i) ==> {
                &&& (r is None <==> i == self.chunks().len() - 1)
                &&& (r matches Some((size, allocated, content)) ==> {
                    &&& size == self.chunks()[i + 1].1
                    &&& allocated == self.chunks()[i + 1].2
                    &&& content == self.base() + content_start(self.chunks()[i + 1], Tags::spec_width())
                })
            },
    {
        let ghost cs = self.chunks();
        let ghost wn = Tags::spec_width();
        let ghost len = self.mem().len();
        let ghost i = choose|i: int| #[trigger] self.describes(chunk, i);
        proof {
            lemma_tiles_bounds(cs, wn, 0, len as int, i);
            if i + 1 < cs.len() {
                let k = i;
                assert(cs[k + 1].0 == chunk_end(cs[k], wn));
                lemma_tiles_bounds(cs, wn, 0, len as int, i + 1);
            }
        }
        let begin = chunk.2 + chunk.0 + Tags::width();
        let r = self.get_chunk_from_begin(begin);
        proof {
            assert forall|i2: int| #[trigger] self.describes(chunk, i2) implies i2 == i by {
                lemma_chunk_unique(cs, wn, len as int, i, i2);
            }
        }
        r
    }

    /// The chunk right before the chunk that `chunk` describes (its content size, whether it is
    /// allocated, and the address of its content); `None` before the first chunk.
    pub fn get_prev_chunk(&self, chunk: (usize, bool, usize)) -> (r: Option<(usize, bool, usize)>)
        requires
            self.is_wf(),
            exists|i: int| #[trigger] self.describes(chunk, i),
        ensures
            forall|i: int| #[trigger] self.describes(chunk, i) ==> {
                &&& (r is None <==> i == 0)
                &&& (r matches Some((size, allocated, content)) ==> {
                    &&& size == self.chunks()[i - 1].1
                    &&& allocated == self.chunks()[i - 1].2
                    &&& content == self.base() + content_start(self.chunks()[i - 1], Tags::spec_width())
                })
            },
    {
        let ghost cs = self.chunks();
        let ghost wn = Tags::spec_width();
        let ghost len = self.mem().len();
        let ghost i = choose|i: int| #[trigger] self.describes(chunk, i);
        let w = Tags::width();
        let base = self.state.base_address();
        proof {
            lemma_tiles_bounds(cs, wn, 0, len as int, 0);
            lemma_tiles_bounds(cs, wn, 0, len as int, i);
            if i > 0 {
                let k = i - 1;
                assert(cs[k + 1].0 == chunk_end(cs[k], wn));
                lemma_tiles_bounds(cs, wn, 0, len as int, i - 1);
            }
            assert forall|i2: int| #[trigger] self.describes(chunk, i2) implies i2 == i by {
                lemma_chunk_unique(cs, wn, len as int, i, i2);
            }
        }
        if chunk.2 < base + 2 * w + 1 {
            return None;
        }
        let end = chunk.2 - (w + 1) - w;
        let r = self.get_chunk_from_end(end);
        proof {
            if i > 0 {
                assert forall|i2: int|
                    0 <= i2 < cs.len() && self.base() + content_start(#[trigger] cs[i2], wn) + cs[i2].1 == end
                    implies i2 == i - 1 by {
                    lemma_chunk_end_unique(cs, wn, len as int, i - 1, i2);
                }
            }
        }
        r
    }

    /// Whether an allocation of `layout` avoids the case where the first chunk would have to be
    /// split but cannot be (see [`first_chunk_splits`]).
    pub fn accepts_layout(&self, layout: &Layout) -> (r: bool)
        requires
            self.is_wf(),
            layout.spec_size() >= 1,
        ensures
            r == first_chunk_splits(
                self.chunks(),
                Tags::spec_width(),
                self.base(),
                layout.spec_size() as int,
                layout.spec_align() as int,
            ),
    {
        let size = layout.size();
        let align = layout.align();
        let w = Tags::width();
        let t = 2 * w + 1;
        let base = self.state.base_address();
        let len = self.state.backing_mem().len();
        proof {
            lemma_tiles_bounds(self.chunks(), Tags::spec_width(), 0, len as int, 0);
        }
        let addr = base + w + 1;
        let p = (align - addr % align) % align;
        if p == 0 || p > t {
            return true;
        }
        match self.state.find_fit(size, align) {
            None => true,
            Some((pos, csize)) => {
                proof {
                    let i = first_fit(self.chunks(), 0, Tags::spec_width(), self.base(), size as int, align as int);
                    crate::allocators::boundary_tag_alloc::chunks::lemma_first_fit(self.chunks(), 0, Tags::spec_width(), self.base(), size as int, align as int);
                    crate::allocators::boundary_tag_alloc::chunks::lemma_first_chunk(self.chunks(), Tags::spec_width(), 0, len as int, i);
                }
                if pos != 0 {
                    return true;
                }
                p + align > t && csize >= p && csize - p >= align && csize - p - align >= size
            },
        }
    }

    /// The content size and allocation state of the chunk whose content starts at address
    /// `addr`, if there is such a chunk.
    pub fn chunk_with_content_at(&self, addr: usize) -> (r: Option<(usize, bool)>)
        requires
            self.is_wf(),
        ensures
            r is Some <==> exists|i: int|
                0 <= i < self.chunks().len() && self.base() + content_start(
                    #[trigger] self.chunks()[i],
                    Tags::spec_width(),
                ) == addr,
            r matches Some((size, allocated)) ==> forall|i: int|
                0 <= i < self.chunks().len() && self.base() + content_start(
                    #[trigger] self.chunks()[i],
                    Tags::spec_width(),
                ) == addr ==> self.chunks()[i].1 == size && self.chunks()[i].2 == allocated,
    {
        let w = Tags::width();
        let t = 2 * w + 1;
        let ghost wn = w as nat;
        let ghost cs = self.chunks();
        let base = self.state.base_address();
        let len = self.state.backing_mem().len();
        let mut pos: usize = 0;
        let ghost mut i: int = 0;
        loop
            invariant
                self.is_wf(),
                w == wn && wn == Tags::spec_width() && t == tags_size(wn),
                cs == self.chunks(),
                base == self.base(),
                len == self.mem().len(),
                0 <= i < cs.len(),
                cs[i].0 == pos,
                forall|k: int| 0 <= k < i ==> base + content_start(#[trigger] cs[k], wn) != addr,
            decreases len - pos,
        {
            proof {
                lemma_tiles_bounds(cs, wn, 0, len as int, i);
            }
            let (size, allocated) = self.state.chunk_info(pos, Ghost(i));
            if base + pos + w + 1 == addr {
                proof {
                    assert forall|i2: int|
                        0 <= i2 < cs.len() && self.base() + content_start(#[trigger] cs[i2], wn) == addr
                        implies i2 == i by {
                        lemma_chunk_unique(cs, wn, len as int, i, i2);
                    }
                }
                return Some((size, allocated));
            }
            let next = pos + t + size;
            if next >= len {
                proof {
                    assert(i == cs.len() - 1) by {
                        if i < cs.len() - 1 {
                            lemma_tiles_bounds(cs, wn, 0, len as int, i + 1);
                            assert(cs[i + 1].0 == chunk_end(cs[i], wn));
                        }
                    }
                }
                return None;
            }
            proof {
                assert(i < cs.len() - 1) by {
                    if i == cs.len() - 1 {
                        assert(chunk_end(cs[i], wn) == len);
                    }
                }
                assert(cs[i + 1].0 == chunk_end(cs[i], wn));
                i = i + 1;
            }
            pos = next;
        }
    }

    /// The content size of chunk `i` at `pos`.
    fn block_size(&self, pos: usize, Ghost(i): Ghost<int>) -> (r: usize)
        requires
            self.is_wf(),
            0 <= i < self.chunks().len(),
            self.chunks()[i].0 == pos,
        ensures
            r == self.chunks()[i].1,
    {
        self.state.block_size(pos, Ghost(i))
    }
}

/// Chunks are identified by where their end-tags are.
proof fn lemma_chunk_end_unique(cs: Seq<Chunk>, w: nat, len: int, i: int, j: int)
    requires
        crate::allocators::boundary_tag_alloc::chunks::tiles_range(cs, w, 0, len),
        0 <= i < cs.len(),
        0 <= j < cs.len(),
        chunk_end(cs[i], w) == chunk_end(cs[j], w),
    ensures
        i == j,
{
    if i < j {
        lemma_tiles_order(cs, w, 0, len, i, j);
        assert(cs[j].1 >= 1);
    } else if j < i {
        lemma_tiles_order(cs, w, 0, len, j, i);
        assert(cs[i].1 >= 1);
    }
}

/// Chunks are identified by where their begin-tags are.
proof fn lemma_chunk_unique(cs: Seq<Chunk>, w: nat, len: int, i: int, j: int)
    requires
        crate::allocators::boundary_tag_alloc::chunks::tiles_range(cs, w, 0, len),
        0 <= i < cs.len(),
        0 <= j < cs.len(),
        cs[i].0 == cs[j].0,
    ensures
        i == j,
{
    if i < j {
        lemma_tiles_order(cs, w, 0, len, i, j);
        assert(cs[i].1 >= 1);
    } else if j < i {
        lemma_tiles_order(cs, w, 0, len, j, i);
        assert(cs[j].1 >= 1);
    }
}

impl<Tags: TagsBinding> Allocator for BoundaryTagAllocator<Tags> {
    open spec fn wf(&self) -> bool {
        self.is_wf()
    }

    open spec fn accepts(&self, layout: Layout) -> bool {
        first_chunk_splits(
            self.chunks(),
            Tags::spec_width(),
            self.base(),
            layout.spec_size() as int,
            layout.spec_align() as int,
        )
    }

    open spec fn fits(&self, layout: Layout) -> bool {
        first_fit(
            self.chunks(),
            0,
            Tags::spec_width(),
            self.base(),
            layout.spec_size() as int,
            layout.spec_align() as int,
        ) != -1
    }

    open spec fn holds(&self, addr: usize, layout: Layout) -> bool {
        exists|i: int|
            0 <= i < self.chunks().len() && (#[trigger] self.chunks()[i]).2 && self.base()
                + content_start(self.chunks()[i], Tags::spec_width()) == addr
                && self.chunks()[i].1 >= layout.spec_size()
    }

    open spec fn released(&self, addr: usize, layout: Layout, after: Self) -> bool {
        &&& after.base() == self.base()
        &&& after.mem().len() == self.mem().len()
        &&& forall|i: int|
            0 <= i < self.chunks().len() && self.base() + content_start(
                #[trigger] self.chunks()[i],
                Tags::spec_width(),
            ) == addr ==> after.chunks() == free_seq(self.chunks(), i, Tags::spec_width())
    }

    /// Allocate from the first chunk that can hold the layout; see [`allocate_seq`] for how the
    /// chunks change.
    fn allocate(&mut self, layout: Layout, init: AllocInit) -> (r: Result<(usize, usize), AllocError>)
        ensures
            final(self).base() == old(self).base(),
            final(self).mem().len() == old(self).mem().len(),
            r is Err <==> first_fit(
                old(self).chunks(),
                0,
                Tags::spec_width(),
                old(self).base(),
                layout.spec_size() as int,
                layout.spec_align() as int,
            ) == -1,
            r matches Err(e) ==> e == AllocError::InsufficientMemory,
            r is Err ==> final(self).mem() == old(self).mem() && final(self).chunks() == old(self).chunks(),
            r matches Ok((addr, _)) ==> {
                let (ncs, j) = allocate_seq(
                    old(self).chunks(),
                    Tags::spec_width(),
                    old(self).base(),
                    layout.spec_size() as int,
                    layout.spec_align() as int,
                );
                let off = addr - old(self).base();
                &&& final(self).chunks() == ncs
                &&& 0 <= j < ncs.len()
                &&& off == content_start(ncs[j], Tags::spec_width())
                &&& ncs[j].2
                &&& layout.spec_size() <= ncs[j].1
                &&& forall|k: int|
                    off <= k < off + layout.spec_size() ==> !in_allocated_content(
                        old(self).chunks(),
                        Tags::spec_width(),
                        k,
                    )
                &&& forall|k: int|
                    off <= k < off + layout.spec_size() && init_byte(init) is Some ==> final(self).mem()[k] == init_byte(init)->0
                &&& forall|k: int|
                    0 <= k < old(self).mem().len() && !(j > 0 && tag_byte(
                        ncs[j - 1],
                        Tags::spec_width(),
                        k,
                    )) && !tag_byte(ncs[j], Tags::spec_width(), k) && !(j + 1 < ncs.len()
                        && tag_byte(ncs[j + 1], Tags::spec_width(), k)) && !(init_byte(init) is Some
                        && off <= k < off + layout.spec_size()) ==> final(self).mem()[k]
                        == old(self).mem()[k]
            },
            forall|k: int|
                in_allocated_content(old(self).chunks(), Tags::spec_width(), k) ==> final(self).mem()[k] == old(self).mem()[k],
    {
        let size = layout.size();
        let align = layout.align();
        let ghost cs = self.chunks();
        let ghost m0 = self.mem();
        match self.state.allocate_chunk(size, align) {
            None => Err(AllocError::InsufficientMemory),
            Some(off) => {
                let ghost j = allocate_seq(
                    cs,
                    Tags::spec_width(),
                    self.base(),
                    size as int,
                    align as int,
                ).1;
                let ghost m1 = self.mem();
                proof {
                    lemma_tiles_bounds(self.chunks(), Tags::spec_width(), 0, m1.len() as int, j);
                }
                match init {
                    AllocInit::Uninitialized => {},
                    AllocInit::Zeroed => {
                        self.state.fill_content(off, size, 0, Ghost(j));
                    },
                    AllocInit::Data(b) => {
                        self.state.fill_content(off, size, b, Ghost(j));
                    },
                }
                let addr = self.state.base_address() + off;
                proof {
                    assert forall|k: int| in_allocated_content(cs, Tags::spec_width(), k) implies
                        self.mem()[k] == m0[k] by {
                        assert(m1[k] == m0[k]);
                        let a = choose|a: int|
                            0 <= a < cs.len() && (#[trigger] cs[a]).2 && content_start(
                                cs[a],
                                Tags::spec_width(),
                            ) <= k < content_start(cs[a], Tags::spec_width()) + cs[a].1;
                        lemma_tiles_bounds(cs, Tags::spec_width(), 0, m0.len() as int, a);
                    }
                    assert(self.chunks()[j].2 && self.chunks()[j].1 >= layout.spec_size());
                    lemma_allocate_keeps_allocated(
                        cs,
                        Tags::spec_width(),
                        self.base(),
                        size as int,
                        align as int,
                    );
                    let bs = self.base();
                    assert forall|a: usize, l: Layout| #[trigger] old(self).holds(a, l) implies
                        bs + off + size <= a || a + l.spec_size() <= bs + off by {
                        let b = choose|b: int|
                            0 <= b < cs.len() && (#[trigger] cs[b]).2 && bs + content_start(
                                cs[b],
                                Tags::spec_width(),
                            ) == a && cs[b].1 >= l.spec_size();
                        lemma_tiles_bounds(cs, Tags::spec_width(), 0, m0.len() as int, b);
                        if !(bs + off + size <= a || a + l.spec_size() <= bs + off) {
                            let k = if a >= bs + off { a - bs } else { off as int };
                            assert(in_allocated_content(cs, Tags::spec_width(), k));
                        }
                    }
                    assert(addr == bs + off);
                    assert forall|l: Layout| !#[trigger] old(self).holds(addr, l) by {
                        if old(self).holds(addr, l) {
                            let b = choose|b: int|
                                0 <= b < cs.len() && (#[trigger] cs[b]).2 && bs + content_start(
                                    cs[b],
                                    Tags::spec_width(),
                                ) == addr && cs[b].1 >= l.spec_size();
                            lemma_tiles_bounds(cs, Tags::spec_width(), 0, m0.len() as int, b);
                            assert(in_allocated_content(cs, Tags::spec_width(), off as int));
                        }
                    }
                    let ncs = self.chunks();
                    assert forall|a: int|
                        0 <= a < cs.len() && (#[trigger] cs[a]).2 implies exists|b: int|
                            0 <= b < ncs.len() && (#[trigger] ncs[b]).2 && content_start(
                                ncs[b],
                                Tags::spec_width(),
                            ) == content_start(cs[a], Tags::spec_width()) && ncs[b].1 >= cs[a].1 by {
                        let b = choose|b: int|
                            0 <= b < ncs.len() && (#[trigger] ncs[b]).2 && ncs[b].0 == cs[a].0
                                && ncs[b].1 >= cs[a].1;
                        assert(ncs[b].2);
                    }
                }
                Ok((addr, size))
            },
        }
    }

    /// Mark the chunk whose content starts at `addr` free and join it with free neighbours;
    /// see [`free_seq`].
    fn deallocate(&mut self, addr: usize, layout: Layout)
        ensures
            final(self).base() == old(self).base(),
            final(self).mem().len() == old(self).mem().len(),
            forall|i: int|
                0 <= i < old(self).chunks().len() && old(self).base() + content_start(
                    old(self).chunks()[i],
                    Tags::spec_width(),
                ) == addr ==> final(self).chunks() == free_seq(
                    old(self).chunks(),
                    i,
                    Tags::spec_width(),
                ),
            forall|i: int, k: int|
                #![trigger in_allocated_content(old(self).chunks(), Tags::spec_width(), k), old(self).chunks()[i]]
                0 <= i < old(self).chunks().len() && old(self).base() + content_start(
                    old(self).chunks()[i],
                    Tags::spec_width(),
                ) == addr && in_allocated_content(old(self).chunks(), Tags::spec_width(), k)
                    && !(content_start(old(self).chunks()[i], Tags::spec_width()) <= k
                    < content_start(old(self).chunks()[i], Tags::spec_width()) + old(self).chunks()[i].1)
                    ==> final(self).mem()[k] == old(self).mem()[k],
            forall|i: int, k: int|
                #![trigger old(self).chunks()[i], old(self).mem()[k]]
                0 <= i < old(self).chunks().len() && old(self).base() + content_start(
                    old(self).chunks()[i],
                    Tags::spec_width(),
                ) == addr && 0 <= k < old(self).mem().len() && !(old(self).chunks()[i].0 <= k
                    < content_start(old(self).chunks()[i], Tags::spec_width())) && !(i
                    < final(self).chunks().len() && tag_byte(
                    final(self).chunks()[i],
                    Tags::spec_width(),
                    k,
                )) && !(i > 0 && tag_byte(final(self).chunks()[i - 1], Tags::spec_width(), k))
                    ==> final(self).mem()[k] == old(self).mem()[k],
    {
        let w = Tags::width();
        let ghost cs = self.chunks();
        let ghost i = choose|i: int|
            0 <= i < self.chunks().len() && (#[trigger] self.chunks()[i]).2 && self.base()
                + content_start(self.chunks()[i], Tags::spec_width()) == addr
                && self.chunks()[i].1 >= layout.spec_size();
        proof {
            lemma_tiles_bounds(cs, Tags::spec_width(), 0, self.mem().len() as int, i);
            assert forall|i2: int|
                0 <= i2 < cs.len() && self.base() + content_start(cs[i2], Tags::spec_width())
                    == addr implies i2 == i by {
                lemma_chunk_unique(cs, Tags::spec_width(), self.mem().len() as int, i, i2);
            }
        }
        let base = self.state.base_address();
        let pos = addr - base - w - 1;
        self.state.deallocate_chunk(pos, Ghost(i));
        proof {
            let f = self.chunks();
            assert forall|a: usize, l: Layout| #[trigger] old(self).holds(a, l) && a != addr implies self.holds(a, l) by {
                let b = choose|b: int|
                    0 <= b < cs.len() && (#[trigger] cs[b]).2 && old(self).base()
                        + content_start(cs[b], Tags::spec_width()) == a
                        && cs[b].1 >= l.spec_size();
                assert(b != i);
                lemma_free_seq_keeps_allocated(cs, i, Tags::spec_width(), b);
                let c = choose|c: int| 0 <= c < f.len() && f[c] == cs[b];
                assert(f[c].2);
            }
        }
    }
}

} // verus!
