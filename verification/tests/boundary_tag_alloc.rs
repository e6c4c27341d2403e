use support_crates::allocators::boundary_tag_alloc::{
    BoundaryTagAllocator, TagsU16, TagsU32, TagsU64, TagsU8, TagsUsize,
};
use support_crates::allocators::{AllocError, AllocInit, Allocator, Layout};

const FREE: u8 = 1;
const ALLOCATED: u8 = 2;

#[test]
fn tests_test_initial_tags() {
    let alloc: BoundaryTagAllocator<TagsU8> = BoundaryTagAllocator::new(vec![0u8; 8]);
    assert_eq!(alloc.backing_mem(), [5, FREE, 0, 0, 0, 0, 0, 5]);
}

#[test]
fn tests_test_alloc_one_u8() {
    let mut alloc: BoundaryTagAllocator<TagsU8> = BoundaryTagAllocator::new(vec![0u8; 8]);
    let layout = Layout::new::<u8>();
    let (block, block_len) = alloc.allocate(layout, AllocInit::Data(0x55)).unwrap();
    assert_eq!(block_len, std::mem::size_of::<u8>());
    assert_eq!(block, alloc.base_address() + 2);
    assert_eq!(alloc.backing_mem(), [1, ALLOCATED, 0x55, 1, 1, FREE, 0, 1]);
}

#[test]
fn tests_test_alloc_multiple_u8() {
    let mut alloc: BoundaryTagAllocator<TagsU8> = BoundaryTagAllocator::new(vec![0u8; 16]);
    let layout = Layout::new::<u8>();
    let (block1, block1_len) = alloc.allocate(layout, AllocInit::Data(0x11)).unwrap();
    let (block2, block2_len) = alloc.allocate(layout, AllocInit::Data(0x22)).unwrap();
    let (block3, block3_len) = alloc.allocate(layout, AllocInit::Data(0x33)).unwrap();
    assert_eq!(block1_len, std::mem::size_of::<u8>());
    assert_eq!(block2_len, std::mem::size_of::<u8>());
    assert_eq!(block3_len, std::mem::size_of::<u8>());
    assert_eq!(alloc.read(block1), 0x11);
    assert_eq!(alloc.read(block2), 0x22);
    assert_eq!(alloc.read(block3), 0x33);
    assert_eq!(
        alloc.backing_mem(),
        [1, ALLOCATED, 0x11, 1, 1, ALLOCATED, 0x22, 1, 1, ALLOCATED, 0x33, 1, 1, FREE, 0, 1]
    );
}

#[test]
fn tests_test_alloc_one_u32() {
    let mut alloc: BoundaryTagAllocator<TagsU8> =
        BoundaryTagAllocator::new_at_address(vec![0u8; 13], 0x1000);
    let layout = Layout::new::<u32>();
    let (block, block_len) = alloc.allocate(layout, AllocInit::Data(0x11)).unwrap();
    assert_eq!(block_len, std::mem::size_of::<u32>());
    assert_eq!(block % 4, 0);
    assert_eq!(
        alloc.backing_mem(),
        [3, FREE, 0, 0, 0, 3, 4, ALLOCATED, 0x11, 0x11, 0x11, 0x11, 4]
    );
}

#[test]
fn tests_test_alloc_last_block() {
    let mut alloc: BoundaryTagAllocator<TagsU8> = BoundaryTagAllocator::new(vec![0u8; 4]);
    let (_block, _) = alloc.allocate(Layout::new::<u8>(), AllocInit::Data(0x11)).unwrap();
    assert_eq!(alloc.backing_mem(), [1, ALLOCATED, 0x11, 1]);
}

#[test]
fn tests_test_alloc_one_with_alignment() {
    let mut alloc: BoundaryTagAllocator<TagsU8> =
        BoundaryTagAllocator::new_at_address(vec![0u8; 16], 0x1000);
    const ALIGNMENT: usize = 4;
    let layout = Layout::from_size_align(1, ALIGNMENT).unwrap();
    let (block, block_len) = alloc.allocate(layout, AllocInit::Data(0x11)).unwrap();
    assert_eq!(block % ALIGNMENT, 0);
    assert_eq!(block_len, 1);
}

#[test]
fn tests_test_not_enough_mem_for_two_allocs_but_more_than_enough_for_one() {
    let mut alloc: BoundaryTagAllocator<TagsU8> = BoundaryTagAllocator::new(vec![0u8; 5]);
    let layout = Layout::new::<u8>();
    let (_block, block_len) = alloc.allocate(layout, AllocInit::Data(0x11)).unwrap();
    assert_eq!(block_len, 1);
    assert_eq!(alloc.backing_mem(), [2, ALLOCATED, 0x11, 0, 2]);
}

fn two_single_bytes<A: Allocator>(alloc: &mut A) {
    let layout = Layout::new::<u8>();
    let (block1, block1_len) = alloc.allocate(layout, AllocInit::Data(0x11)).unwrap();
    let (block2, block2_len) = alloc.allocate(layout, AllocInit::Data(0x22)).unwrap();
    assert_ne!(block1, block2);
    assert_eq!(block1_len, std::mem::size_of::<u8>());
    assert_eq!(block2_len, std::mem::size_of::<u8>());
}

#[test]
fn test_u16_tag() {
    let mut alloc: BoundaryTagAllocator<TagsU16> = BoundaryTagAllocator::new(vec![0u8; 32]);
    two_single_bytes(&mut alloc);
}

#[test]
fn test_u32_tag() {
    let mut alloc: BoundaryTagAllocator<TagsU32> = BoundaryTagAllocator::new(vec![0u8; 32]);
    two_single_bytes(&mut alloc);
}

#[test]
fn test_u64_tag() {
    let mut alloc: BoundaryTagAllocator<TagsU64> = BoundaryTagAllocator::new(vec![0u8; 64]);
    two_single_bytes(&mut alloc);
}

#[test]
fn test_usize_tags() {
    let mut alloc: BoundaryTagAllocator<TagsUsize> = BoundaryTagAllocator::new(vec![0u8; 64]);
    two_single_bytes(&mut alloc);
}

#[test]
fn test_second_chunk_needing_padding() {
    let mut alloc: BoundaryTagAllocator<TagsU8> =
        BoundaryTagAllocator::new_at_address(vec![0u8; 16], 0x1000);
    let _block1 = alloc
        .allocate(Layout::from_size_align(1, 1).unwrap(), AllocInit::Data(0x55))
        .unwrap();
    let block2 = alloc
        .allocate(Layout::from_size_align(1, 4).unwrap(), AllocInit::Data(0x55))
        .unwrap()
        .0;
    // the first chunk grew by one padding byte so that the second one's content is aligned
    assert_eq!(block2 % 4, 0);
    assert_eq!(
        alloc.backing_mem(),
        [3, ALLOCATED, 0x55, 1, 9, 3, 1, ALLOCATED, 0x55, 1, 3, FREE, 0, 0, 0, 3]
    );
}

#[test]
fn test_dealloc_one() {
    let mut alloc: BoundaryTagAllocator<TagsU8> = BoundaryTagAllocator::new(vec![0u8; 8]);
    let layout = Layout::new::<u8>();
    let (block, _) = alloc.allocate(layout, AllocInit::Data(0x55)).unwrap();
    alloc.deallocate(block, layout);
    assert_eq!(alloc.backing_mem(), [5, FREE, 0x55, 1, 1, 1, 0, 5]);
}

#[test]
fn test_get_first_chunk() {
    // one free chunk of 3 content bytes between a 3 byte begin-tag and a 2 byte end-tag
    let alloc: BoundaryTagAllocator<TagsU16> = BoundaryTagAllocator::new(vec![0u8; 8]);
    let chunk = alloc.get_first_chunk();
    assert_eq!(chunk, (3, false, alloc.base_address() + 3));
}

#[test]
fn test_get_chunk_from_begin_tag() {
    let alloc: BoundaryTagAllocator<TagsU16> = BoundaryTagAllocator::new(vec![0u8; 8]);
    let begin_ptr = alloc.base_address();
    let chunk = alloc.get_chunk_from_begin(begin_ptr).unwrap();
    assert_eq!(chunk, (3, false, alloc.base_address() + 3));
    assert_eq!(alloc.get_chunk_from_begin(begin_ptr + 3), None);
}

#[test]
fn test_get_chunk_from_end_tag() {
    let alloc: BoundaryTagAllocator<TagsU16> = BoundaryTagAllocator::new(vec![0u8; 8]);
    let end_ptr = alloc.base_address() + 3 + 3;
    let chunk = alloc.get_chunk_from_end(end_ptr).unwrap();
    assert_eq!(chunk, (3, false, alloc.base_address() + 3));
    assert_eq!(alloc.get_chunk_from_end(alloc.base_address() + 7), None);
}

#[test]
fn test_get_chunk_from_content_ptr() {
    // one free chunk of 3 content bytes; its begin-tag takes two size bytes and a marker
    let alloc: BoundaryTagAllocator<TagsU16> = BoundaryTagAllocator::new(vec![0u8; 8]);
    assert_eq!(alloc.backing_mem(), [3, 0, FREE, 0, 0, 0, 3, 0]);
    let content_ptr = alloc.base_address() + 3;
    let chunk = alloc.get_chunk_from_content(content_ptr).unwrap();
    assert_eq!(chunk, (3, false, content_ptr));
    assert_eq!(alloc.get_chunk_from_content(alloc.base_address() + 8), None);
}

#[test]
fn test_with_box() {
    let mut allocator: BoundaryTagAllocator<TagsU16> = BoundaryTagAllocator::new(vec![0u8; 16]);
    let layout = Layout::new::<u8>();
    let (b, _) = allocator.allocate(layout, AllocInit::Data(0x55u8)).unwrap();
    assert_eq!(allocator.read(b), 0x55u8);
    allocator.deallocate(b, layout);
    assert_eq!(allocator.block_iter(), vec![(0, 16)]);
}

#[test]
fn test_large_padding_is_reused() {
    // the backing memory starts 16 bytes before a 128 byte boundary
    let mut alloc = BoundaryTagAllocator::<TagsU8>::new_at_address(vec![0u8; 255], 0x1070);
    let (_block1, _) = alloc.allocate(Layout::new::<u8>(), AllocInit::Data(0x11)).unwrap();

    let block2 = alloc
        .allocate(Layout::from_size_align(1, 128).unwrap(), AllocInit::Data(0x55))
        .unwrap()
        .0;

    assert_eq!(block2 % 128, 0);
    assert_eq!(alloc.read(block2), 0x55);
    let mem = alloc.backing_mem();
    assert_eq!(&mem[0..4], [1, ALLOCATED, 0x11, 1]);
    assert_eq!(&mem[4..6], [7, FREE]);
    assert_eq!(&mem[14..18], [1, ALLOCATED, 0x55, 1]);
}

#[test]
fn allocation_fails_when_no_chunk_fits() {
    let mut alloc: BoundaryTagAllocator<TagsU8> = BoundaryTagAllocator::new(vec![0u8; 8]);
    let r = alloc.allocate(Layout::from_size_align(6, 1).unwrap(), AllocInit::Zeroed);
    assert_eq!(r, Err(AllocError::InsufficientMemory));
    assert_eq!(alloc.backing_mem(), [5, FREE, 0, 0, 0, 0, 0, 5]);
}

#[test]
fn deallocation_joins_free_neighbours() {
    let mut alloc: BoundaryTagAllocator<TagsU8> = BoundaryTagAllocator::new(vec![0u8; 16]);
    let layout = Layout::new::<u8>();
    let (a, _) = alloc.allocate(layout, AllocInit::Zeroed).unwrap();
    let (b, _) = alloc.allocate(layout, AllocInit::Zeroed).unwrap();
    assert_eq!(alloc.block_iter(), vec![(0, 4), (4, 4), (8, 8)]);
    alloc.deallocate(a, layout);
    assert_eq!(alloc.block_iter(), vec![(0, 4), (4, 4), (8, 8)]);
    alloc.deallocate(b, layout);
    assert_eq!(alloc.block_iter(), vec![(0, 16)]);
}

#[test]
fn first_chunk_is_split_when_padding_is_small() {
    // content of the first chunk starts at 0x1002; padding 2 is too small for a chunk of its own
    let mut alloc: BoundaryTagAllocator<TagsU8> =
        BoundaryTagAllocator::new_at_address(vec![0u8; 32], 0x1000);
    let (block, _) = alloc.allocate(Layout::from_size_align(2, 4).unwrap(), AllocInit::Zeroed).unwrap();
    assert_eq!(block, 0x1008);
    assert_eq!(alloc.block_iter(), vec![(0, 6), (6, 5), (11, 21)]);
}

#[test]
fn neighbouring_chunks_are_found_from_each_other() {
    let mut alloc: BoundaryTagAllocator<TagsU8> = BoundaryTagAllocator::new(vec![0u8; 16]);
    let base = alloc.base_address();
    let (block, _) = alloc.allocate(Layout::new::<u8>(), AllocInit::Data(7)).unwrap();
    assert_eq!(block, base + 2);
    let first = alloc.get_first_chunk();
    assert_eq!(first, (1, true, base + 2));
    let second = alloc.get_next_chunk(first).unwrap();
    assert_eq!(second, (9, false, base + 6));
    assert_eq!(alloc.get_next_chunk(second), None);
    assert_eq!(alloc.get_prev_chunk(second), Some(first));
    assert_eq!(alloc.get_prev_chunk(first), None);
    assert_eq!(alloc.get_chunk_from_end(base + 3), Some(first));
}

#[test]
fn new_keeps_the_bytes_between_the_tags() {
    let alloc: BoundaryTagAllocator<TagsU16> = BoundaryTagAllocator::new(vec![9u8; 9]);
    assert_eq!(alloc.backing_mem(), [4, 0, FREE, 9, 9, 9, 9, 4, 0]);
}
