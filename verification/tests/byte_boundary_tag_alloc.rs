use support_crates::allocators::byte_boundary_tag_alloc::BoundaryTagAllocator;
use support_crates::allocators::{AllocError, AllocInit, Layout};

const FREE: u8 = 1;
const ALLOCATED: u8 = 2;

#[test]
fn boundary_tag_alloc_test_initial_tags() {
    let alloc = BoundaryTagAllocator::new(vec![0u8; 8]);
    assert_eq!(alloc.backing_mem(), [5, FREE, 0, 0, 0, 0, 0, 5]);
}

#[test]
fn boundary_tag_alloc_test_alloc_one_u8() {
    let mut alloc = BoundaryTagAllocator::new(vec![0u8; 8]);
    let layout = Layout::new::<u8>();
    let (block, block_len) = alloc.allocate(layout, AllocInit::Data(0x55)).unwrap();
    assert_eq!(block_len, std::mem::size_of::<u8>());
    assert_eq!(alloc.read(block), 0x55);
    assert_eq!(alloc.backing_mem(), [1, ALLOCATED, 0x55, 1, 1, FREE, 0, 1]);
}

#[test]
fn boundary_tag_alloc_test_alloc_multiple_u8() {
    let mut alloc = BoundaryTagAllocator::new(vec![0u8; 16]);
    let layout = Layout::new::<u8>();
    let (block1, block1_len) = alloc.allocate(layout, AllocInit::Data(0x11)).unwrap();
    let (block2, block2_len) = alloc.allocate(layout, AllocInit::Data(0x22)).unwrap();
    let (block3, block3_len) = alloc.allocate(layout, AllocInit::Data(0x33)).unwrap();
    assert_eq!(block1_len, std::mem::size_of::<u8>());
    assert_eq!(block2_len, std::mem::size_of::<u8>());
    assert_eq!(block3_len, std::mem::size_of::<u8>());
    assert_eq!(alloc.read(block1), 0x11);
    assert_eq!(alloc.read(block2), 0x22);
    assert_eq!(alloc.read(block3), 0x33);
    assert_eq!(
        alloc.backing_mem(),
        [1, ALLOCATED, 0x11, 1, 1, ALLOCATED, 0x22, 1, 1, ALLOCATED, 0x33, 1, 1, FREE, 0, 1]
    );
}

#[test]
fn boundary_tag_alloc_test_alloc_one_u32() {
    let mut alloc = BoundaryTagAllocator::new(vec![0u8; 16]);
    let layout = Layout::new::<u32>();
    let (block, block_len) = alloc.allocate(layout, AllocInit::Data(0x11)).unwrap();
    assert_eq!(block_len, std::mem::size_of::<u32>());
    assert_eq!(block % 4, 0);
    assert_eq!(
        alloc.backing_mem(),
        [6, ALLOCATED, 0, 0, 0x11, 0x11, 0x11, 0x11, 6, 4, FREE, 0, 0, 0, 0, 4]
    );
}

#[test]
fn boundary_tag_alloc_test_alloc_last_block() {
    let mut alloc = BoundaryTagAllocator::new(vec![0u8; 4]);
    let (_block, _) = alloc.allocate(Layout::new::<u8>(), AllocInit::Data(0x11)).unwrap();
    assert_eq!(alloc.backing_mem(), [1, ALLOCATED, 0x11, 1]);
}

#[test]
fn boundary_tag_alloc_test_alloc_one_with_alignment() {
    let mut alloc = BoundaryTagAllocator::new(vec![0u8; 16]);
    const ALIGNMENT: usize = 4;
    let layout = Layout::from_size_align(1, ALIGNMENT).unwrap();
    let (block, block_len) = alloc.allocate(layout, AllocInit::Data(0x11)).unwrap();
    assert_eq!(block % ALIGNMENT, 0);
    assert_eq!(block_len, 1);
}

#[test]
fn boundary_tag_alloc_test_not_enough_mem_for_two_allocs_but_more_than_enough_for_one() {
    let mut alloc = BoundaryTagAllocator::new(vec![0u8; 5]);
    let layout = Layout::new::<u8>();
    let (_block, block_len) = alloc.allocate(layout, AllocInit::Data(0x11)).unwrap();
    assert_eq!(block_len, 1);
    assert_eq!(alloc.backing_mem(), [2, ALLOCATED, 0x11, 0, 2]);
}

#[test]
fn byte_tags_report_insufficient_memory() {
    let mut alloc = BoundaryTagAllocator::new_at_address(vec![0u8; 8], 0x100);
    let layout = Layout::from_size_align(4, 4).unwrap();
    // the only chunk's content starts at 0x102 and would need 2 bytes of padding
    assert_eq!(alloc.allocate(layout, AllocInit::Zeroed), Err(AllocError::InsufficientMemory));
    assert_eq!(alloc.block_iter(), vec![(0, 8)]);
}

#[test]
fn byte_tags_new_keeps_the_bytes_between_the_tags() {
    let alloc = BoundaryTagAllocator::new(vec![9u8; 8]);
    assert_eq!(alloc.backing_mem(), [5, FREE, 9, 9, 9, 9, 9, 5]);
}
