use support_crates::allocators::bump_allocator::{BumpAllocator, BumpBox, ForwardBumpingAllocator};
use support_crates::allocators::sized_bump;
use support_crates::allocators::{AllocError, AllocInit, Allocator, Layout};

#[test]
fn test_stack_alloc_creation() {
    let _allocator = <ForwardBumpingAllocator as BumpAllocator>::new(vec![0u8; 2048]);
}

#[test]
fn forward_bumping_allocations_follow_each_other() {
    let mut a = ForwardBumpingAllocator::new_at_address(vec![0u8; 16], 0x1000);
    let (p1, p1_len) = a.allocate(Layout::from_size_align(3, 1).unwrap(), AllocInit::Data(7)).unwrap();
    let (p2, p2_len) = a.allocate(Layout::from_size_align(4, 4).unwrap(), AllocInit::Zeroed).unwrap();
    assert_eq!(p1, 0x1000);
    assert_eq!(p2, 0x1004);
    assert_eq!((p1_len, p2_len), (3, 4));
    assert_eq!(a.get_free_bytes(), 8);
    assert_eq!(&a.backing_mem()[0..3], [7, 7, 7]);
    let r = a.allocate(Layout::from_size_align(9, 1).unwrap(), AllocInit::Zeroed);
    assert_eq!(r, Err(AllocError::InsufficientMemory));
}

#[test]
fn forward_bumping_resets_when_everything_is_returned() {
    let mut a = ForwardBumpingAllocator::new_at_address(vec![0u8; 16], 0x1000);
    let layout = Layout::from_size_align(8, 1).unwrap();
    let (p1, p1_len) = a.allocate(layout, AllocInit::Zeroed).unwrap();
    let (p2, p2_len) = a.allocate(layout, AllocInit::Zeroed).unwrap();
    assert_eq!((p1_len, p2_len), (8, 8));
    assert_eq!(a.get_free_bytes(), 0);
    a.deallocate(p1, layout);
    assert_eq!(a.get_free_bytes(), 0);
    a.deallocate(p2, layout);
    assert_eq!(a.get_free_bytes(), 16);
}

#[test]
fn stealing_takes_the_free_rest() {
    let mut a = ForwardBumpingAllocator::new_at_address(vec![1, 2, 3, 4, 5], 0x1000);
    let (_, len) = a.allocate(Layout::from_size_align(2, 1).unwrap(), AllocInit::Uninitialized).unwrap();
    assert_eq!(len, 2);
    let (addr, stolen) = a.steal_remaining_mem();
    assert_eq!(addr, 0x1002);
    assert_eq!(stolen, vec![3, 4, 5]);
    assert_eq!(a.get_free_bytes(), 0);
}

#[test]
fn sized_bump_allocator_pads_for_alignment() {
    let mut a = sized_bump::BumpAllocator::new_at_address(vec![0u8; 32], 0x1001);
    assert_eq!(a.capacity(), 32);
    let p = a.allocate(4, 8, AllocInit::Data(9)).unwrap();
    assert_eq!(p, 0x1008);
    assert_eq!(a.capacity(), 32 - 7 - 4);
    a.deallocate(p);
    assert_eq!(a.capacity(), 32);
    let (addr, stolen) = a.steal_remaining_mem();
    assert_eq!(addr, 0x1001);
    assert_eq!(stolen.len(), 32);
}

#[test]
fn bump_box_reserves_aligned_blocks() {
    let mut a = sized_bump::BumpAllocator::new_at_address(vec![0u8; 64], 0x1001);
    let b = BumpBox::new(5u32, &mut a).unwrap();
    assert_eq!(*b.get(), 5);
    assert_eq!(b.into_raw() % 4, 0);
    let s = BumpBox::<Vec<Option<u16>>>::new_uninit_slice(3, &mut a).unwrap();
    assert_eq!(s.get().len(), 3);
    assert_eq!(a.capacity(), 64 - 3 - 4 - 6);
}
