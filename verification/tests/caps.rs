use support_crates::allocators::bump_allocator::ForwardBumpingAllocator;
use support_crates::allocators::{Allocator, Box, Layout};
use support_crates::derivation_tree::cap_counted::CapCounted;
use support_crates::derivation_tree::caps::{CSpace, CapabilityIface, GetCapIface, Uninit};
use support_crates::derivation_tree::Correspondence;

#[test]
fn cspaces_hold_default_slots_and_are_given_back() {
    let mut alloc = ForwardBumpingAllocator::new_at_address(vec![0u8; 4096], 0x1000);
    let cspace: CSpace<usize> = CSpace::alloc_new(&mut alloc, 4).unwrap();
    assert_eq!(cspace.lookup_raw(0), Some(&0));
    assert_eq!(cspace.lookup_raw(3), Some(&0));
    assert_eq!(cspace.lookup_raw(4), None);
    let other: CSpace<usize> = CSpace::alloc_new(&mut alloc, 4).unwrap();
    assert!(cspace.corresponds_to(&cspace));
    assert!(!cspace.corresponds_to(&other));
    assert_eq!(other.deallocate(&mut alloc), vec![0, 0, 0, 0]);
    assert_eq!(cspace.deallocate(&mut alloc), vec![0, 0, 0, 0]);
    // with both blocks given back the whole memory is free again
    assert!(alloc.allocate(Layout::from_size_align(4096, 1).unwrap(), support_crates::allocators::AllocInit::Zeroed).is_ok());
}

#[test]
fn uninit_capabilities_never_correspond() {
    assert!(!Uninit.corresponds_to(&Uninit));
}

#[test]
fn cap_counted_boxes_compare_by_block() {
    let mut alloc = ForwardBumpingAllocator::new_at_address(vec![0u8; 64], 0x2000);
    let a = CapCounted::from_box(Box::new(7u32, &mut alloc).unwrap());
    let b = CapCounted::from_box(Box::new(7u32, &mut alloc).unwrap());
    assert!(a.is_same_pointer_as(&a));
    assert!(!a.is_same_pointer_as(&b));
    let copy = a.clone();
    assert!(copy.is_same_pointer_as(&a));
    assert_eq!(*copy.get(), 7);
    assert_eq!(*a.get(), 7);
    assert_eq!(b.destroy(&mut alloc), 7);
    assert_eq!(a.destroy(&mut alloc), 7);
}

#[derive(Clone, Copy, Debug, PartialEq, Eq)]
enum TestCapTag {
    Uninit,
    UsizeValue,
}

#[derive(Debug, PartialEq, Eq)]
struct TestCap {
    tag: TestCapTag,
    value: usize,
}

impl CapabilityIface<TestCap> for TestCapTag {
    type InitArgs = usize;

    fn init(&self, target: &mut TestCap, args: usize) {
        *target = TestCap { tag: *self, value: args };
    }

    fn copy(&self, src: &TestCap, dst: &mut TestCap) {
        *dst = TestCap { tag: src.tag, value: src.value };
    }

    fn destroy(&self, target: &mut TestCap) {
        *target = TestCap { tag: TestCapTag::Uninit, value: 0 };
    }
}

impl GetCapIface for TestCap {
    type IfaceImpl = TestCapTag;

    fn get_capability_iface(&self) -> TestCapTag {
        self.tag
    }
}

#[test]
fn capabilities_are_handled_through_their_interface() {
    let mut cap = TestCap { tag: TestCapTag::Uninit, value: 0 };
    TestCapTag::UsizeValue.init(&mut cap, 42);
    assert_eq!(cap, TestCap { tag: TestCapTag::UsizeValue, value: 42 });
    let mut copy = TestCap { tag: TestCapTag::Uninit, value: 0 };
    cap.get_capability_iface().copy(&cap, &mut copy);
    assert_eq!(copy, cap);
    copy.get_capability_iface().destroy(&mut copy);
    assert_eq!(copy.tag, TestCapTag::Uninit);
}

#[test]
fn boxes_fail_only_when_the_allocator_has_no_room() {
    let mut alloc = ForwardBumpingAllocator::new_at_address(vec![0u8; 4], 0x3000);
    let a = Box::new(1u16, &mut alloc);
    assert!(a.is_ok());
    let b = Box::new(2u16, &mut alloc);
    assert!(b.is_ok());
    let c = Box::new(3u16, &mut alloc);
    assert_eq!(c.err(), Some(support_crates::allocators::AllocError::InsufficientMemory));
}
