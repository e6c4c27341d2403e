use support_crates::derivation_tree::cell::InlineRc;
use support_crates::derivation_tree::chain::{ChainSpace, RefChain};
use support_crates::derivation_tree::linked_list::{Link, LinkedList};
use support_crates::derivation_tree::{
    Correspondence, CursorData, CursorHandle, CursorRef, CursorRefMut, CursorSet, DerivationTree,
    OutOfCursorsError, TreeNodeData,
};

#[derive(Debug, PartialEq, Eq)]
enum Capability {
    Uninit,
    Value(usize),
}

#[test]
fn can_build_cap_tree() {
    let mut tree = DerivationTree::init_with_root_value(Capability::Value(1));
    let _cursor = tree.get_root_cursor().unwrap();
}

#[test]
fn can_create_cursor() {
    let mut tree = DerivationTree::init_with_root_value(Capability::Uninit);
    let _cursor = tree.get_root_cursor().unwrap();
}

#[test]
fn can_dup_cursor() {
    let mut tree = DerivationTree::init_with_root_value(Capability::Uninit);
    let cursor = tree.get_root_cursor().unwrap();
    let _dup = CursorHandle::duplicate(&cursor, tree.cursors_mut()).unwrap();
}

#[test]
fn can_get_mut_ref() {
    let mut tree = DerivationTree::init_with_root_value(Capability::Uninit);
    let mut cursor = tree.get_root_cursor().unwrap();
    let node = cursor.get_exclusive(tree.cursors_mut()).unwrap();
    println!("{:?}", *tree.value(node.target()));
}

#[test]
fn ref_is_equal_to_root() {
    let mut tree = DerivationTree::init_with_root_value(Capability::Value(1));
    let mut cursor = tree.get_root_cursor().unwrap();
    let node = cursor.get_exclusive(tree.cursors_mut()).unwrap();
    assert_eq!(&Capability::Value(1), tree.value(node.target()));
}

#[test]
fn can_have_to_refs() {
    let mut tree = DerivationTree::init_with_root_value(Capability::Uninit);
    let mut cursor = tree.get_root_cursor().unwrap();
    let mut dup = CursorHandle::duplicate(&cursor, tree.cursors_mut()).unwrap();
    let _ref1 = cursor.get_shared(tree.cursors_mut()).unwrap();
    let _ref2 = dup.get_shared(tree.cursors_mut()).unwrap();
}

#[test]
fn exclusive_and_shared_refs_to_one_node_are_refused() {
    let mut tree = DerivationTree::init_with_root_value(Capability::Uninit);
    let mut cursor = tree.get_root_cursor().unwrap();
    let mut dup = CursorHandle::duplicate(&cursor, tree.cursors_mut()).unwrap();
    let ref1 = cursor.get_shared(tree.cursors_mut()).unwrap();
    assert!(dup.get_exclusive(tree.cursors_mut()).is_err());
    ref1.release(tree.cursors_mut());
    let _ref2 = dup.get_exclusive(tree.cursors_mut()).unwrap();
    assert!(cursor.get_shared(tree.cursors_mut()).is_err());
}

#[test]
fn cursor_sets_run_out_and_empty_again() {
    let mut set = CursorSet::new();
    assert!(set.is_empty());
    let mut handles = Vec::new();
    for _ in 0..4 {
        handles.push(set.get_free_cursor().unwrap());
    }
    assert_eq!(set.get_free_cursor().err(), Some(OutOfCursorsError));
    assert!(!set.is_empty());
    for h in handles {
        h.release(&mut set);
    }
    assert!(set.is_empty());
}

#[test]
fn shared_refs_can_be_duplicated() {
    let mut set = CursorSet::new();
    let mut h = set.get_free_cursor().unwrap();
    h.select_node(&mut set, 7);
    assert!(set.exists_cursor_to(7));
    assert!(!set.exists_active_cursor_to(7));
    let r: CursorRef = h.get_shared(&mut set).unwrap();
    assert!(set.exists_active_cursor_to(7));
    assert!(!set.exists_exclusive_cursor_to(7));
    let d = CursorRef::duplicate(&r, &mut set).unwrap();
    assert_eq!(d.cursor_index(), 1);
    let _ = CursorData::Free;
}

#[test]
fn copies_and_derivations_are_ordered() {
    let mut tree = DerivationTree::init_with_root_value(Capability::Value(0));
    let copy = tree.insert_copy(0, Capability::Value(0));
    assert_eq!(copy, 1);
    let d = tree.get_tree_data(copy);
    assert_eq!(d.depth, 1);
    assert_eq!(d.prev, Some(0));
    let mut it = tree.iter();
    assert_eq!(it.next(&tree), Some(0));
    assert_eq!(it.next(&tree), Some(1));
    assert_eq!(it.next(&tree), None);
}

#[test]
fn can_create_list() {
    let _list: LinkedList<()> = LinkedList::new();
}

#[test]
fn linked_list_v1_can_create_link() {
    let _link = Link::new(1);
}

#[test]
fn list_cursors_insert_next_to_them() {
    let mut list = LinkedList::new();
    list.insert_back(Link::new(2));
    list.insert_front(Link::new(1));
    list.insert_back(Link::new(4));
    let mut c = list.front_mut();
    c.move_next(&list);
    c.insert_after(&mut list, Link::new(3));
    assert_eq!(list.len(), 4);
    let values: Vec<i32> = list.iter().into_iter().copied().collect();
    assert_eq!(values, vec![1, 2, 3, 4]);
    let mut r = list.front();
    assert_eq!(r.get(&list), Some(&1));
    r.move_prev(&list);
    assert_eq!(r.get(&list), None);
}

#[test]
fn should_be_able_to_construct_inline_rc() {
    let _cell = InlineRc::new(0);
}

#[test]
fn inline_rc_counts_refs() {
    let mut cell = InlineRc::new(5);
    let r = cell.get_ref();
    assert!(!cell.can_drop());
    assert_eq!(*cell.get(&r), 5);
    cell.drop_ref(r);
    assert!(cell.can_drop());
}

#[test]
fn can_new() {
    let _chain = RefChain::new(1);
}

#[test]
fn can_read() {
    let mut space = ChainSpace::new();
    let chain = space.place(RefChain::new(2));
    assert_eq!(2, space.with_val(chain, |v| *v));
}

#[test]
fn ref_chain_handles_hold_their_values() {
    let mut space = ChainSpace::new();
    let owner = space.place(RefChain::new(2));
    let empty = space.place(RefChain::uninit());
    assert_eq!(space.try_get_val(owner), Some(&2));
    assert!(!space.is_uninit(owner));
    assert!(space.is_uninit(empty));
    assert_eq!(space.try_get_val(empty), None);
    space.drop_handle(owner);
    assert!(space.is_uninit(owner));
    assert_eq!(space.try_get_val(owner), None);
}

struct TestNode {
    value: usize,
}

impl TestNode {
    fn new(value: usize) -> Self {
        Self { value }
    }
}

impl Correspondence for TestNode {
    fn corresponds(&self, _other: &Self) -> bool {
        false
    }

    fn corresponds_to(&self, _other: &Self) -> bool {
        false
    }
}

#[test]
fn test_derivation_tree_creation() {
    let tree = DerivationTree::init_with_root_value(TestNode::new(42));
    let root = tree.get_tree_data(0);
    assert!(!root.is_unlinked(), "root is not linked into the tree");
    assert_eq!(root.depth, 1);
}

#[test]
fn test_get_root_node_cursor() {
    let mut tree = DerivationTree::init_with_root_value(TestNode::new(42));
    let cursor = tree.get_root_cursor();
    assert!(cursor.is_ok())
}

#[test]
fn test_get_overlapping_cursors() {
    let mut tree = DerivationTree::init_with_root_value(TestNode::new(42));
    let cursor1 = tree.get_root_cursor();
    let cursor2 = tree.get_root_cursor();
    assert!(cursor1.is_ok());
    assert!(cursor2.is_ok());
}

#[test]
fn test_get_one_exclusive_ref() {
    let mut tree = DerivationTree::init_with_root_value(TestNode::new(42));
    let mut cursor = tree.get_root_cursor().unwrap();
    let node = cursor.get_exclusive(tree.cursors_mut());
    assert!(node.is_ok());
    assert_eq!(tree.value(node.unwrap().target()).value, 42);
}

#[test]
fn test_get_two_exclusive_refs_fails() {
    let mut tree = DerivationTree::init_with_root_value(TestNode::new(42));
    let mut cursor1 = tree.get_root_cursor().unwrap();
    let mut cursor2 = tree.get_root_cursor().unwrap();
    let node1 = cursor1.get_exclusive(tree.cursors_mut());
    let node2 = cursor2.get_exclusive(tree.cursors_mut());
    assert!(node1.is_ok());
    assert!(node2.is_err());
}

#[test]
fn test_get_two_shared_refs() {
    let mut tree = DerivationTree::init_with_root_value(TestNode::new(42));
    let mut cursor1 = tree.get_root_cursor().unwrap();
    let mut cursor2 = tree.get_root_cursor().unwrap();
    let node1 = cursor1.get_shared(tree.cursors_mut());
    let node2 = cursor2.get_shared(tree.cursors_mut());
    assert!(node1.is_ok());
    assert!(node2.is_ok());
    assert_eq!(tree.value(node1.unwrap().target()).value, 42);
    assert_eq!(tree.value(node2.unwrap().target()).value, 42);
}

#[test]
fn test_get_shared_then_exclusive_ref_fails() {
    let mut tree = DerivationTree::init_with_root_value(TestNode::new(42));
    let mut cursor1 = tree.get_root_cursor().unwrap();
    let mut cursor2 = tree.get_root_cursor().unwrap();
    let node1 = cursor1.get_shared(tree.cursors_mut());
    let node2 = cursor2.get_exclusive(tree.cursors_mut());
    assert!(node1.is_ok());
    assert!(node2.is_err());
}

#[test]
fn test_get_exclusive_then_shared_ref_fails() {
    let mut tree = DerivationTree::init_with_root_value(TestNode::new(42));
    let mut cursor1 = tree.get_root_cursor().unwrap();
    let mut cursor2 = tree.get_root_cursor().unwrap();
    let node1 = cursor1.get_exclusive(tree.cursors_mut());
    let node2 = cursor2.get_shared(tree.cursors_mut());
    assert!(node1.is_ok());
    assert!(node2.is_err());
}

#[test]
fn test_cursor_duplication() {
    let mut tree = DerivationTree::init_with_root_value(TestNode::new(42));
    let mut cursor1 = tree.get_root_cursor().unwrap();
    let node1 = cursor1.get_exclusive(tree.cursors_mut()).unwrap();
    let mut cursor2 = CursorRefMut::duplicate(&node1, tree.cursors_mut()).unwrap();
    // only an error because the second cursor refers to the same, exclusively held node
    assert!(cursor2.get_exclusive(tree.cursors_mut()).is_err());
}

#[test]
fn test_insert_1_copy() {
    let mut tree = DerivationTree::init_with_root_value(TestNode::new(42));
    let new_node = tree.insert_copy(0, TestNode::new(42));
    let data = tree.get_tree_data(new_node);
    assert!(!data.is_unlinked());
    assert_eq!(data.depth, 1);
    assert!(data.prev.is_some());
    assert!(data.next.is_none());
    assert!(tree.is_last_copy(new_node));
    assert!(!tree.has_derivations(0));
}

#[test]
fn test_insert_1_derivation() {
    let mut tree = DerivationTree::init_with_root_value(TestNode::new(42));
    let new_node = tree.insert_derivation(0, TestNode::new(42));
    let data = tree.get_tree_data(new_node);
    assert!(!data.is_unlinked());
    assert_eq!(data.depth, 2);
    assert!(data.prev.is_some());
    assert!(data.next.is_none());
    assert!(tree.has_derivations(0));
}

#[test]
fn test_allocate_two_cursors() {
    let mut set = CursorSet::new();
    let cursor1 = set.get_free_cursor();
    let cursor2 = set.get_free_cursor();
    assert!(cursor1.is_ok());
    assert!(cursor2.is_ok());
    assert_eq!(
        std::mem::discriminant(&cursor1.unwrap().get(&set)),
        std::mem::discriminant(&CursorData::Allocated)
    );
    assert_eq!(
        std::mem::discriminant(&cursor2.unwrap().get(&set)),
        std::mem::discriminant(&CursorData::Allocated)
    );
}

#[test]
fn test_cursor_dropping() {
    let mut set = CursorSet::new();
    assert!(set.is_empty());
    let cursor1 = set.get_free_cursor();
    assert!(!set.is_empty());
    cursor1.unwrap().release(&mut set);
    assert!(set.is_empty());
}

#[test]
fn should_be_able_to_get_ref() {
    let mut cell = InlineRc::new(0);
    let reference = cell.get_ref();
    cell.drop_ref(reference);
    assert!(cell.can_drop());
    drop(cell);
    let _ = Box::new(0);
}

#[test]
fn can_mutate_through_ref() {
    let mut cell = InlineRc::new(std::cell::Cell::new(0));
    let reference = cell.get_ref();
    let r: &std::cell::Cell<i32> = cell.get(&reference);
    r.set(1);
    cell.drop_ref(reference);
    let check = cell.get_ref();
    assert_eq!(cell.get(&check).get(), 1);
    cell.drop_ref(check);
    assert!(cell.can_drop());
    drop(cell);
    let _ = Box::new(0);
}

#[test]
fn test_drop_node_after_insert_derivation() {
    let mut tree = DerivationTree::init_with_root_value(TestNode::new(42));
    let new_node = tree.insert_derivation(0, TestNode::new(42));
    tree.drop_node(new_node);
    assert!(tree.get_tree_data(0).next.is_none());
    assert!(!tree.has_derivations(0));
}

#[test]
fn test_drop_node_after_insert_copy() {
    let mut tree = DerivationTree::init_with_root_value(TestNode::new(42));
    let new_node = tree.insert_copy(0, TestNode::new(42));
    tree.drop_node(new_node);
    assert!(tree.get_tree_data(0).next.is_none());
    assert!(tree.is_last_copy(0));
}

#[test]
fn dropping_a_node_joins_its_neighbours() {
    let mut tree = DerivationTree::init_with_root_value(TestNode::new(1));
    let a = tree.insert_derivation(0, TestNode::new(2));
    let b = tree.insert_copy(a, TestNode::new(3));
    let c = tree.insert_copy(b, TestNode::new(4));
    tree.drop_node(b);
    assert_eq!(tree.get_tree_data(a).next, Some(c));
    assert_eq!(tree.get_tree_data(c).prev, Some(a));
    let mut it = tree.iter();
    assert_eq!(it.next(&tree), Some(0));
    assert_eq!(it.next(&tree), Some(a));
    assert_eq!(it.next(&tree), Some(c));
    assert_eq!(it.next(&tree), None);
    // numbers of dropped nodes are not given out again
    assert_eq!(tree.insert_copy(c, TestNode::new(5)), 4);
}

#[test]
fn cursor_data_names_the_selected_node() {
    assert_eq!(CursorData::Inactive(3).get_ptr(), 3);
    assert_eq!(CursorData::SharedRef(4).get_ptr(), 4);
    assert_eq!(CursorData::ExclusiveRef(5).get_ptr(), 5);
}

#[test]
fn tree_node_data_is_unlinked_until_a_cursor_set_is_assigned() {
    let mut d = TreeNodeData::new();
    assert!(d.is_unlinked());
    d.assign_cursor_set(3);
    assert_eq!(d.cursors, Some(3));
    assert!(!d.is_unlinked());
}
