use support_crates::ctors::Ctor;
use support_crates::derivation_tree::tree_node::{NodeSpace, TreeLinks, TreeNode};

#[test]
fn test_linking_two_nodes() {
    let mut space = NodeSpace::new();
    let node1 = space.place(TreeNode::new(1).construct());
    let node2 = space.place(TreeNode::new(2).construct());

    space.append_after(node1, node2);

    assert_eq!(space.get_links(node1).prev, None);
    assert_ne!(space.get_links(node1).next, None);
    assert_eq!(space.get_links(node2).next, None);
    assert_ne!(space.get_links(node2).prev, None);
}

#[test]
fn test_dropping_node_after_link() {
    let mut space = NodeSpace::new();
    let node1 = space.place(TreeNode::new(1).construct());
    {
        let node2 = space.place(TreeNode::new(2).construct());
        space.drop_node(node2);
    }
    assert_eq!(space.get_links(node1).next, None);
    assert_eq!(space.get_links(node1).prev, None);
}

#[test]
fn appending_and_dropping_a_node_restores_its_neighbours() {
    let mut space = NodeSpace::new();
    let a = space.place(TreeNode::new2(10));
    let c = space.place(TreeNode::new2(30));
    let b = space.place(TreeNode::new2(20));
    space.append_after(a, c);
    assert_eq!(space.get_links(a).next, Some(c));
    assert_eq!(space.get_links(c).prev, Some(a));
    space.append_below(a, b);
    assert_eq!(space.get_links(a).next, Some(b));
    assert_eq!(space.get_links(b), TreeLinks { prev: Some(a), next: Some(c), depth: 1 });
    assert_eq!(space.get_links(c).prev, Some(b));
    assert_eq!(*space.value(b), 20);
    space.drop_node(b);
    assert_eq!(space.get_links(a).next, Some(c));
    assert_eq!(space.get_links(c).prev, Some(a));
    assert_eq!(space.get_links(b), TreeLinks::new_unlinked());
}
