use support_crates::derivation_tree::intrusive::{CursorSet, Link, LinkSpace};

#[test]
fn can_create_set() {
    let set: CursorSet<usize> = CursorSet::empty();
    assert!(set.can_drop());
}

#[test]
fn linked_list_can_create_link() {
    let mut space = LinkSpace::new();
    let link = space.place_link(Link::new(1));
    space.unlink(link);
}

#[test]
fn can_create_links() {
    let mut space = LinkSpace::new();
    let linkb = space.place_link(Link::new(1));
    let linka = space.place_link(Link::new(2));
    space.link_after(linka, linkb);
    space.unlink(linka);
    assert!(space.prev(linkb).is_none());
    assert!(space.next(linkb).is_none());
    space.unlink(linkb);
}

#[test]
fn link_after_points_both_neighbours_at_the_new_link() {
    let mut space = LinkSpace::new();
    let a = space.place_link(Link::new(10));
    let c = space.place_link(Link::new(30));
    let b = space.place_link(Link::new(20));
    space.link_after(a, c);
    space.link_after(a, b);
    assert_eq!(space.next(a), Some(b));
    assert_eq!(space.prev(c), Some(b));
    // the inserted link's own neighbours are left as they were
    assert_eq!(space.prev(b), None);
    assert_eq!(space.next(b), None);
    assert_eq!(*space.elem(b), 20);
}

#[test]
fn link_before_points_both_neighbours_at_the_new_link() {
    let mut space = LinkSpace::new();
    let a = space.place_link(Link::new(10));
    let c = space.place_link(Link::new(30));
    let b = space.place_link(Link::new(20));
    space.link_before(c, a);
    space.link_before(c, b);
    assert_eq!(space.prev(c), Some(b));
    assert_eq!(space.next(a), Some(b));
    assert_eq!(space.prev(b), None);
    assert_eq!(space.next(b), None);
}

#[test]
fn links_belong_to_no_collection_and_have_no_cursor_at_them() {
    let mut space = LinkSpace::new();
    let set = space.place_set(CursorSet::empty());
    let a = space.place_link(Link::new(1));
    let b = space.place_link(Link::new(2));
    space.link_after(a, b);
    assert_eq!(space.collection(a), None);
    assert_eq!(space.collection(b), None);
    assert!(!space.invalidate(set, a));
}

#[test]
fn unlink_joins_the_neighbours() {
    let mut space = LinkSpace::new();
    let a = space.place_link(Link::new(1));
    let b = space.place_link(Link::new(2));
    let c = space.place_link(Link::new(3));
    space.link_after(a, b);
    space.link_before(b, a);
    space.link_after(b, c);
    space.link_before(c, b);
    assert_eq!(space.next(a), Some(b));
    assert_eq!(space.prev(b), Some(a));
    assert_eq!(space.next(b), Some(c));
    assert_eq!(space.prev(c), Some(b));
    space.unlink(b);
    assert_eq!(space.next(a), Some(c));
    assert_eq!(space.prev(c), Some(a));
    assert_eq!(space.prev(b), None);
    assert_eq!(space.next(b), None);
}
