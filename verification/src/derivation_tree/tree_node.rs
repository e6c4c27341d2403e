//! A node that holds a value together with its links into a tree.

use vstd::prelude::*;
use crate::ctors::Ctor;

verus! {

/// The links of a node to the nodes before and after it, and its 1-based depth; a depth of 0
/// means the node is in no collection.
#[derive(Clone, Copy, Debug, PartialEq, Eq, Structural)]
pub struct TreeLinks {
    /// The node before this one.
    pub prev: Option<usize>,
    /// The node after this one.
    pub next: Option<usize>,
    /// The depth of the node.
    pub depth: usize,
}

impl TreeLinks {
    /// Links of a node that is in no collection.
    pub fn new_unlinked() -> (r: Self)
        ensures
            r.prev is None && r.next is None && r.depth == 0,
    {
        TreeLinks { prev: None, next: None, depth: 0 }
    }

    /// Whether the node is a member of a collection.
    pub fn is_in_collection(&self) -> (r: bool)
        ensures
            r == (self.depth != 0),
    {
        self.depth != 0
    }
}

/// Operations that every node of a tree supports.
pub trait TreeNodeOps {
    /// The links describing the node's place in the tree.
    fn get_links(&self) -> &TreeLinks;
}

/// A node that holds an owned value.
pub struct TreeNode<T> {
    value: T,
    links: TreeLinks,
}

/// A constructor that builds a node holding a given value.
pub struct TreeNodeCtor<T> {
    value: T,
}

impl<T> Ctor<TreeNode<T>> for TreeNodeCtor<T> {
    closed spec fn can_construct(&self) -> bool {
        true
    }

    closed spec fn constructs(&self, node: TreeNode<T>) -> bool {
        node.value() == self.value && node.links().depth == 0 && node.links().prev is None
            && node.links().next is None
    }

    fn construct(self) -> (r: TreeNode<T>) {
        TreeNode::new2(self.value)
    }
}

impl<T> TreeNode<T> {
    /// The value held.
    pub closed spec fn value(&self) -> T {
        self.value
    }

    /// The node's links.
    pub closed spec fn links(&self) -> TreeLinks {
        self.links
    }

    /// A constructor for an unlinked node holding `value`.
    pub fn new(value: T) -> (r: TreeNodeCtor<T>)
        ensures
            r.can_construct(),
            forall|n: TreeNode<T>| #[trigger] r.constructs(n) <==> (n.value() == value && n.links()
                == TreeLinks { prev: None, next: None, depth: 0 }),
    {
        TreeNodeCtor { value }
    }

    /// An unlinked node holding `value`.
    pub fn new2(value: T) -> (r: Self)
        ensures
            r.value() == value,
            r.links() == (TreeLinks { prev: None, next: None, depth: 0 }),
    {
        TreeNode { value, links: TreeLinks::new_unlinked() }
    }

    /// The value held.
    pub fn get(&self) -> (r: &T)
        ensures
            *r == self.value(),
    {
        &self.value
    }

    /// Replace the value held.
    pub fn set(&mut self, value: T)
        ensures
            final(self).value() == value,
            final(self).links() == old(self).links(),
    {
        self.value = value;
    }
}

impl<T> TreeNodeOps for TreeNode<T> {
    fn get_links(&self) -> (r: &TreeLinks)
        ensures
            *r == self.links(),
    {
        &self.links
    }
}

/// A node linked in after `this` takes `this`'s successor and depth; its links are otherwise
/// as they were.
pub open spec fn links_with_next(l: TreeLinks, next: Option<usize>) -> TreeLinks {
    TreeLinks { prev: l.prev, next, depth: l.depth }
}

/// `l` with another predecessor.
pub open spec fn links_with_prev(l: TreeLinks, prev: Option<usize>) -> TreeLinks {
    TreeLinks { prev, next: l.next, depth: l.depth }
}

/// `l` at another depth.
pub open spec fn links_with_depth(l: TreeLinks, depth: usize) -> TreeLinks {
    TreeLinks { prev: l.prev, next: l.next, depth }
}

/// The links of the nodes after `other` was put behind `this`, in the order the links are
/// written: the old successor of `this` takes `other` as predecessor, `other` takes that
/// successor, `this` takes `other` as successor, `other` takes `this` as predecessor and the
/// depth of `this`.
pub open spec fn appended_after(ls: Seq<TreeLinks>, this: int, other: int) -> Seq<TreeLinks> {
    let next = ls[this].next;
    let s1 = match next {
        Some(n) => ls.update(n as int, links_with_prev(ls[n as int], Some(other as usize))),
        None => ls,
    };
    let s2 = s1.update(other, links_with_next(s1[other], next));
    let s3 = s2.update(this, links_with_next(s2[this], Some(other as usize)));
    let s4 = s3.update(other, links_with_prev(s3[other], Some(this as usize)));
    s4.update(other, links_with_depth(s4[other], s4[this].depth))
}

/// The links of the nodes after `other` was put below `this`: behind it, one level deeper.
pub open spec fn appended_below(ls: Seq<TreeLinks>, this: int, other: int) -> Seq<TreeLinks> {
    let s = appended_after(ls, this, other);
    s.update(other, links_with_depth(s[other], (s[other].depth + 1) as usize))
}

/// The links of the nodes after node `this` was dropped: its own links are reset, then its old
/// predecessor takes its old successor and the other way round.
pub open spec fn node_dropped(ls: Seq<TreeLinks>, this: int) -> Seq<TreeLinks> {
    let prev = ls[this].prev;
    let next = ls[this].next;
    let s1 = ls.update(this, TreeLinks { prev: None, next: None, depth: 0 });
    let s2 = match prev {
        Some(p) => s1.update(p as int, links_with_next(s1[p as int], next)),
        None => s1,
    };
    match next {
        Some(n) => s2.update(n as int, links_with_prev(s2[n as int], prev)),
        None => s2,
    }
}

/// The successor of node `i`, if any, is another node that has `i` as predecessor.
pub open spec fn next_consistent(ls: Seq<TreeLinks>, i: int) -> bool {
    match ls[i].next {
        Some(j) => j != i && j < ls.len() && ls[j as int].prev == Some(i as usize),
        None => true,
    }
}

/// The predecessor of node `i`, if any, is another node that has `i` as successor.
pub open spec fn prev_consistent(ls: Seq<TreeLinks>, i: int) -> bool {
    match ls[i].prev {
        Some(j) => j != i && j < ls.len() && ls[j as int].next == Some(i as usize),
        None => true,
    }
}

/// The links form doubly linked chains: a node's successor has it as predecessor and the other
/// way round, and no node follows itself.
pub open spec fn doubly_linked(ls: Seq<TreeLinks>) -> bool {
    &&& ls.len() <= usize::MAX
    &&& forall|i: int| 0 <= i < ls.len() ==> #[trigger] next_consistent(ls, i)
    &&& forall|i: int| 0 <= i < ls.len() ==> #[trigger] prev_consistent(ls, i)
}

/// Putting an unlinked node behind another one and dropping it again leaves every link as it
/// was.
pub proof fn lemma_append_then_drop_restores(ls: Seq<TreeLinks>, this: usize, other: usize)
    requires
        doubly_linked(ls),
        this < ls.len(),
        other < ls.len(),
        this != other,
        ls[other as int] == (TreeLinks { prev: None, next: None, depth: 0 }),
    ensures
        node_dropped(appended_after(ls, this as int, other as int), other as int) == ls,
{
    let t = this as int;
    let o = other as int;
    let a = appended_after(ls, t, o);
    let d = node_dropped(a, o);
    let next = ls[t].next;
    assert(next_consistent(ls, t));
    assert(prev_consistent(ls, o));
    if let Some(n) = next {
        assert(ls[n as int].prev == Some(this));
        assert(n != other);
        assert(n != this);
    }
    assert(a[o] == (TreeLinks { prev: Some(this), next, depth: ls[t].depth }));
    assert(a[t] == links_with_next(ls[t], Some(other)));
    assert forall|i: int| 0 <= i < ls.len() implies d[i] == ls[i] by {
        if let Some(n) = next {
            if i == n as int {
                assert(a[i] == links_with_prev(ls[i], Some(other)));
            } else if i != t && i != o {
                assert(a[i] == ls[i]);
            }
        } else if i != t && i != o {
            assert(a[i] == ls[i]);
        }
    }
    assert(d =~= ls);
}

/// Putting an unlinked node behind another one keeps the links doubly linked.
pub proof fn lemma_append_keeps_doubly_linked(ls: Seq<TreeLinks>, this: usize, other: usize)
    requires
        doubly_linked(ls),
        this < ls.len(),
        other < ls.len(),
        this != other,
        ls[other as int].prev is None,
        ls[other as int].next is None,
    ensures
        doubly_linked(appended_after(ls, this as int, other as int)),
{
    let t = this as int;
    let o = other as int;
    let a = appended_after(ls, t, o);
    let next = ls[t].next;
    assert(next_consistent(ls, t));
    assert(prev_consistent(ls, t));
    if let Some(n) = next {
        assert(ls[n as int].prev == Some(this));
        assert(n != other);
    }
    assert(a[o] == (TreeLinks { prev: Some(this), next, depth: ls[t].depth }));
    assert(a[t] == links_with_next(ls[t], Some(other)));
    if let Some(n) = next {
        assert(a[n as int] == links_with_prev(ls[n as int], Some(other)));
    }
    assert forall|i: int| 0 <= i < a.len() implies #[trigger] next_consistent(a, i) by {
        assert(next_consistent(ls, i));
        if i != t && i != o {
            if let Some(j) = ls[i].next {
                assert(prev_consistent(ls, j as int));
                assert(j != other) by {
                    if j == other {
                        assert(ls[o].prev == Some(i as usize));
                    }
                }
                if next == Some(j) {
                    assert(ls[j as int].prev == Some(this));
                }
            }
        }
    }
    assert forall|i: int| 0 <= i < a.len() implies #[trigger] prev_consistent(a, i) by {
        assert(prev_consistent(ls, i));
        if i != o && next != Some(i as usize) {
            if let Some(j) = ls[i].prev {
                assert(next_consistent(ls, j as int));
                assert(j != other) by {
                    if j == other {
                        assert(ls[o].next == Some(i as usize));
                    }
                }
                if j == this {
                    assert(next == Some(i as usize));
                }
            }
        }
    }
}

/// Dropping a node out of doubly linked links, where it does not sit between two links to the
/// same node, keeps them doubly linked.
pub proof fn lemma_drop_keeps_doubly_linked(ls: Seq<TreeLinks>, this: usize)
    requires
        doubly_linked(ls),
        this < ls.len(),
        ls[this as int].prev is Some && ls[this as int].next is Some ==> ls[this as int].prev
            != ls[this as int].next,
    ensures
        doubly_linked(node_dropped(ls, this as int)),
{
    let t = this as int;
    let d = node_dropped(ls, t);
    let prev = ls[t].prev;
    let next = ls[t].next;
    assert(next_consistent(ls, t));
    assert(prev_consistent(ls, t));
    assert forall|i: int| 0 <= i < d.len() implies #[trigger] next_consistent(d, i) by {
        assert(next_consistent(ls, i));
        if i != t {
            if let Some(j) = ls[i].next {
                assert(prev_consistent(ls, j as int));
            }
            if prev == Some(i as usize) {
                if let Some(n) = next {
                    assert(next_consistent(ls, n as int));
                    assert(prev_consistent(ls, n as int));
                }
            }
        }
    }
    assert forall|i: int| 0 <= i < d.len() implies #[trigger] prev_consistent(d, i) by {
        assert(prev_consistent(ls, i));
        if i != t {
            if let Some(j) = ls[i].prev {
                assert(next_consistent(ls, j as int));
            }
            if next == Some(i as usize) {
                if let Some(p) = prev {
                    assert(next_consistent(ls, p as int));
                    assert(prev_consistent(ls, p as int));
                }
            }
        }
    }
}

/// A place where nodes live; a node refers to another by its slot.
pub struct NodeSpace<T> {
    nodes: Vec<TreeNode<T>>,
}

impl<T> NodeSpace<T> {
    /// The links of the nodes, by slot.
    pub closed spec fn links(&self) -> Seq<TreeLinks> {
        self.nodes@.map_values(|n: TreeNode<T>| n.links())
    }

    /// The values of the nodes, by slot.
    pub closed spec fn values(&self) -> Seq<T> {
        self.nodes@.map_values(|n: TreeNode<T>| n.value())
    }

    /// Every link names a node that is placed here.
    pub open spec fn wf(&self) -> bool {
        forall|i: int| #![trigger self.links()[i]] 0 <= i < self.links().len() ==> {
            &&& (self.links()[i].prev matches Some(p) ==> p < self.links().len())
            &&& (self.links()[i].next matches Some(n) ==> n < self.links().len())
        }
    }

    /// The links and values are read from the placed nodes.
    proof fn lemma_view(&self)
        ensures
            self.links().len() == self.nodes@.len(),
            self.values().len() == self.nodes@.len(),
            forall|i: int| #![trigger self.nodes@[i]] 0 <= i < self.nodes@.len() ==> self.links()[i]
                == self.nodes@[i].links && self.values()[i] == self.nodes@[i].value,
    {
    }

    /// An empty space.
    pub fn new() -> (r: Self)
        ensures
            r.wf(),
            r.links() == Seq::<TreeLinks>::empty(),
            r.values() == Seq::<T>::empty(),
    {
        let r = NodeSpace { nodes: Vec::new() };
        assert(r.links() =~= Seq::<TreeLinks>::empty());
        assert(r.values() =~= Seq::<T>::empty());
        r
    }

    /// Places an unlinked node and returns its slot.
    pub fn place(&mut self, node: TreeNode<T>) -> (r: usize)
        requires
            old(self).wf(),
            node.links().prev is None,
            node.links().next is None,
        ensures
            final(self).wf(),
            r == old(self).links().len(),
            final(self).links() == old(self).links().push(node.links()),
            final(self).values() == old(self).values().push(node.value()),
    {
        let r = self.nodes.len();
        self.nodes.push(node);
        assert(self.links() =~= old(self).links().push(node.links()));
        assert(self.values() =~= old(self).values().push(node.value()));
        r
    }

    /// The links of node `id`.
    pub fn get_links(&self, id: usize) -> (r: TreeLinks)
        requires
            id < self.links().len(),
        ensures
            r == self.links()[id as int],
    {
        proof {
            self.lemma_view();
        }
        self.nodes[id].links
    }

    /// The value of node `id`.
    pub fn value(&self, id: usize) -> (r: &T)
        requires
            id < self.values().len(),
        ensures
            *r == self.values()[id as int],
    {
        proof {
            self.lemma_view();
        }
        &self.nodes[id].value
    }

    /// Replaces the links of node `id`.
    fn set_links(&mut self, id: usize, links: TreeLinks)
        requires
            id < old(self).links().len(),
        ensures
            final(self).links() == old(self).links().update(id as int, links),
            final(self).values() == old(self).values(),
    {
        proof {
            self.lemma_view();
        }
        self.nodes[id].links = links;
        assert(self.links() =~= old(self).links().update(id as int, links));
        assert(self.values() =~= old(self).values());
    }

    /// Puts node `other`, which is in no collection, behind node `this` as its sibling.
    pub fn append_after(&mut self, this: usize, other: usize)
        requires
            old(self).wf(),
            this < old(self).links().len(),
            other < old(self).links().len(),
            old(self).links()[other as int].depth == 0,
        ensures
            final(self).wf(),
            final(self).links() == appended_after(old(self).links(), this as int, other as int),
            final(self).values() == old(self).values(),
    {
        proof {
            self.lemma_view();
        }
        let next = self.nodes[this].links.next;
        match next {
            Some(n) => {
                let l = self.nodes[n].links;
                self.set_links(n, TreeLinks { prev: Some(other), next: l.next, depth: l.depth });
            },
            None => {},
        }
        proof {
            self.lemma_view();
        }
        let l = self.nodes[other].links;
        self.set_links(other, TreeLinks { prev: l.prev, next, depth: l.depth });
        proof {
            self.lemma_view();
        }
        let l = self.nodes[this].links;
        self.set_links(this, TreeLinks { prev: l.prev, next: Some(other), depth: l.depth });
        proof {
            self.lemma_view();
        }
        let l = self.nodes[other].links;
        self.set_links(other, TreeLinks { prev: Some(this), next: l.next, depth: l.depth });
        proof {
            self.lemma_view();
        }
        let depth = self.nodes[this].links.depth;
        let l = self.nodes[other].links;
        self.set_links(other, TreeLinks { prev: l.prev, next: l.next, depth });
    }

    /// Puts node `other`, which is in no collection, below node `this`: behind it, one level
    /// deeper.
    pub fn append_below(&mut self, this: usize, other: usize)
        requires
            old(self).wf(),
            this < old(self).links().len(),
            other < old(self).links().len(),
            this != other,
            old(self).links()[other as int].depth == 0,
            old(self).links()[this as int].depth < usize::MAX,
        ensures
            final(self).wf(),
            final(self).links() == appended_below(old(self).links(), this as int, other as int),
            final(self).values() == old(self).values(),
    {
        self.append_after(this, other);
        proof {
            self.lemma_view();
            let ls = old(self).links();
            let a = appended_after(ls, this as int, other as int);
            assert(a[this as int].depth == ls[this as int].depth);
        }
        let l = self.nodes[other].links;
        self.set_links(other, TreeLinks { prev: l.prev, next: l.next, depth: l.depth + 1 });
    }

    /// Drops node `this` out of its collection: its links are reset, and its neighbours are
    /// joined to each other.
    pub fn drop_node(&mut self, this: usize)
        requires
            old(self).wf(),
            this < old(self).links().len(),
        ensures
            final(self).wf(),
            final(self).links() == node_dropped(old(self).links(), this as int),
            final(self).values() == old(self).values(),
    {
        proof {
            self.lemma_view();
        }
        let old_links = self.nodes[this].links;
        self.set_links(this, TreeLinks::new_unlinked());
        proof {
            self.lemma_view();
        }
        match old_links.prev {
            Some(p) => {
                let l = self.nodes[p].links;
                self.set_links(p, TreeLinks { prev: l.prev, next: old_links.next, depth: l.depth });
            },
            None => {},
        }
        proof {
            self.lemma_view();
        }
        match old_links.next {
            Some(n) => {
                let l = self.nodes[n].links;
                self.set_links(n, TreeLinks { prev: old_links.prev, next: l.next, depth: l.depth });
            },
            None => {},
        }
    }
}

} // verus!
