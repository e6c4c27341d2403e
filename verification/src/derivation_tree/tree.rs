//! The derivation tree: nodes that are copied and derived from each other, kept in one list
//! with a depth per node.
//!
//! The list is ordered so that it encodes the tree: copies of a node follow it directly with the
//! same depth, derivations follow its last copy with a depth one higher, and siblings follow all
//! derivations. So a node's depth is at most one more than the depth of the node before it.
//! Nodes are only reached through cursors of the tree's [`CursorSet`].

use vstd::prelude::*;
use crate::derivation_tree::cursors::{CursorHandle, CursorData, CursorSet, OutOfCursorsError, first_free, lemma_first_free};
use crate::derivation_tree::linked_list::{LinkedList, Link};

verus! {

/// An comparison of two node values that tells whether they are copies of the same thing.
pub trait Correspondence {
    /// `self` and `other` are copies of the same thing.
    spec fn corresponds(&self, other: &Self) -> bool;

    /// Whether `self` corresponds to the same value as `other`.
    fn corresponds_to(&self, other: &Self) -> (r: bool)
        ensures
            r == self.corresponds(other),
    ;
}

/// The tree links of one node: the nodes before and after it in the tree's list, its depth,
/// and the cursor set through which the tree is accessed.
#[derive(Clone, Copy, Debug, PartialEq, Eq, Structural)]
pub struct TreeNodeData {
    /// The node before this one.
    pub prev: Option<usize>,
    /// The node after this one.
    pub next: Option<usize>,
    /// The 1-based depth of the node; 0 means the node is in no tree.
    pub depth: usize,
    /// The number of the cursor set of the collection the node belongs to, once assigned.
    pub cursors: Option<usize>,
}

/// The number by which the nodes of a [`DerivationTree`] name the tree's own cursor set.
pub const TREE_CURSOR_SET: usize = 0;

impl TreeNodeData {
    /// The links of a node that is in no tree and has no cursor set yet.
    pub fn new() -> (r: Self)
        ensures
            r.prev is None && r.next is None && r.depth == 0 && r.cursors is None,
    {
        TreeNodeData { prev: None, next: None, depth: 0, cursors: None }
    }

    /// Let the node know the cursor set of the collection it is put into. A node can be given
    /// a cursor set only once.
    pub fn assign_cursor_set(&mut self, cursor_set: usize)
        requires
            old(self).cursors is None,
        ensures
            *final(self) == (TreeNodeData { cursors: Some(cursor_set), ..*old(self) }),
    {
        self.cursors = Some(cursor_set);
    }

    /// Whether the node is linked into no tree: it has no cursor set, no depth and no
    /// neighbours.
    pub fn is_unlinked(&self) -> (r: bool)
        ensures
            r == (self.cursors is None && self.prev is None && self.next is None && self.depth
                == 0),
    {
        self.cursors.is_none() && self.prev.is_none() && self.next.is_none() && self.depth == 0
    }
}

/// The position at which the walk from position `p` over nodes that correspond to `v` stops:
/// the last copy of the node at `p`.
pub open spec fn last_copy_pos<T: Correspondence>(vals: Seq<T>, v: T, p: int) -> int
    decreases vals.len() - p,
{
    if 0 <= p && p + 1 < vals.len() && vals[p + 1].corresponds(&v) {
        last_copy_pos(vals, v, p + 1)
    } else {
        p
    }
}

/// The walk stops within the list and no earlier than where it started.
pub proof fn lemma_last_copy_pos<T: Correspondence>(vals: Seq<T>, v: T, p: int)
    requires
        0 <= p < vals.len(),
    ensures
        p <= last_copy_pos(vals, v, p) < vals.len(),
    decreases vals.len() - p,
{
    if p + 1 < vals.len() && vals[p + 1].corresponds(&v) {
        lemma_last_copy_pos(vals, v, p + 1);
    }
}

/// The walk from position `p` stops at the last copy of the node at `p`: every value strictly
/// after `p` up to where it stops corresponds to `v`, and the value right after it, if any,
/// does not.
pub proof fn lemma_last_copy_pos_is_last_copy<T: Correspondence>(vals: Seq<T>, v: T, p: int)
    requires
        0 <= p < vals.len(),
    ensures
        p <= last_copy_pos(vals, v, p) < vals.len(),
        forall|j: int| p < j <= last_copy_pos(vals, v, p) ==> #[trigger] vals[j].corresponds(&v),
        last_copy_pos(vals, v, p) + 1 < vals.len() ==> !vals[last_copy_pos(vals, v, p) + 1].corresponds(&v),
    decreases vals.len() - p,
{
    if p + 1 < vals.len() && vals[p + 1].corresponds(&v) {
        lemma_last_copy_pos_is_last_copy(vals, v, p + 1);
    }
}

/// A collection that tracks nodes derived from each other in a tree-like structure.
pub struct DerivationTree<T> {
    list: LinkedList<T>,
    depths: Vec<usize>,
    cursors: CursorSet,
}

impl<T> DerivationTree<T> {
    /// The node numbers in list order; the root is node 0.
    pub closed spec fn nodes(&self) -> Seq<usize> {
        self.list.order()
    }

    /// The node values in list order.
    pub closed spec fn values(&self) -> Seq<T> {
        self.list.view()
    }

    /// The depth of each node, by node number; a node that was dropped has depth 0.
    pub closed spec fn depths(&self) -> Seq<usize> {
        self.depths@
    }

    /// How many node numbers were given out.
    pub closed spec fn slots(&self) -> nat {
        self.list.slots()
    }

    /// Node `id` is in the tree.
    pub open spec fn has_node(&self, id: usize) -> bool {
        self.nodes().contains(id)
    }

    /// The states of the tree's cursors.
    pub closed spec fn cursor_states(&self) -> Seq<CursorData> {
        self.cursors.cursors()
    }

    /// Where node `id` stands in the list.
    pub open spec fn position(&self, id: usize) -> int {
        choose|k: int| 0 <= k < self.nodes().len() && self.nodes()[k] == id
    }

    /// Every node of the tree stands at exactly one position, and its value is the one at that
    /// position.
    pub proof fn lemma_position(&self, id: usize)
        requires
            self.wf(),
            self.has_node(id),
        ensures
            0 <= self.position(id) < self.nodes().len(),
            self.nodes()[self.position(id)] == id,
            forall|k: int| 0 <= k < self.nodes().len() && self.nodes()[k] == id ==> k == self.position(id),
            self.nodes().len() == self.values().len(),
    {
        self.list.lemma_wf();
        self.list.lemma_position(id);
    }

    /// The root comes first with depth 1, every node has a depth of at least 1, and the
    /// cursors are free of aliasing.
    pub closed spec fn wf(&self) -> bool {
        let order = self.list.order();
        &&& self.list.wf()
        &&& self.cursors.wf()
        &&& self.depths@.len() == self.list.slots()
        &&& order.len() >= 1
        &&& order[0] == 0
        &&& self.depths@[0] == 1
        &&& forall|j: int| 0 <= j < order.len() ==> self.depths@[#[trigger] order[j] as int] >= 1
    }

    /// Every node has a depth of at most one more than the node before it.
    pub closed spec fn ordered(&self) -> bool {
        let order = self.list.order();
        forall|j: int|
            0 <= j < order.len() - 1 ==> self.depths@[#[trigger] order[j + 1] as int]
                <= self.depths@[order[j] as int] + 1
    }

    /// The ordering rules of the tree: the root comes first with depth 1, every node has a
    /// depth of at least 1, and the tree is ordered when every node has a depth of at most one
    /// more than the node before it.
    pub proof fn lemma_ordering(&self)
        requires
            self.wf(),
        ensures
            self.nodes().len() >= 1,
            self.nodes()[0] == 0,
            self.depths()[0] == 1,
            self.nodes().len() <= self.depths().len(),
            forall|j: int| 0 <= j < self.nodes().len() ==> self.depths()[#[trigger] self.nodes()[j] as int] >= 1,
            self.ordered() <==> forall|j: int|
                0 <= j < self.nodes().len() - 1 ==> self.depths()[#[trigger] self.nodes()[j + 1] as int]
                    <= self.depths()[self.nodes()[j] as int] + 1,
            crate::derivation_tree::cursors::no_aliasing(self.cursor_states()),
    {
        self.list.lemma_wf();
    }

    /// A tree that holds only a root node with `root_value`, at depth 1, and free cursors.
    pub fn init_with_root_value(root_value: T) -> (r: Self)
        ensures
            r.wf(),
            r.ordered(),
            r.nodes() == seq![0usize],
            r.values() == seq![root_value],
            r.depths() == seq![1usize],
            r.slots() == 1,
            forall|i: int| 0 <= i < r.cursor_states().len() ==> r.cursor_states()[i] == CursorData::Free,
    {
        let mut list = LinkedList::new();
        list.insert_back(Link::new(root_value));
        let depths = vec![1usize];
        let cursors = CursorSet::new();
        let r = DerivationTree { list, depths, cursors };
        proof {
            assert(r.values() =~= seq![root_value]);
        }
        r
    }

    /// Try to get a cursor to the root node; it selects the root but does not reference it yet.
    pub fn get_root_cursor(&mut self) -> (r: Result<CursorHandle, OutOfCursorsError>)
        requires
            old(self).wf(),
        ensures
            final(self).wf(),
            final(self).nodes() == old(self).nodes(),
            final(self).values() == old(self).values(),
            final(self).depths() == old(self).depths(),
            final(self).slots() == old(self).slots(),
            r is Err <==> first_free(old(self).cursor_states(), 0) == -1,
            r matches Ok(h) ==> h.index() == first_free(old(self).cursor_states(), 0) && final(self).cursor_states()
                == old(self).cursor_states().update(h.index(), CursorData::Inactive(0)),
            r is Err ==> final(self).cursor_states() == old(self).cursor_states(),
    {
        self.get_node(0)
    }

    /// Try to get a cursor to node `node`; it selects the node but does not reference it yet.
    pub fn get_node(&mut self, node: usize) -> (r: Result<CursorHandle, OutOfCursorsError>)
        requires
            old(self).wf(),
        ensures
            final(self).wf(),
            final(self).nodes() == old(self).nodes(),
            final(self).values() == old(self).values(),
            final(self).depths() == old(self).depths(),
            final(self).slots() == old(self).slots(),
            r is Err <==> first_free(old(self).cursor_states(), 0) == -1,
            r matches Ok(h) ==> h.index() == first_free(old(self).cursor_states(), 0) && final(self).cursor_states()
                == old(self).cursor_states().update(h.index(), CursorData::Inactive(node)),
            r is Err ==> final(self).cursor_states() == old(self).cursor_states(),
    {
        let cursor = self.cursors.get_free_cursor()?;
        proof {
            lemma_first_free(old(self).cursor_states(), 0);
        }
        cursor.select_node(&mut self.cursors, node);
        Ok(cursor)
    }

    /// The tree's cursors, for locking nodes through them.
    pub fn cursors_mut(&mut self) -> (r: &mut CursorSet)
        requires
            old(self).wf(),
        ensures
            r.wf(),
            r.cursors() == old(self).cursor_states(),
            final(r).wf() ==> final(self).wf(),
            final(self).cursor_states() == final(r).cursors(),
            final(self).nodes() == old(self).nodes(),
            final(self).values() == old(self).values(),
            final(self).depths() == old(self).depths(),
            final(self).slots() == old(self).slots(),
    {
        &mut self.cursors
    }

    /// An iterator over all nodes of the tree, from the root in list order.
    pub fn iter(&self) -> (r: NextNodeIterator)
        requires
            self.wf(),
        ensures
            r.current() == Some(0usize),
    {
        NextNodeIterator::from_starting_node(0)
    }

    /// The value of node `id`, which must be referenced through a cursor.
    pub fn value(&self, id: usize) -> (r: &T)
        requires
            self.wf(),
            self.has_node(id),
            exists|i: int| 0 <= i < self.cursor_states().len() && crate::derivation_tree::cursors::active_to(#[trigger] self.cursor_states()[i], id),
        ensures
            *r == self.values()[self.position(id)],
    {
        self.list.elem(id)
    }

    /// Replace the value of node `id`, which must be referenced exclusively through a cursor.
    pub fn set_value(&mut self, id: usize, value: T)
        requires
            old(self).wf(),
            old(self).has_node(id),
            exists|i: int| 0 <= i < old(self).cursor_states().len() && crate::derivation_tree::cursors::exclusive_to(#[trigger] old(self).cursor_states()[i], id),
        ensures
            final(self).wf(),
            final(self).ordered() == old(self).ordered(),
            final(self).nodes() == old(self).nodes(),
            final(self).values() == old(self).values().update(old(self).position(id), value),
            final(self).cursor_states() == old(self).cursor_states(),
    {
        self.list.set_elem(id, value);
    }

    /// The tree links of node `id`.
    pub fn get_tree_data(&self, id: usize) -> (r: TreeNodeData)
        requires
            self.wf(),
            self.has_node(id),
        ensures
            r.depth == self.depths()[id as int],
            r.cursors == Some(TREE_CURSOR_SET),
            r.next == if self.position(id) + 1 < self.nodes().len() {
                Some(self.nodes()[self.position(id) + 1])
            } else {
                None
            },
            r.prev == if self.position(id) > 0 {
                Some(self.nodes()[self.position(id) - 1])
            } else {
                None
            },
    {
        proof {
            self.list.lemma_wf();
            self.list.lemma_position(id);
        }
        TreeNodeData {
            prev: self.list.prev_link(id),
            next: self.list.next_link(id),
            depth: self.depths[id],
            cursors: Some(TREE_CURSOR_SET),
        }
    }

    /// Insert a new node with `value` as a copy of node `node`: directly after it and at the
    /// same depth. Return the new node's number.
    pub fn insert_copy(&mut self, node: usize, value: T) -> (r: usize)
        requires
            old(self).wf(),
            old(self).has_node(node),
        ensures
            final(self).wf(),
            old(self).ordered() ==> final(self).ordered(),
            r == old(self).slots(),
            final(self).nodes() == old(self).nodes().insert(old(self).position(node) + 1, r),
            final(self).values() == old(self).values().insert(old(self).position(node) + 1, value),
            final(self).depths() == old(self).depths().push(old(self).depths()[node as int]),
            final(self).cursor_states() == old(self).cursor_states(),
    {
        proof {
            self.list.lemma_wf();
            self.list.lemma_position(node);
        }
        let ghost p = self.list.position(node);
        self.insert_after_position(node, Ghost(p), value, self.depths[node])
    }

    /// Insert a node with `value` after node `node` (at position `p`) with depth `depth`. The
    /// tree stays ordered when `depth` is at most one more than `node`'s depth and at least the
    /// depth of the node after it minus one.
    fn insert_after_position(&mut self, node: usize, Ghost(p): Ghost<int>, value: T, depth: usize) -> (r: usize)
        requires
            old(self).wf(),
            0 <= p < old(self).nodes().len(),
            old(self).nodes()[p] == node,
            1 <= depth,
        ensures
            final(self).wf(),
            (old(self).ordered() && depth <= old(self).depths()[node as int] + 1 && (p + 1
                < old(self).nodes().len() ==> old(self).depths()[old(self).nodes()[p + 1] as int]
                <= depth + 1)) ==> final(self).ordered(),
            r == old(self).slots(),
            final(self).nodes() == old(self).nodes().insert(p + 1, r),
            final(self).values() == old(self).values().insert(p + 1, value),
            final(self).depths() == old(self).depths().push(depth),
            final(self).cursor_states() == old(self).cursor_states(),
    {
        let ghost order = self.list.order();
        let ghost d0 = self.depths@;
        let ghost was_ordered = self.ordered();
        proof {
            self.list.lemma_wf();
            assert(self.list.has_link(node));
        }
        let next = self.list.next_link(node);
        proof {
            self.list.lemma_position(node);
        }
        let id = self.list.insert_at(Ghost(p + 1), Some(node), next, value);
        self.depths.push(depth);
        proof {
            let o2 = self.list.order();
            let d = self.depths@;
            assert forall|x: int| 0 <= x < d0.len() implies d[x] == d0[x] by {}
            assert forall|j: int| 0 <= j < o2.len() implies d[#[trigger] o2[j] as int] >= 1 by {
                if j <= p {
                    assert(o2[j] == order[j]);
                    assert(order[j] < d0.len());
                } else if j > p + 1 {
                    assert(o2[j] == order[j - 1]);
                    assert(order[j - 1] < d0.len());
                }
            }
            assert(o2[0] == order[0]);
            if was_ordered && depth <= d0[node as int] + 1 && (p + 1 < order.len() ==> d0[order[p
                + 1] as int] <= depth + 1) {
                assert forall|j: int| 0 <= j < o2.len() - 1 implies d[#[trigger] o2[j + 1] as int]
                    <= d[o2[j] as int] + 1 by {
                    if j < p {
                        assert(o2[j] == order[j] && o2[j + 1] == order[j + 1]);
                        assert(order[j] < d0.len() && order[j + 1] < d0.len());
                        assert(d0[order[j + 1] as int] <= d0[order[j] as int] + 1);
                    } else if j == p {
                        assert(o2[j] == order[p]);
                        assert(order[p] < d0.len());
                    } else if j == p + 1 {
                        assert(o2[j + 1] == order[p + 1]);
                        assert(order[p + 1] < d0.len());
                    } else {
                        assert(o2[j] == order[j - 1] && o2[j + 1] == order[j]);
                        assert(order[j - 1] < d0.len() && order[j] < d0.len());
                        let q = j - 1;
                        assert(d0[order[q + 1] as int] <= d0[order[q] as int] + 1);
                    }
                }
            }
        }
        id
    }

    /// Drop node `node` out of the tree: the nodes before and after it are joined to each other
    /// and its depth becomes 0. No cursor may select or reference it, and the root stays.
    pub fn drop_node(&mut self, node: usize)
        requires
            old(self).wf(),
            old(self).has_node(node),
            node != 0,
            forall|i: int|
                0 <= i < old(self).cursor_states().len() ==> !crate::derivation_tree::cursors::points_to(
                    #[trigger] old(self).cursor_states()[i],
                    node,
                ),
        ensures
            final(self).wf(),
            final(self).slots() == old(self).slots(),
            final(self).nodes() == old(self).nodes().remove(old(self).position(node)),
            final(self).values() == old(self).values().remove(old(self).position(node)),
            final(self).depths() == old(self).depths().update(node as int, 0),
            final(self).cursor_states() == old(self).cursor_states(),
    {
        proof {
            self.list.lemma_wf();
            self.list.lemma_position(node);
        }
        let ghost order = self.list.order();
        let ghost k = self.list.position(node);
        self.list.remove(node);
        self.depths.set(node, 0);
        proof {
            let o2 = self.list.order();
            assert(k != 0);
            assert(o2[0] == order[0]);
            assert forall|j: int| 0 <= j < o2.len() implies self.depths@[#[trigger] o2[j] as int] >= 1 by {
                let j0 = if j < k { j } else { j + 1 };
                assert(o2[j] == order[j0]);
                assert(order[j0] != node);
            }
        }
    }
}

/// Inserting a copy of a node and dropping that copy again gives back the nodes and values the
/// tree had.
pub proof fn lemma_copy_then_drop_restores<T>(
    t0: &DerivationTree<T>,
    t1: &DerivationTree<T>,
    t2: &DerivationTree<T>,
    node: usize,
    r: usize,
    value: T,
)
    requires
        t0.wf(),
        t0.has_node(node),
        t1.wf(),
        r == t0.slots(),
        t1.nodes() == t0.nodes().insert(t0.position(node) + 1, r),
        t1.values() == t0.values().insert(t0.position(node) + 1, value),
        t2.nodes() == t1.nodes().remove(t1.position(r)),
        t2.values() == t1.values().remove(t1.position(r)),
    ensures
        t2.nodes() == t0.nodes(),
        t2.values() == t0.values(),
{
    t0.list.lemma_wf();
    t0.list.lemma_position(node);
    let p = t0.position(node) + 1;
    assert(t1.nodes()[p] == r);
    assert(t1.list.has_link(r));
    t1.list.lemma_position(r);
    assert(t1.position(r) == p);
    assert(t2.nodes() =~= t0.nodes());
    assert(t2.values() =~= t0.values());
}

impl<T: Correspondence> DerivationTree<T> {
    /// The last copy of node `node`: the walk from it over the following nodes that correspond
    /// to it, where every node passed has `node`'s depth.
    pub fn get_last_copy(&self, node: usize) -> (r: usize)
        requires
            self.wf(),
            self.has_node(node),
            ({
                let p = self.position(node);
                let l = last_copy_pos(self.values(), self.values()[p], p);
                forall|q: int| p < q <= l ==> self.depths()[self.nodes()[q] as int] == self.depths()[node as int]
            }),
        ensures
            r == self.nodes()[last_copy_pos(self.values(), self.values()[self.position(node)], self.position(node))],
            ({
                let p = self.position(node);
                let v = self.values()[p];
                let q = last_copy_pos(self.values(), v, p);
                &&& p <= q < self.nodes().len()
                &&& forall|j: int| p < j <= q ==> #[trigger] self.values()[j].corresponds(&v)
                &&& q + 1 < self.nodes().len() ==> !self.values()[q + 1].corresponds(&v)
            }),
    {
        proof {
            self.lemma_position(node);
            lemma_last_copy_pos_is_last_copy(self.values(), self.values()[self.position(node)], self.position(node));
            self.list.lemma_position(node);
            self.list.lemma_wf();
        }
        let ghost vals = self.values();
        let ghost p0 = self.position(node);
        let ghost v = vals[p0];
        proof {
            lemma_last_copy_pos(vals, v, p0);
        }
        let this = self.list.elem(node);
        let mut current: usize = node;
        let ghost mut p: int = p0;
        let ghost n = self.nodes().len();
        loop
            invariant
                self.wf(),
                vals == self.values(),
                *this == v,
                n == self.nodes().len(),
                0 <= p0 <= p < self.nodes().len(),
                p0 == self.position(node),
                v == vals[p0],
                self.nodes()[p] == current,
                last_copy_pos(vals, v, p0) == last_copy_pos(vals, v, p),
                vals.len() == n,
                p0 <= last_copy_pos(vals, v, p0) < n,
                forall|j: int| p0 < j <= last_copy_pos(vals, v, p0) ==> #[trigger] vals[j].corresponds(&v),
                last_copy_pos(vals, v, p0) + 1 < n ==> !vals[last_copy_pos(vals, v, p0) + 1].corresponds(&v),
            decreases n - p,
        {
            proof {
                self.list.lemma_wf();
                assert(self.list.order()[p] < self.list.slots());
                self.list.lemma_position(current);
                assert(self.list.order()[p] == current);
                assert(self.list.position(current) == p);
            }
            match self.list.next_link(current) {
                Some(next) => {
                    proof {
                        assert(self.list.order()[p + 1] < self.list.slots());
                        self.list.lemma_position(next);
                        assert(self.list.order()[p + 1] == next);
                        assert(self.list.position(next) == p + 1);
                    }
                    let next_value = self.list.elem(next);
                    if next_value.corresponds_to(this) {
                        current = next;
                        proof {
                            p = p + 1;
                        }
                        continue;
                    }
                    assert(!vals[p + 1].corresponds(&v));
                    assert(last_copy_pos(vals, v, p) == p);
                },
                None => {
                    assert(last_copy_pos(vals, v, p) == p);
                },
            }
            return current;
        }
    }

    /// Whether no node next to node `node` corresponds to it.
    pub fn is_last_copy(&self, node: usize) -> (r: bool)
        requires
            self.wf(),
            self.has_node(node),
        ensures
            ({
                let p = self.position(node);
                let v = self.values()[p];
                r == !((p > 0 && self.values()[p - 1].corresponds(&v)) || (p + 1 < self.nodes().len()
                    && self.values()[p + 1].corresponds(&v)))
            }),
    {
        proof {
            self.list.lemma_wf();
            self.list.lemma_position(node);
        }
        let this = self.list.elem(node);
        if let Some(prev) = self.list.prev_link(node) {
            proof {
                self.list.lemma_position(prev);
            }
            if self.list.elem(prev).corresponds_to(this) {
                return false;
            }
        }
        if let Some(next) = self.list.next_link(node) {
            proof {
                self.list.lemma_position(next);
            }
            if self.list.elem(next).corresponds_to(this) {
                return false;
            }
        }
        true
    }

    /// Whether node `node` has derivations: the node after its last copy is one level deeper
    /// than it.
    pub fn has_derivations(&self, node: usize) -> (r: bool)
        requires
            self.wf(),
            self.has_node(node),
            ({
                let p = self.position(node);
                let l = last_copy_pos(self.values(), self.values()[p], p);
                forall|q: int| p < q <= l ==> self.depths()[self.nodes()[q] as int] == self.depths()[node as int]
            }),
        ensures
            ({
                let p = self.position(node);
                let l = last_copy_pos(self.values(), self.values()[p], p);
                r == (l + 1 < self.nodes().len() && self.depths()[self.nodes()[l + 1] as int]
                    == self.depths()[node as int] + 1)
            }),
    {
        proof {
            self.list.lemma_wf();
            self.list.lemma_position(node);
            lemma_last_copy_pos(self.values(), self.values()[self.position(node)], self.position(node));
        }
        let last = self.get_last_copy(node);
        let ghost p = self.position(node);
        let ghost l = last_copy_pos(self.values(), self.values()[p], p);
        proof {
            self.list.lemma_position(last);
        }
        match self.list.next_link(last) {
            Some(next) => {
                proof {
                    self.list.lemma_position(next);
                    assert(self.nodes()[l + 1] < self.list.slots());
                }
                self.depths[next] >= 1 && self.depths[next] - 1 == self.depths[node]
            },
            None => false,
        }
    }

    /// Insert a new node with `value` as a derivation of node `node`: after its last copy, one
    /// level deeper. Return the new node's number.
    pub fn insert_derivation(&mut self, node: usize, value: T) -> (r: usize)
        requires
            old(self).wf(),
            old(self).has_node(node),
            old(self).depths()[node as int] < usize::MAX,
            ({
                let p = old(self).position(node);
                let l = last_copy_pos(old(self).values(), old(self).values()[p], p);
                forall|q: int| p < q <= l ==> old(self).depths()[old(self).nodes()[q] as int] == old(self).depths()[node as int]
            }),
        ensures
            final(self).wf(),
            old(self).ordered() ==> final(self).ordered(),
            r == old(self).slots(),
            ({
                let p = old(self).position(node);
                let l = last_copy_pos(old(self).values(), old(self).values()[p], p);
                &&& final(self).nodes() == old(self).nodes().insert(l + 1, r)
                &&& final(self).values() == old(self).values().insert(l + 1, value)
                &&& final(self).depths() == old(self).depths().push((old(self).depths()[node as int] + 1) as usize)
            }),
            final(self).cursor_states() == old(self).cursor_states(),
    {
        proof {
            self.list.lemma_wf();
            self.list.lemma_position(node);
            lemma_last_copy_pos(self.values(), self.values()[self.position(node)], self.position(node));
        }
        let last = self.get_last_copy(node);
        let ghost p = self.position(node);
        let ghost l = last_copy_pos(self.values(), self.values()[p], p);
        let depth = self.depths[node];
        proof {
            self.list.lemma_wf();
            assert(self.depths@[last as int] == depth);
            if self.ordered() && l + 1 < self.nodes().len() {
                assert(self.depths@[self.nodes()[l + 1] as int] <= self.depths@[self.nodes()[l] as int] + 1);
            }
        }
        self.insert_after_position(last, Ghost(l), value, depth + 1)
    }
}

/// An iterator over nodes that walks the list from a starting node.
pub struct NextNodeIterator {
    current_node: Option<usize>,
}

impl NextNodeIterator {
    /// The node the iterator gives next, if any.
    pub closed spec fn current(&self) -> Option<usize> {
        self.current_node
    }

    /// An iterator that starts at `node`.
    pub fn from_starting_node(node: usize) -> (r: Self)
        ensures
            r.current() == Some(node),
    {
        NextNodeIterator { current_node: Some(node) }
    }

    /// The current node of `tree`, moving on to the node after it.
    pub fn next<T>(&mut self, tree: &DerivationTree<T>) -> (r: Option<usize>)
        requires
            tree.wf(),
            old(self).current() matches Some(id) ==> tree.has_node(id),
        ensures
            r == old(self).current(),
            final(self).current() == match old(self).current() {
                None => None,
                Some(id) => if tree.position(id) + 1 < tree.nodes().len() {
                    Some(tree.nodes()[tree.position(id) + 1])
                } else {
                    None
                },
            },
    {
        match self.current_node {
            None => None,
            Some(id) => {
                self.current_node = tree.list.next_link(id);
                Some(id)
            },
        }
    }
}

} // verus!
