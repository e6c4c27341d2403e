//! Cursors: the only way to access the nodes of a derivation tree. A fixed set of cursors
//! tracks which nodes are referenced shared or exclusively, so that a node is never referenced
//! exclusively while another reference to it is in use.

use vstd::prelude::*;

verus! {

/// How many cursors a set holds.
pub const SET_SIZE: usize = 4;

/// The state of one cursor. Nodes are identified by a number.
#[derive(Clone, Copy, Debug, PartialEq, Eq, Structural)]
pub enum CursorData {
    /// The cursor is currently unused and can be given out to consumers.
    Free,
    /// The cursor is used by a consumer but not yet set to a specific node.
    Allocated,
    /// The cursor has been assigned to a specific node, but that node has not yet been "locked"
    /// for access.
    Inactive(usize),
    /// The cursor represents a shared (`&`) reference to a specific node.
    SharedRef(usize),
    /// The cursor represents an exclusive (`&mut`) reference to a specific node.
    ExclusiveRef(usize),
}

impl CursorData {
    /// The node the cursor has selected; a cursor without a selected node has none to give.
    pub fn get_ptr(&self) -> (r: usize)
        requires
            self is Inactive || self is SharedRef || self is ExclusiveRef,
        ensures
            points_to(*self, r),
    {
        match *self {
            CursorData::Inactive(n) => n,
            CursorData::SharedRef(n) => n,
            CursorData::ExclusiveRef(n) => n,
            _ => unreached(),
        }
    }
}

/// The cursor has a node selected and it is `node`.
pub open spec fn points_to(c: CursorData, node: usize) -> bool {
    match c {
        CursorData::Inactive(n) => n == node,
        CursorData::SharedRef(n) => n == node,
        CursorData::ExclusiveRef(n) => n == node,
        _ => false,
    }
}

/// The cursor references `node`, shared or exclusively.
pub open spec fn active_to(c: CursorData, node: usize) -> bool {
    match c {
        CursorData::SharedRef(n) => n == node,
        CursorData::ExclusiveRef(n) => n == node,
        _ => false,
    }
}

/// The cursor references `node` exclusively.
pub open spec fn exclusive_to(c: CursorData, node: usize) -> bool {
    match c {
        CursorData::ExclusiveRef(n) => n == node,
        _ => false,
    }
}

/// No node is referenced exclusively by one cursor while another cursor references it.
pub open spec fn no_aliasing(cs: Seq<CursorData>) -> bool {
    forall|i: int, j: int, n: usize|
        0 <= i < cs.len() && 0 <= j < cs.len() && i != j && #[trigger] exclusive_to(cs[i], n)
            ==> !#[trigger] active_to(cs[j], n)
}

/// While one cursor of a well formed set references a node exclusively, no other cursor
/// references that node.
pub proof fn lemma_exclusive_is_alone(set: &CursorSet, i: int, j: int, node: usize)
    requires
        set.wf(),
        0 <= i < SET_SIZE,
        0 <= j < SET_SIZE,
        i != j,
        set.cursors()[i] == CursorData::ExclusiveRef(node),
    ensures
        !active_to(set.cursors()[j], node),
{
    assert(exclusive_to(set.cursors()[i], node));
}

/// The first free cursor from index `k` on, or `-1` if there is none.
pub open spec fn first_free(cs: Seq<CursorData>, k: int) -> int
    decreases cs.len() - k,
{
    if k < 0 || k >= cs.len() {
        -1
    } else if cs[k] == CursorData::Free {
        k
    } else {
        first_free(cs, k + 1)
    }
}

/// A free cursor that the search finds lies at or after where it started.
pub proof fn lemma_first_free(cs: Seq<CursorData>, k: int)
    requires
        0 <= k,
    ensures
        first_free(cs, k) == -1 <==> (forall|i: int| k <= i < cs.len() ==> cs[i] != CursorData::Free),
        first_free(cs, k) != -1 ==> k <= first_free(cs, k) < cs.len() && cs[first_free(cs, k)]
            == CursorData::Free,
    decreases cs.len() - k,
{
    if k < cs.len() && cs[k] != CursorData::Free {
        lemma_first_free(cs, k + 1);
    }
}

/// The error returned when all cursors of a set are in use.
#[derive(Clone, Copy, Debug, PartialEq, Eq, Structural)]
pub struct OutOfCursorsError;

/// The error returned when a reference to a node would alias another one.
#[derive(Clone, Copy, Debug, PartialEq, Eq, Structural)]
pub struct AliasingError;

/// A fixed set of cursors.
pub struct CursorSet {
    cursors: Vec<CursorData>,
}

impl CursorSet {
    /// The states of the cursors.
    pub closed spec fn cursors(&self) -> Seq<CursorData> {
        self.cursors@
    }

    /// The set holds its fixed number of cursors and no node is aliased.
    pub open spec fn wf(&self) -> bool {
        &&& self.cursors().len() == SET_SIZE
        &&& no_aliasing(self.cursors())
    }

    /// A set whose cursors are all free.
    pub fn new() -> (r: Self)
        ensures
            r.wf(),
            forall|i: int| 0 <= i < SET_SIZE ==> r.cursors()[i] == CursorData::Free,
    {
        let cursors = vec![CursorData::Free, CursorData::Free, CursorData::Free, CursorData::Free];
        CursorSet { cursors }
    }

    /// Mark the first free cursor as allocated and return a handle to it.
    pub fn get_free_cursor(&mut self) -> (r: Result<CursorHandle, OutOfCursorsError>)
        requires
            old(self).wf(),
        ensures
            final(self).wf(),
            r is Err <==> first_free(old(self).cursors(), 0) == -1,
            r is Err ==> final(self).cursors() == old(self).cursors(),
            r matches Ok(h) ==> h.index() == first_free(old(self).cursors(), 0) && final(self).cursors() == old(self).cursors().update(h.index(), CursorData::Allocated),
    {
        let ghost cs = self.cursors();
        proof {
            lemma_first_free(cs, 0);
        }
        let mut i: usize = 0;
        while i < SET_SIZE
            invariant
                i <= SET_SIZE,
                self.cursors() == cs,
                cs == old(self).cursors(),
                cs.len() == SET_SIZE,
                no_aliasing(cs),
                first_free(cs, 0) == first_free(cs, i as int),
            decreases SET_SIZE - i,
        {
            if self.cursors[i] == CursorData::Free {
                assert(first_free(cs, i as int) == i);
                self.cursors.set(i, CursorData::Allocated);
                proof {
                    let ncs = self.cursors();
                    assert forall|a: int, b: int, n: usize|
                        0 <= a < ncs.len() && 0 <= b < ncs.len() && a != b
                            && #[trigger] exclusive_to(ncs[a], n) implies !#[trigger] active_to(
                        ncs[b],
                        n,
                    ) by {
                        assert(exclusive_to(cs[a], n));
                        if b != i {
                            assert(ncs[b] == cs[b]);
                        }
                    }
                }
                return Ok(CursorHandle { cursor: i });
            }
            i = i + 1;
        }
        Err(OutOfCursorsError)
    }

    /// Whether all cursors are free.
    pub fn is_empty(&self) -> (r: bool)
        requires
            self.wf(),
        ensures
            r == forall|i: int| 0 <= i < SET_SIZE ==> self.cursors()[i] == CursorData::Free,
    {
        let mut i: usize = 0;
        while i < SET_SIZE
            invariant
                i <= SET_SIZE,
                self.wf(),
                forall|k: int| 0 <= k < i ==> self.cursors()[k] == CursorData::Free,
            decreases SET_SIZE - i,
        {
            if self.cursors[i] != CursorData::Free {
                return false;
            }
            i = i + 1;
        }
        true
    }

    /// Whether any cursor has `node` selected.
    pub fn exists_cursor_to(&self, node: usize) -> (r: bool)
        requires
            self.wf(),
        ensures
            r == exists|i: int| 0 <= i < SET_SIZE && #[trigger] points_to(self.cursors()[i], node),
    {
        let mut i: usize = 0;
        while i < SET_SIZE
            invariant
                i <= SET_SIZE,
                self.wf(),
                forall|k: int| 0 <= k < i ==> !#[trigger] points_to(self.cursors()[k], node),
            decreases SET_SIZE - i,
        {
            let found = match self.cursors[i] {
                CursorData::Inactive(n) => n == node,
                CursorData::SharedRef(n) => n == node,
                CursorData::ExclusiveRef(n) => n == node,
                _ => false,
            };
            if found {
                assert(points_to(self.cursors()[i as int], node));
                return true;
            }
            i = i + 1;
        }
        false
    }

    /// Whether any cursor references `node`, shared or exclusively.
    pub fn exists_active_cursor_to(&self, node: usize) -> (r: bool)
        requires
            self.wf(),
        ensures
            r == exists|i: int| 0 <= i < SET_SIZE && #[trigger] active_to(self.cursors()[i], node),
    {
        let mut i: usize = 0;
        while i < SET_SIZE
            invariant
                i <= SET_SIZE,
                self.wf(),
                forall|k: int| 0 <= k < i ==> !#[trigger] active_to(self.cursors()[k], node),
            decreases SET_SIZE - i,
        {
            let found = match self.cursors[i] {
                CursorData::SharedRef(n) => n == node,
                CursorData::ExclusiveRef(n) => n == node,
                _ => false,
            };
            if found {
                assert(active_to(self.cursors()[i as int], node));
                return true;
            }
            i = i + 1;
        }
        false
    }

    /// Whether any cursor references `node` exclusively.
    pub fn exists_exclusive_cursor_to(&self, node: usize) -> (r: bool)
        requires
            self.wf(),
        ensures
            r == exists|i: int|
                0 <= i < SET_SIZE && #[trigger] exclusive_to(self.cursors()[i], node),
    {
        let mut i: usize = 0;
        while i < SET_SIZE
            invariant
                i <= SET_SIZE,
                self.wf(),
                forall|k: int| 0 <= k < i ==> !#[trigger] exclusive_to(self.cursors()[k], node),
            decreases SET_SIZE - i,
        {
            let found = match self.cursors[i] {
                CursorData::ExclusiveRef(n) => n == node,
                _ => false,
            };
            if found {
                assert(exclusive_to(self.cursors()[i as int], node));
                return true;
            }
            i = i + 1;
        }
        false
    }

    /// Set cursor `i` to `c`, which keeps the set free of aliasing.
    fn set_cursor(&mut self, i: usize, c: CursorData)
        requires
            old(self).wf(),
            i < SET_SIZE,
            forall|n: usize|
                #[trigger] exclusive_to(c, n) ==> forall|j: int|
                    0 <= j < SET_SIZE && j != i ==> !active_to(old(self).cursors()[j], n),
            forall|n: usize|
                #[trigger] active_to(c, n) ==> forall|j: int|
                    0 <= j < SET_SIZE && j != i ==> !exclusive_to(old(self).cursors()[j], n),
        ensures
            final(self).wf(),
            final(self).cursors() == old(self).cursors().update(i as int, c),
    {
        let ghost cs = self.cursors();
        self.cursors.set(i, c);
        proof {
            let ncs = self.cursors();
            assert forall|a: int, b: int, n: usize|
                0 <= a < ncs.len() && 0 <= b < ncs.len() && a != b && #[trigger] exclusive_to(
                    ncs[a],
                    n,
                ) implies !#[trigger] active_to(ncs[b], n) by {
                if a == i {
                    assert(exclusive_to(c, n));
                    assert(ncs[b] == cs[b]);
                } else if b == i {
                    assert(ncs[a] == cs[a]);
                    if active_to(c, n) {
                        assert(exclusive_to(cs[a], n));
                    }
                } else {
                    assert(ncs[a] == cs[a] && ncs[b] == cs[b]);
                }
            }
        }
    }
}

/// A handle to a cursor of a set, given out to a consumer.
pub struct CursorHandle {
    cursor: usize,
}

impl CursorHandle {
    /// Which cursor of the set this handle refers to.
    pub closed spec fn index(&self) -> int {
        self.cursor as int
    }

    /// Which cursor of the set this handle refers to.
    pub fn cursor_index(&self) -> (r: usize)
        ensures
            r == self.index(),
    {
        self.cursor
    }

    /// The state of this handle's cursor.
    pub fn get(&self, set: &CursorSet) -> (r: CursorData)
        requires
            set.wf(),
            0 <= self.index() < SET_SIZE,
        ensures
            r == set.cursors()[self.index()],
    {
        set.cursors[self.cursor]
    }

    /// Make this handle's cursor, which is allocated, select `node`.
    pub fn select_node(&self, set: &mut CursorSet, node: usize)
        requires
            old(set).wf(),
            0 <= self.index() < SET_SIZE,
            old(set).cursors()[self.index()] == CursorData::Allocated,
        ensures
            final(set).wf(),
            final(set).cursors() == old(set).cursors().update(
                self.index(),
                CursorData::Inactive(node),
            ),
    {
        set.set_cursor(self.cursor, CursorData::Inactive(node));
    }

    /// Lock the selected node for shared access, unless another cursor references it
    /// exclusively.
    pub fn get_shared(&mut self, set: &mut CursorSet) -> (r: Result<CursorRef, AliasingError>)
        requires
            old(set).wf(),
            0 <= old(self).index() < SET_SIZE,
            old(set).cursors()[old(self).index()] is Inactive,
        ensures
            final(set).wf(),
            *final(self) == *old(self),
            ({
                let node = old(set).cursors()[old(self).index()]->Inactive_0;
                &&& r is Err <==> exists|i: int|
                    0 <= i < SET_SIZE && #[trigger] exclusive_to(old(set).cursors()[i], node)
                &&& r is Err ==> final(set).cursors() == old(set).cursors()
                &&& r matches Ok(rf) ==> rf.index() == old(self).index() && rf.node() == node
                    && final(set).cursors() == old(set).cursors().update(
                    old(self).index(),
                    CursorData::SharedRef(node),
                )
            }),
    {
        let node = match set.cursors[self.cursor] {
            CursorData::Inactive(n) => n,
            _ => {
                return Err(AliasingError);
            },
        };
        if set.exists_exclusive_cursor_to(node) {
            Err(AliasingError)
        } else {
            set.set_cursor(self.cursor, CursorData::SharedRef(node));
            Ok(CursorRef { cursor: self.cursor, node })
        }
    }

    /// Lock the selected node for exclusive access, unless another cursor references it.
    pub fn get_exclusive(&mut self, set: &mut CursorSet) -> (r: Result<CursorRefMut, AliasingError>)
        requires
            old(set).wf(),
            0 <= old(self).index() < SET_SIZE,
            old(set).cursors()[old(self).index()] is Inactive,
        ensures
            final(set).wf(),
            *final(self) == *old(self),
            ({
                let node = old(set).cursors()[old(self).index()]->Inactive_0;
                &&& r is Err <==> exists|i: int|
                    0 <= i < SET_SIZE && #[trigger] active_to(old(set).cursors()[i], node)
                &&& r is Err ==> final(set).cursors() == old(set).cursors()
                &&& r matches Ok(rf) ==> rf.index() == old(self).index() && rf.node() == node
                    && final(set).cursors() == old(set).cursors().update(
                    old(self).index(),
                    CursorData::ExclusiveRef(node),
                )
            }),
    {
        let node = match set.cursors[self.cursor] {
            CursorData::Inactive(n) => n,
            _ => {
                return Err(AliasingError);
            },
        };
        if set.exists_active_cursor_to(node) {
            Err(AliasingError)
        } else {
            set.set_cursor(self.cursor, CursorData::ExclusiveRef(node));
            Ok(CursorRefMut { cursor: self.cursor, node })
        }
    }

    /// Get a second handle that selects the same node as `source` (if any).
    pub fn duplicate(source: &Self, set: &mut CursorSet) -> (r: Result<CursorHandle, OutOfCursorsError>)
        requires
            old(set).wf(),
            0 <= source.index() < SET_SIZE,
            old(set).cursors()[source.index()] != CursorData::Free,
        ensures
            final(set).wf(),
            r is Err <==> first_free(old(set).cursors(), 0) == -1,
            r is Err ==> final(set).cursors() == old(set).cursors(),
            r matches Ok(h) ==> {
                let c = old(set).cursors()[source.index()];
                &&& h.index() == first_free(old(set).cursors(), 0)
                &&& final(set).cursors() == old(set).cursors().update(
                    h.index(),
                    match c {
                        CursorData::Inactive(n) => CursorData::Inactive(n),
                        CursorData::SharedRef(n) => CursorData::Inactive(n),
                        CursorData::ExclusiveRef(n) => CursorData::Inactive(n),
                        _ => CursorData::Allocated,
                    },
                )
            },
    {
        let c = set.cursors[source.cursor];
        let target = set.get_free_cursor()?;
        proof {
            lemma_first_free(old(set).cursors(), 0);
        }
        match c {
            CursorData::Inactive(n) => target.select_node(set, n),
            CursorData::SharedRef(n) => target.select_node(set, n),
            CursorData::ExclusiveRef(n) => target.select_node(set, n),
            _ => {},
        }
        Ok(target)
    }

    /// Give the cursor back to the set.
    pub fn release(self, set: &mut CursorSet)
        requires
            old(set).wf(),
            0 <= self.index() < SET_SIZE,
        ensures
            final(set).wf(),
            final(set).cursors() == old(set).cursors().update(self.index(), CursorData::Free),
    {
        set.set_cursor(self.cursor, CursorData::Free);
    }
}

/// A shared reference to a node, held through a cursor.
pub struct CursorRef {
    cursor: usize,
    node: usize,
}

impl CursorRef {
    /// Which cursor of the set this reference is held by.
    pub closed spec fn index(&self) -> int {
        self.cursor as int
    }

    /// The referenced node.
    pub closed spec fn node(&self) -> usize {
        self.node
    }

    /// The referenced node.
    pub fn target(&self) -> (r: usize)
        ensures
            r == self.node(),
    {
        self.node
    }

    /// Get a new handle that selects the referenced node.
    pub fn duplicate(source: &Self, set: &mut CursorSet) -> (r: Result<CursorHandle, OutOfCursorsError>)
        requires
            old(set).wf(),
            0 <= source.index() < SET_SIZE,
            old(set).cursors()[source.index()] == CursorData::SharedRef(source.node()),
        ensures
            final(set).wf(),
            r is Err <==> first_free(old(set).cursors(), 0) == -1,
            r matches Ok(h) ==> h.index() == first_free(old(set).cursors(), 0) && final(set).cursors() == old(set).cursors().update(h.index(), CursorData::Inactive(source.node())),
    {
        let handle = CursorHandle { cursor: source.cursor };
        CursorHandle::duplicate(&handle, set)
    }

    /// Stop referencing the node; the cursor keeps it selected.
    pub fn release(self, set: &mut CursorSet)
        requires
            old(set).wf(),
            0 <= self.index() < SET_SIZE,
        ensures
            final(set).wf(),
            final(set).cursors() == old(set).cursors().update(
                self.index(),
                CursorData::Inactive(self.node()),
            ),
    {
        set.set_cursor(self.cursor, CursorData::Inactive(self.node));
    }
}

/// An exclusive reference to a node, held through a cursor.
pub struct CursorRefMut {
    cursor: usize,
    node: usize,
}

impl CursorRefMut {
    /// Which cursor of the set this reference is held by.
    pub closed spec fn index(&self) -> int {
        self.cursor as int
    }

    /// The referenced node.
    pub closed spec fn node(&self) -> usize {
        self.node
    }

    /// The referenced node.
    pub fn target(&self) -> (r: usize)
        ensures
            r == self.node(),
    {
        self.node
    }

    /// Get a new handle that selects the referenced node.
    pub fn duplicate(source: &Self, set: &mut CursorSet) -> (r: Result<CursorHandle, OutOfCursorsError>)
        requires
            old(set).wf(),
            0 <= source.index() < SET_SIZE,
            old(set).cursors()[source.index()] == CursorData::ExclusiveRef(source.node()),
        ensures
            final(set).wf(),
            r is Err <==> first_free(old(set).cursors(), 0) == -1,
            r matches Ok(h) ==> h.index() == first_free(old(set).cursors(), 0) && final(set).cursors() == old(set).cursors().update(h.index(), CursorData::Inactive(source.node())),
    {
        let handle = CursorHandle { cursor: source.cursor };
        CursorHandle::duplicate(&handle, set)
    }

    /// Stop referencing the node; the cursor keeps it selected.
    pub fn release(self, set: &mut CursorSet)
        requires
            old(set).wf(),
            0 <= self.index() < SET_SIZE,
        ensures
            final(set).wf(),
            final(set).cursors() == old(set).cursors().update(
                self.index(),
                CursorData::Inactive(self.node()),
            ),
    {
        set.set_cursor(self.cursor, CursorData::Inactive(self.node));
    }
}

} // verus!
