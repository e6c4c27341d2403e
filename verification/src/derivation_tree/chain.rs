//! A chain of handles to one value: the first handle owns it and the others refer to it.
//!
//! Handles are placed in a `ChainSpace`; a handle refers to another one by its slot there.

use vstd::prelude::*;

verus! {

/// What a handle of the chain holds.
pub enum OwnedCell<T> {
    /// The handle owns the value.
    Owned(T),
    /// The handle refers to the value that the handle in the given slot owns.
    Ref(usize),
    /// The handle holds no value yet.
    Uninit,
}

/// A handle of a chain that shares one value, with the handles before and after it.
pub struct RefChain<T> {
    value: OwnedCell<T>,
    prev: Option<usize>,
    next: Option<usize>,
}

impl<T> RefChain<T> {
    /// What the handle holds.
    pub closed spec fn cell(&self) -> OwnedCell<T> {
        self.value
    }

    /// The handle before this one.
    pub closed spec fn prev_handle(&self) -> Option<usize> {
        self.prev
    }

    /// The handle after this one.
    pub closed spec fn next_handle(&self) -> Option<usize> {
        self.next
    }

    /// An unchained handle that holds no value yet.
    pub fn uninit() -> (r: RefChain<T>)
        ensures
            r.cell() is Uninit,
            r.prev_handle() is None,
            r.next_handle() is None,
    {
        RefChain { value: OwnedCell::Uninit, prev: None, next: None }
    }

    /// An unchained handle that owns `value`.
    pub fn new(value: T) -> (r: RefChain<T>)
        ensures
            r.cell() == OwnedCell::Owned(value),
            r.prev_handle() is None,
            r.next_handle() is None,
    {
        RefChain { value: OwnedCell::Owned(value), prev: None, next: None }
    }

    /// This handle holding nothing, with no neighbours.
    pub closed spec fn cleared(self) -> RefChain<T> {
        RefChain { value: OwnedCell::Uninit, prev: None, next: None }
    }

    /// This handle holding another cell.
    pub closed spec fn with_cell(self, value: OwnedCell<T>) -> RefChain<T> {
        RefChain { value, prev: self.prev, next: self.next }
    }

    /// This handle with another handle before it.
    pub closed spec fn with_prev(self, prev: Option<usize>) -> RefChain<T> {
        RefChain { value: self.value, prev, next: self.next }
    }

    /// This handle with another handle after it.
    pub closed spec fn with_next(self, next: Option<usize>) -> RefChain<T> {
        RefChain { value: self.value, prev: self.prev, next }
    }
}

/// Where the handles of chains are placed.
pub struct ChainSpace<T> {
    handles: Vec<RefChain<T>>,
}

/// The handles after `target` was put behind `this`: `target` takes the successor of `this`
/// and `this` as predecessor, and that successor takes `target` as predecessor. The successor
/// of `this`, and the cell of `target`, stay as they were.
pub open spec fn cloned_behind<T>(hs: Seq<RefChain<T>>, this: int, target: int) -> Seq<RefChain<T>> {
    let next = hs[this].next_handle();
    let s1 = hs.update(target, hs[target].with_next(next));
    let s2 = s1.update(target, s1[target].with_prev(Some(this as usize)));
    match s2[this].next_handle() {
        Some(n) => s2.update(n as int, s2[n as int].with_prev(Some(target as usize))),
        None => s2,
    }
}

/// The successor of each handle, by slot.
pub open spec fn successors<T>(hs: Seq<RefChain<T>>) -> Seq<Option<usize>> {
    hs.map_values(|h: RefChain<T>| h.next_handle())
}

/// The handle reached from `start` after `k` steps along the successors `nexts`.
pub open spec fn chain_walk(nexts: Seq<Option<usize>>, start: Option<usize>, k: nat) -> Option<usize>
    decreases k,
{
    if k == 0 {
        start
    } else {
        match chain_walk(nexts, start, (k - 1) as nat) {
            Some(c) => if c < nexts.len() {
                nexts[c as int]
            } else {
                None
            },
            None => None,
        }
    }
}

/// The walk from `start` ends within as many steps as there are handles.
pub open spec fn chain_ends(nexts: Seq<Option<usize>>, start: Option<usize>) -> bool {
    chain_walk(nexts, start, nexts.len()) is None
}

/// Handle `i` is passed by the walk from `start` before it ends.
pub open spec fn passed(nexts: Seq<Option<usize>>, start: Option<usize>, i: int) -> bool {
    exists|k: nat| k < nexts.len() && #[trigger] chain_walk(nexts, start, k) == Some(i as usize)
}

/// Handle `i` is reached by the walk from `start` in fewer than `steps` steps.
pub open spec fn passed_within(nexts: Seq<Option<usize>>, start: Option<usize>, i: int, steps: nat) -> bool {
    exists|k: nat| k < steps && #[trigger] chain_walk(nexts, start, k) == Some(i as usize)
}

/// Once a walk has run off the chain, it stays off.
pub proof fn lemma_walk_stays_off(nexts: Seq<Option<usize>>, start: Option<usize>, a: nat, b: nat)
    requires
        a <= b,
        chain_walk(nexts, start, a) is None,
    ensures
        chain_walk(nexts, start, b) is None,
    decreases b - a,
{
    if a < b {
        lemma_walk_stays_off(nexts, start, a, (b - 1) as nat);
    }
}

/// The handles after every handle passed by the walk from `start` was made to refer to the
/// handle in slot `owner`.
pub open spec fn redirected<T>(hs: Seq<RefChain<T>>, start: Option<usize>, owner: usize) -> Seq<RefChain<T>> {
    Seq::new(
        hs.len(),
        |i: int|
            if passed(successors(hs), start, i) {
                hs[i].with_cell(OwnedCell::Ref(owner))
            } else {
                hs[i]
            },
    )
}

/// The handles after handle `this` was dropped: its neighbours are joined to each other; a value
/// it owned passes to the handle after it, which the later handles then refer to, or goes away
/// with it; and its slot holds no value and no neighbours any more.
pub open spec fn handle_dropped<T>(hs: Seq<RefChain<T>>, this: int) -> Seq<RefChain<T>> {
    let prev = hs[this].prev_handle();
    let next = hs[this].next_handle();
    let s1 = match prev {
        Some(p) => hs.update(p as int, hs[p as int].with_next(next)),
        None => hs,
    };
    let s2 = match next {
        Some(n) => s1.update(n as int, s1[n as int].with_prev(prev)),
        None => s1,
    };
    let s3 = match (hs[this].cell(), next) {
        (OwnedCell::Owned(t), Some(n)) => {
            let handed = s2.update(n as int, s2[n as int].with_cell(OwnedCell::Owned(t)));
            redirected(handed, handed[n as int].next_handle(), n)
        },
        _ => s2,
    };
    s3.update(this, s3[this].cleared())
}

impl<T> ChainSpace<T> {
    /// The handles placed here, by slot.
    pub closed spec fn handles(&self) -> Seq<RefChain<T>> {
        self.handles@
    }

    /// Every reference held here names a slot that is placed.
    pub open spec fn wf(&self) -> bool {
        let hs = self.handles();
        forall|i: int| #![trigger hs[i]] 0 <= i < hs.len() ==> {
            &&& (hs[i].prev_handle() matches Some(p) ==> p < hs.len())
            &&& (hs[i].next_handle() matches Some(n) ==> n < hs.len())
            &&& (hs[i].cell() matches OwnedCell::Ref(o) ==> o < hs.len())
        }
    }

    /// The value that handle `id` reads: its own, or that of the handle it refers to, which
    /// must own one.
    pub open spec fn readable(&self, id: int) -> bool {
        match self.handles()[id].cell() {
            OwnedCell::Owned(_) => true,
            OwnedCell::Ref(o) => o < self.handles().len() && self.handles()[o as int].cell() is Owned,
            OwnedCell::Uninit => false,
        }
    }

    /// The value handle `id` reads, where it is readable.
    pub open spec fn value_of(&self, id: int) -> T
        recommends
            self.readable(id),
    {
        match self.handles()[id].cell() {
            OwnedCell::Owned(v) => v,
            OwnedCell::Ref(o) => self.handles()[o as int].cell()->Owned_0,
            OwnedCell::Uninit => arbitrary(),
        }
    }

    /// An empty space.
    pub fn new() -> (r: Self)
        ensures
            r.wf(),
            r.handles() == Seq::<RefChain<T>>::empty(),
    {
        ChainSpace { handles: Vec::new() }
    }

    /// Places an unchained handle that owns a value or holds none, and returns its slot.
    pub fn place(&mut self, handle: RefChain<T>) -> (r: usize)
        requires
            old(self).wf(),
            handle.prev_handle() is None,
            handle.next_handle() is None,
            !(handle.cell() is Ref),
        ensures
            final(self).wf(),
            r == old(self).handles().len(),
            final(self).handles() == old(self).handles().push(handle),
    {
        let r = self.handles.len();
        self.handles.push(handle);
        proof {
            let hs = self.handles();
            assert forall|i: int| #![trigger hs[i]] 0 <= i < hs.len() implies {
                &&& (hs[i].prev_handle() matches Some(p) ==> p < hs.len())
                &&& (hs[i].next_handle() matches Some(n) ==> n < hs.len())
                &&& (hs[i].cell() matches OwnedCell::Ref(o) ==> o < hs.len())
            } by {
                if i < r {
                    assert(hs[i] == old(self).handles()[i]);
                }
            }
        }
        r
    }

    /// Whether handle `id` holds no value yet.
    pub fn is_uninit(&self, id: usize) -> (r: bool)
        requires
            id < self.handles().len(),
        ensures
            r == self.handles()[id as int].cell() is Uninit,
    {
        match self.handles[id].value {
            OwnedCell::Uninit => true,
            _ => false,
        }
    }

    /// The value handle `id` reads, or `None` if it holds none.
    pub fn try_get_val(&self, id: usize) -> (r: Option<&T>)
        requires
            self.wf(),
            id < self.handles().len(),
            !(self.handles()[id as int].cell() is Uninit) ==> self.readable(id as int),
        ensures
            self.handles()[id as int].cell() is Uninit ==> r is None,
            !(self.handles()[id as int].cell() is Uninit) ==> r == Some(&self.value_of(id as int)),
    {
        if self.is_uninit(id) {
            None
        } else {
            Some(self.read(id))
        }
    }

    /// Puts handle `target`, which holds nothing and is unchained, behind handle `this`, which
    /// has a handle after it.
    pub fn clone_pinned(&mut self, this: usize, target: usize)
        requires
            old(self).wf(),
            this < old(self).handles().len(),
            target < old(self).handles().len(),
            this != target,
            old(self).handles()[target as int].cell() is Uninit,
            old(self).handles()[target as int].prev_handle() is None,
            old(self).handles()[target as int].next_handle() is None,
            old(self).handles()[this as int].next_handle() is Some,
        ensures
            final(self).wf(),
            final(self).handles() == cloned_behind(old(self).handles(), this as int, target as int),
    {
        let next = self.handles[this].next;
        self.handles[target].next = next;
        self.handles[target].prev = Some(this);
        match self.handles[this].next {
            Some(n) => {
                self.handles[n].prev = Some(target);
            },
            None => {},
        }
    }

    /// Makes handle `id` hold `cell`.
    fn set_cell(&mut self, id: usize, cell: OwnedCell<T>)
        requires
            id < old(self).handles().len(),
        ensures
            final(self).handles() == old(self).handles().update(
                id as int,
                old(self).handles()[id as int].with_cell(cell),
            ),
    {
        self.handles[id].value = cell;
    }

    /// Makes every handle passed by the walk from `start` refer to the handle in slot `owner`.
    fn redirect(&mut self, start: Option<usize>, owner: usize)
        requires
            old(self).wf(),
            owner < old(self).handles().len(),
            start matches Some(s) ==> s < old(self).handles().len(),
            chain_ends(successors(old(self).handles()), start),
        ensures
            final(self).wf(),
            final(self).handles() == redirected(old(self).handles(), start, owner),
    {
        let ghost hs = self.handles();
        let ghost nexts = successors(hs);
        let ghost n = hs.len();
        let len = self.handles.len();
        assert(n == len);
        let mut cur = start;
        let ghost mut steps: nat = 0;
        while cur.is_some()
            invariant
                self.wf(),
                owner < n,
                n <= usize::MAX,
                self.handles().len() == n,
                hs.len() == n,
                successors(self.handles()) == nexts,
                nexts == successors(hs),
                nexts.len() == n,
                chain_walk(nexts, start, n) is None,
                steps <= n,
                cur == chain_walk(nexts, start, steps),
                cur matches Some(c) ==> c < n,
                forall|i: int|
                    #![trigger self.handles()[i]]
                    0 <= i < n ==> self.handles()[i] == if passed_within(nexts, start, i, steps) {
                        hs[i].with_cell(OwnedCell::Ref(owner))
                    } else {
                        hs[i]
                    },
            decreases n - steps,
        {
            let c = cur.unwrap();
            let ghost before = self.handles();
            proof {
                assert(before[c as int] == self.handles@[c as int]);
            }
            self.set_cell(c, OwnedCell::Ref(owner));
            proof {
                let after = self.handles();
                assert(successors(after) =~= nexts) by {
                    assert forall|i: int| 0 <= i < n implies successors(after)[i] == nexts[i] by {
                        assert(after[i].next_handle() == before[i].next_handle());
                        assert(successors(before)[i] == before[i].next_handle());
                    }
                }
                assert forall|i: int| 0 <= i < n implies passed_within(nexts, start, i, steps + 1)
                    == (passed_within(nexts, start, i, steps) || i == c) by {
                    if i == c {
                        assert(chain_walk(nexts, start, steps) == Some(i as usize));
                    }
                    if passed_within(nexts, start, i, steps + 1) && i != c {
                        let k = choose|k: nat| k < steps + 1 && #[trigger] chain_walk(nexts, start, k) == Some(i as usize);
                        assert(k != steps);
                    }
                }
                assert forall|i: int| 0 <= i < n implies after[i] == if passed_within(nexts, start, i, (steps + 1) as nat) {
                    hs[i].with_cell(OwnedCell::Ref(owner))
                } else {
                    hs[i]
                } by {
                    assert(before[i] == self.handles@[i] || i == c);
                }
                assert(nexts[c as int] == after[c as int].next_handle());
            }
            cur = self.handles[c].next;
            proof {
                assert(self.handles()[c as int] == self.handles@[c as int]);
                steps = steps + 1;
            }
        }
        proof {
            assert forall|i: int| 0 <= i < n implies passed_within(nexts, start, i, steps) == passed(
                nexts,
                start,
                i,
            ) by {
                if passed(nexts, start, i) {
                    let k = choose|k: nat| k < nexts.len() && #[trigger] chain_walk(nexts, start, k) == Some(i as usize);
                    if k >= steps {
                        lemma_walk_stays_off(nexts, start, steps, k);
                    }
                    assert(chain_walk(nexts, start, k) == Some(i as usize));
                }
            }
            assert(self.handles() =~= redirected(hs, start, owner));
        }
    }

    /// Gives handle `id` another predecessor.
    fn set_prev(&mut self, id: usize, prev: Option<usize>)
        requires
            id < old(self).handles().len(),
        ensures
            final(self).handles() == old(self).handles().update(
                id as int,
                old(self).handles()[id as int].with_prev(prev),
            ),
    {
        self.handles[id].prev = prev;
    }

    /// Gives handle `id` another successor.
    fn set_next(&mut self, id: usize, next: Option<usize>)
        requires
            id < old(self).handles().len(),
        ensures
            final(self).handles() == old(self).handles().update(
                id as int,
                old(self).handles()[id as int].with_next(next),
            ),
    {
        self.handles[id].next = next;
    }

    /// Takes the cell out of handle `id`, which then holds nothing.
    fn take_cell(&mut self, id: usize) -> (r: OwnedCell<T>)
        requires
            id < old(self).handles().len(),
        ensures
            r == old(self).handles()[id as int].cell(),
            final(self).handles() == old(self).handles().update(
                id as int,
                old(self).handles()[id as int].with_cell(OwnedCell::Uninit),
            ),
    {
        let mut cell = OwnedCell::Uninit;
        core::mem::swap(&mut cell, &mut self.handles[id].value);
        cell
    }

    /// Drops handle `this`: its neighbours are joined to each other; a value it owns passes to
    /// the handle after it, which the handles after that then refer to, or goes away with it;
    /// and its slot holds nothing any more. A handle that owns its value must be the first of
    /// its chain.
    pub fn drop_handle(&mut self, this: usize)
        requires
            old(self).wf(),
            this < old(self).handles().len(),
            old(self).handles()[this as int].cell() is Owned ==> old(self).handles()[this as int].prev_handle() is None,
            old(self).handles()[this as int].cell() is Owned ==> match old(self).handles()[this as int].next_handle() {
                Some(n) => chain_ends(
                    successors(old(self).handles()),
                    old(self).handles()[n as int].next_handle(),
                ),
                None => true,
            },
        ensures
            final(self).wf(),
            final(self).handles() == handle_dropped(old(self).handles(), this as int),
    {
        let ghost hs = self.handles();
        let prev = self.handles[this].prev;
        let next = self.handles[this].next;
        match prev {
            Some(p) => {
                self.set_next(p, next);
            },
            None => {},
        }
        match next {
            Some(n) => {
                self.set_prev(n, prev);
            },
            None => {},
        }
        let ghost s2 = self.handles();
        let cell = self.take_cell(this);
        let ghost taken = self.handles();
        let ghost mut passed_on = taken;
        match cell {
            OwnedCell::Owned(t) => match next {
                Some(n) => {
                    self.set_cell(n, OwnedCell::Owned(t));
                    let ghost h1 = self.handles();
                    let start = self.handles[n].next;
                    proof {
                        assert(successors(h1) =~= successors(hs));
                        assert(start == h1[n as int].next_handle());
                    }
                    self.redirect(start, n);
                    proof {
                        let handed = s2.update(n as int, s2[n as int].with_cell(OwnedCell::Owned(t)));
                        assert(successors(h1) =~= successors(handed));
                        assert(handed[n as int].next_handle() == start);
                        let r_spec = redirected(handed, start, n);
                        assert forall|i: int| 0 <= i < hs.len() && i != this implies self.handles()[i]
                            == r_spec[i] by {
                            assert(h1[i] == handed[i]);
                        }
                        passed_on = r_spec;
                    }
                },
                None => {},
            },
            _ => {},
        }
        proof {
            assert forall|i: int| 0 <= i < hs.len() && i != this implies self.handles()[i]
                == passed_on[i] by {}
        }
        self.handles.set(this, RefChain::uninit());
        proof {
            assert(self.handles() =~= handle_dropped(hs, this as int));
        }
    }

    /// The value that handle `id` reads.
    fn read(&self, id: usize) -> (r: &T)
        requires
            self.wf(),
            id < self.handles().len(),
            self.readable(id as int),
        ensures
            *r == self.value_of(id as int),
    {
        match &self.handles[id].value {
            OwnedCell::Owned(v) => v,
            OwnedCell::Ref(o) => match &self.handles[*o].value {
                OwnedCell::Owned(v) => v,
                _ => unreached(),
            },
            OwnedCell::Uninit => unreached(),
        }
    }

    /// Calls `f` on the value that handle `id` reads, and returns what it returns.
    pub fn with_val<R, F: FnOnce(&T) -> R>(&self, id: usize, f: F) -> (r: R)
        requires
            self.wf(),
            id < self.handles().len(),
            self.readable(id as int),
            f.requires((&self.value_of(id as int),)),
        ensures
            f.ensures((&self.value_of(id as int),), r),
    {
        let v = self.read(id);
        f(v)
    }
}

/// The handles numbered by `order` form one chain in that order: each names the one before it
/// and the one after it, and the ends name nothing beyond.
pub open spec fn is_handle_chain<T>(hs: Seq<RefChain<T>>, order: Seq<usize>) -> bool {
    &&& order.no_duplicates()
    &&& forall|k: int| 0 <= k < order.len() ==> (#[trigger] order[k]) < hs.len()
    &&& forall|k: int|
        0 <= k < order.len() ==> (#[trigger] hs[order[k] as int]).prev_handle() == if k == 0 {
            None
        } else {
            Some(order[k - 1])
        }
    &&& forall|k: int|
        0 <= k < order.len() ==> (#[trigger] hs[order[k] as int]).next_handle() == if k + 1
            < order.len() {
            Some(order[k + 1])
        } else {
            None
        }
}

/// Dropping the handle at position `p` of a chain leaves the chain without it, in the same
/// order; the dropped handle holds nothing and has no neighbours.
pub proof fn lemma_drop_removes_from_chain<T>(hs: Seq<RefChain<T>>, order: Seq<usize>, p: int)
    requires
        is_handle_chain(hs, order),
        0 <= p < order.len(),
    ensures
        is_handle_chain(handle_dropped(hs, order[p] as int), order.remove(p)),
        handle_dropped(hs, order[p] as int)[order[p] as int].prev_handle() is None,
        handle_dropped(hs, order[p] as int)[order[p] as int].next_handle() is None,
        handle_dropped(hs, order[p] as int)[order[p] as int].cell() is Uninit,
{
    let this = order[p] as int;
    let u = handle_dropped(hs, this);
    let o2 = order.remove(p);
    let prev = hs[this].prev_handle();
    let next = hs[this].next_handle();
    assert(prev == if p == 0 { None } else { Some(order[p - 1]) });
    assert(next == if p + 1 < order.len() { Some(order[p + 1]) } else { None });
    let s1 = match prev {
        Some(q) => hs.update(q as int, hs[q as int].with_next(next)),
        None => hs,
    };
    let s2 = match next {
        Some(n) => s1.update(n as int, s1[n as int].with_prev(prev)),
        None => s1,
    };
    // handing the value on and redirecting later handles changes cells only
    assert forall|i: int| 0 <= i < hs.len() && i != this implies (#[trigger] u[i]).prev_handle()
        == s2[i].prev_handle() && u[i].next_handle() == s2[i].next_handle() by {
        match (hs[this].cell(), next) {
            (OwnedCell::Owned(t), Some(n)) => {
                let handed = s2.update(n as int, s2[n as int].with_cell(OwnedCell::Owned(t)));
                let r = redirected(handed, handed[n as int].next_handle(), n);
                assert(r[i] == handed[i] || r[i] == handed[i].with_cell(OwnedCell::Ref(n)));
            },
            _ => {},
        }
    }
    assert forall|i: int|
        0 <= i < hs.len() && i != this && (p == 0 || i != order[p - 1]) && (p + 1
            >= order.len() || i != order[p + 1]) implies s2[i] == hs[i] by {}
    if p > 0 {
        assert(s2[order[p - 1] as int].next_handle() == next);
        assert(s2[order[p - 1] as int].prev_handle() == hs[order[p - 1] as int].prev_handle()) by {
            assert(order[p - 1] != order[p]);
            if p + 1 < order.len() {
                assert(order[p - 1] != order[p + 1]);
            }
        }
    }
    if p + 1 < order.len() {
        assert(s2[order[p + 1] as int].prev_handle() == prev);
        assert(s2[order[p + 1] as int].next_handle() == hs[order[p + 1] as int].next_handle()) by {
            assert(order[p + 1] != order[p]);
        }
    }
    assert forall|k: int| 0 <= k < o2.len() implies (#[trigger] u[o2[k] as int]).prev_handle()
        == if k == 0 {
        None
    } else {
        Some(o2[k - 1])
    } by {
        let j = if k < p { k } else { k + 1 };
        assert(o2[k] == order[j]);
        assert(j != p);
        assert(order[j] != order[p]);
        if k > 0 {
            let jp = if k - 1 < p { k - 1 } else { k };
            assert(o2[k - 1] == order[jp]);
        }
        if j == p + 1 {
        } else if p > 0 && j == p - 1 {
        } else {
            assert(p == 0 || order[j] != order[p - 1]);
            assert(p + 1 >= order.len() || order[j] != order[p + 1]);
        }
    }
    assert forall|k: int| 0 <= k < o2.len() implies (#[trigger] u[o2[k] as int]).next_handle()
        == if k + 1 < o2.len() {
        Some(o2[k + 1])
    } else {
        None
    } by {
        let j = if k < p { k } else { k + 1 };
        assert(o2[k] == order[j]);
        assert(j != p);
        assert(order[j] != order[p]);
        if k + 1 < o2.len() {
            let jn = if k + 1 < p { k + 1 } else { k + 2 };
            assert(o2[k + 1] == order[jn]);
        }
        if p > 0 && j == p - 1 {
        } else if j == p + 1 {
        } else {
            assert(p == 0 || order[j] != order[p - 1]);
            assert(p + 1 >= order.len() || order[j] != order[p + 1]);
        }
    }
    assert forall|k: int| 0 <= k < o2.len() implies (#[trigger] o2[k]) < u.len() by {
        let j = if k < p { k } else { k + 1 };
        assert(o2[k] == order[j]);
    }
}

/// Handle `order[0]` owns `v` and every later handle of the chain refers to it, so that all
/// handles of the chain read `v`.
pub open spec fn chain_reads<T>(hs: Seq<RefChain<T>>, order: Seq<usize>, v: T) -> bool {
    &&& order.len() >= 1
    &&& hs[order[0] as int].cell() == OwnedCell::Owned(v)
    &&& forall|k: int|
        1 <= k < order.len() ==> (#[trigger] hs[order[k] as int]).cell() == OwnedCell::<T>::Ref(
            order[0],
        )
}

/// A sequence of distinct numbers below `n` has at most `n` elements.
proof fn lemma_distinct_below(s: Seq<usize>, n: int)
    requires
        n >= 0,
        s.no_duplicates(),
        forall|k: int| 0 <= k < s.len() ==> (#[trigger] s[k]) < n,
    ensures
        s.len() <= n,
    decreases n,
{
    if s.len() > 0 {
        assert(s[0] < n);
        if exists|i: int| 0 <= i < s.len() && s[i] == n - 1 {
            let i = choose|i: int| 0 <= i < s.len() && s[i] == n - 1;
            let s2 = s.remove(i);
            assert forall|k: int| 0 <= k < s2.len() implies (#[trigger] s2[k]) < n - 1 by {
                let j = if k < i { k } else { k + 1 };
                assert(s2[k] == s[j]);
                assert(j != i);
            }
            assert forall|a: int, b: int| 0 <= a < s2.len() && 0 <= b < s2.len() && a != b implies s2[a]
                != s2[b] by {
                let ja = if a < i { a } else { a + 1 };
                let jb = if b < i { b } else { b + 1 };
                assert(s2[a] == s[ja] && s2[b] == s[jb]);
            }
            lemma_distinct_below(s2, n - 1);
        } else {
            assert forall|k: int| 0 <= k < s.len() implies (#[trigger] s[k]) < n - 1 by {
                assert(s[k] != n - 1);
            }
            lemma_distinct_below(s, n - 1);
        }
    }
}

/// Walking along the successors from position `a` of a list reaches position `a + m` after `m`
/// steps, and runs off the list after its end.
proof fn lemma_walk_along<T>(hs: Seq<RefChain<T>>, order: Seq<usize>, a: int, m: nat)
    requires
        0 <= a < order.len(),
        forall|j: int| a <= j < order.len() ==> (#[trigger] order[j]) < hs.len(),
        forall|j: int|
            a <= j < order.len() ==> (#[trigger] hs[order[j] as int]).next_handle() == if j + 1
                < order.len() {
                Some(order[j + 1])
            } else {
                None
            },
    ensures
        chain_walk(successors(hs), Some(order[a]), m) == if a + m < order.len() {
            Some(order[a + m])
        } else {
            None
        },
    decreases m,
{
    if m > 0 {
        lemma_walk_along(hs, order, a, (m - 1) as nat);
        if a + m - 1 < order.len() {
            let j = a + m - 1;
            assert(successors(hs)[order[j] as int] == hs[order[j] as int].next_handle());
        }
    }
}

/// Dropping any handle of a chain whose first handle owns `v` and whose other handles refer to
/// it leaves a chain of the same kind: the remaining handles all still read `v`. When the owner
/// goes, the value passes to the next handle, which the later ones then refer to.
pub proof fn lemma_drop_keeps_value<T>(hs: Seq<RefChain<T>>, order: Seq<usize>, p: int, v: T)
    requires
        is_handle_chain(hs, order),
        chain_reads(hs, order, v),
        0 <= p < order.len(),
        order.len() >= 2,
    ensures
        chain_reads(handle_dropped(hs, order[p] as int), order.remove(p), v),
{
    let this = order[p] as int;
    let u = handle_dropped(hs, this);
    let o2 = order.remove(p);
    let prev = hs[this].prev_handle();
    let next = hs[this].next_handle();
    assert(prev == if p == 0 { None } else { Some(order[p - 1]) });
    assert(next == if p + 1 < order.len() { Some(order[p + 1]) } else { None });
    let s1 = match prev {
        Some(q) => hs.update(q as int, hs[q as int].with_next(next)),
        None => hs,
    };
    let s2 = match next {
        Some(n) => s1.update(n as int, s1[n as int].with_prev(prev)),
        None => s1,
    };
    assert forall|i: int| 0 <= i < hs.len() implies (#[trigger] s2[i]).cell() == hs[i].cell() by {}
    if p > 0 {
        assert(hs[this].cell() == OwnedCell::<T>::Ref(order[0]));
        assert(o2[0] == order[0]);
        assert(order[0] != order[p]);
        assert forall|k: int| 1 <= k < o2.len() implies (#[trigger] u[o2[k] as int]).cell()
            == OwnedCell::<T>::Ref(o2[0]) by {
            let j = if k < p { k } else { k + 1 };
            assert(o2[k] == order[j]);
            assert(order[j] != order[p]);
        }
    } else {
        let n = order[1];
        assert(hs[this].cell() == OwnedCell::Owned(v));
        let handed = s2.update(n as int, s2[n as int].with_cell(OwnedCell::Owned(v)));
        let start = handed[n as int].next_handle();
        let r = redirected(handed, start, n);
        assert(u == r.update(this, r[this].cleared()));
        assert forall|j: int| 0 <= j < order.len() implies (#[trigger] order[j]) < hs.len() by {}
        // the successors after position 1 are those of the list
        assert forall|j: int| 2 <= j < order.len() implies (#[trigger] handed[order[j] as int]).next_handle()
            == if j + 1 < order.len() {
            Some(order[j + 1])
        } else {
            None
        } by {
            assert(order[j] != order[1] && order[j] != order[0]);
        }
        assert(start == if 2 < order.len() { Some(order[2]) } else { None });
        lemma_distinct_below(order, hs.len() as int);
        // every handle after position 1 is passed by the walk
        assert forall|j: int| 2 <= j < order.len() implies passed(successors(handed), start, order[j] as int) by {
            lemma_walk_along(handed, order, 2, (j - 2) as nat);
            assert(chain_walk(successors(handed), start, (j - 2) as nat) == Some(order[j]));
        }
        // the handle at position 1 is not
        assert(!passed(successors(handed), start, order[1] as int)) by {
            if passed(successors(handed), start, order[1] as int) {
                let k = choose|k: nat|
                    k < successors(handed).len() && #[trigger] chain_walk(successors(handed), start, k)
                        == Some(order[1]);
                if 2 < order.len() {
                    lemma_walk_along(handed, order, 2, k);
                    if 2 + k < order.len() {
                        assert(order[2 + k as int] != order[1]);
                    }
                } else {
                    assert(chain_walk(successors(handed), None, k) is None) by {
                        lemma_walk_stays_off(successors(handed), None, 0, k);
                    }
                }
            }
        }
        assert(o2[0] == n);
        assert(u[n as int].cell() == OwnedCell::Owned(v)) by {
            assert(n as int != this);
        }
        assert forall|k: int| 1 <= k < o2.len() implies (#[trigger] u[o2[k] as int]).cell()
            == OwnedCell::<T>::Ref(o2[0]) by {
            assert(o2[k] == order[k + 1]);
            assert(order[k + 1] != order[0]);
            assert(passed(successors(handed), start, order[k + 1] as int));
        }
    }
}

} // verus!
