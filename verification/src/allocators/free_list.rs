//! A free list over the blocks `0..items` of an arena: each free block records which free block
//! comes after it, and the list starts at a head block.

use vstd::prelude::*;

verus! {

/// The search for `n` blocks that follow each other in memory and in the free list `free`,
/// from the run that starts at position `sp` of the list and has reached position `cp` with
/// `count` blocks: the positions of the first and last block of the run that it finds.
///
/// A block that does not continue the current run starts a new one.
pub open spec fn scan(free: Seq<usize>, sp: int, cp: int, count: int, n: int) -> Option<(int, int)>
    decreases free.len() - cp,
{
    if count >= n {
        Some((sp, cp))
    } else if cp < 0 || cp + 1 >= free.len() {
        None
    } else if free[cp + 1] == free[cp] + 1 {
        scan(free, sp, cp + 1, count + 1, n)
    } else {
        scan(free, cp + 1, cp + 1, 1, n)
    }
}

/// The free list `free` with the run from position `s` to position `e` taken out and every
/// other block kept in its order.
pub open spec fn without_run(free: Seq<usize>, s: int, e: int) -> Seq<usize> {
    free.subrange(0, s) + free.subrange(e + 1, free.len() as int)
}

/// The run of `n` blocks (at least one) that a search from the head of `free` finds.
pub open spec fn find_run(free: Seq<usize>, n: int) -> Option<(int, int)> {
    if free.len() == 0 {
        None
    } else {
        scan(free, 0, 0, 1, n)
    }
}

/// A run that the search finds lies in the list and holds consecutive blocks, at least `n` of
/// them and exactly `n` when `n >= 1`.
pub proof fn lemma_scan(free: Seq<usize>, sp: int, cp: int, count: int, n: int)
    requires
        0 <= sp <= cp < free.len(),
        count == cp - sp + 1,
        forall|k: int| sp <= k <= cp ==> free[k] == free[sp] + (k - sp),
        count <= n || count == 1,
    ensures
        scan(free, sp, cp, count, n) matches Some((s, e)) ==> {
            &&& 0 <= s <= e < free.len()
            &&& e - s + 1 == if n >= 1 {
                n
            } else {
                1
            }
            &&& forall|k: int| s <= k <= e ==> free[k] == free[s] + (k - s)
        },
    decreases free.len() - cp,
{
    if count >= n {
    } else if cp + 1 >= free.len() {
    } else if free[cp + 1] == free[cp] + 1 {
        lemma_scan(free, sp, cp + 1, count + 1, n);
    } else {
        lemma_scan(free, cp + 1, cp + 1, 1, n);
    }
}

/// The blocks of a run that the search finds are not on the list that remains after it, so a
/// block is handed out again only after it was put back; every other free block stays listed.
pub proof fn lemma_run_leaves_list(free: Seq<usize>, n: int)
    requires
        free.no_duplicates(),
        find_run(free, n) is Some,
    ensures
        ({
            let (s, e) = find_run(free, n)->0;
            &&& 0 <= s <= e < free.len()
            &&& forall|k: int|
                s <= k <= e ==> !without_run(free, s, e).contains(#[trigger] free[k])
            &&& forall|k: int|
                0 <= k < free.len() && !(s <= k <= e) ==> without_run(free, s, e).contains(
                    #[trigger] free[k],
                )
        }),
{
    lemma_scan(free, 0, 0, 1, n);
    let (s, e) = find_run(free, n)->0;
    let rest = without_run(free, s, e);
    let d = e - s + 1;
    assert forall|m: int| 0 <= m < rest.len() implies rest[m] == if m < s {
        free[m]
    } else {
        free[m + d]
    } by {}
    assert forall|k: int| s <= k <= e implies !rest.contains(#[trigger] free[k]) by {
        if rest.contains(free[k]) {
            let m = choose|m: int| 0 <= m < rest.len() && rest[m] == free[k];
            if m < s {
                assert(free[m] == free[k]);
            } else {
                assert(free[m + d] == free[k]);
            }
        }
    }
    assert forall|k: int| 0 <= k < free.len() && !(s <= k <= e) implies rest.contains(
        #[trigger] free[k],
    ) by {
        if k < s {
            assert(rest[k] == free[k]);
        } else {
            assert(rest[k - d] == free[k]);
        }
    }
}

/// The links of a free list over `items` blocks.
pub struct FreeList {
    next: Vec<Option<usize>>,
    head: Option<usize>,
    free: Ghost<Seq<usize>>,
}

impl FreeList {
    /// The free blocks in list order, starting at the head.
    pub closed spec fn free(&self) -> Seq<usize> {
        self.free@
    }

    /// How many blocks the list manages.
    pub closed spec fn items(&self) -> nat {
        self.next@.len()
    }

    /// The head is the first free block, each free block links to the next one, the last links
    /// to nothing, and no block is listed twice.
    pub closed spec fn wf(&self) -> bool {
        let free = self.free@;
        &&& free.no_duplicates()
        &&& forall|k: int| 0 <= k < free.len() ==> (#[trigger] free[k]) < self.next@.len()
        &&& self.head == if free.len() == 0 {
            None
        } else {
            Some(free[0])
        }
        &&& forall|k: int|
            0 <= k < free.len() ==> self.next@[#[trigger] free[k] as int] == if k + 1
                < free.len() {
                Some(free[k + 1])
            } else {
                None
            }
    }

    /// No block is listed twice and every listed block is one of the list's blocks.
    pub proof fn lemma_wf(&self)
        requires
            self.wf(),
        ensures
            self.free().no_duplicates(),
            forall|k: int| 0 <= k < self.free().len() ==> (#[trigger] self.free()[k]) < self.items(),
    {
    }

    /// A list of `items` blocks with all blocks free, in address order.
    pub fn new(items: usize) -> (r: Self)
        ensures
            r.wf(),
            r.items() == items,
            r.free() == Seq::new(items as nat, |k: int| k as usize),
    {
        let mut next: Vec<Option<usize>> = Vec::new();
        let mut i: usize = 0;
        while i < items
            invariant
                i <= items,
                next@.len() == i,
                forall|k: int| 0 <= k < i ==> next@[k] == if k + 1 < items {
                    Some((k + 1) as usize)
                } else {
                    None::<usize>
                },
            decreases items - i,
        {
            if i + 1 < items {
                next.push(Some(i + 1));
            } else {
                next.push(None);
            }
            i = i + 1;
        }
        let head = if items == 0 {
            None
        } else {
            Some(0)
        };
        let ghost free = Seq::new(items as nat, |k: int| k as usize);
        let r = FreeList { next, head, free: Ghost(free) };
        proof {
            assert(free.no_duplicates());
            assert forall|k: int| 0 <= k < free.len() implies r.next@[#[trigger] free[k] as int]
                == if k + 1 < free.len() {
                Some(free[k + 1])
            } else {
                None
            } by {
                assert(free[k] as int == k);
            }
        }
        r
    }

    /// Take the first free block off the list.
    pub fn pop(&mut self) -> (r: Option<usize>)
        requires
            old(self).wf(),
        ensures
            final(self).wf(),
            final(self).items() == old(self).items(),
            old(self).free().len() == 0 ==> r is None && final(self).free() == old(self).free(),
            old(self).free().len() > 0 ==> r == Some(old(self).free()[0]) && final(self).free()
                == old(self).free().drop_first(),
            r matches Some(i) ==> i < old(self).items(),
    {
        match self.head {
            None => None,
            Some(block) => {
                let ghost free = self.free@;
                self.head = self.next[block];
                self.next.set(block, None);
                self.free = Ghost(free.drop_first());
                proof {
                    let nf = free.drop_first();
                    assert forall|k: int| 0 <= k < nf.len() implies self.next@[#[trigger] nf[k]
                        as int] == if k + 1 < nf.len() {
                        Some(nf[k + 1])
                    } else {
                        None
                    } by {
                        assert(nf[k] == free[k + 1]);
                        assert(free[k + 1] != free[0]);
                    }
                }
                Some(block)
            },
        }
    }

    /// Put `block`, which is not free, back at the front of the list.
    pub fn push(&mut self, block: usize)
        requires
            old(self).wf(),
            block < old(self).items(),
            !old(self).free().contains(block),
        ensures
            final(self).wf(),
            final(self).items() == old(self).items(),
            final(self).free() == seq![block] + old(self).free(),
    {
        let ghost free = self.free@;
        let head = self.head;
        self.next.set(block, head);
        self.head = Some(block);
        let ghost nf = seq![block] + free;
        self.free = Ghost(nf);
        proof {
            assert forall|k: int| 0 <= k < nf.len() implies self.next@[#[trigger] nf[k] as int]
                == if k + 1 < nf.len() {
                Some(nf[k + 1])
            } else {
                None
            } by {
                if k > 0 {
                    assert(nf[k] == free[k - 1]);
                    assert(free.contains(free[k - 1]));
                }
            }
            assert forall|a: int, b: int| 0 <= a < b < nf.len() implies nf[a] != nf[b] by {
                if a > 0 {
                    assert(nf[a] == free[a - 1] && nf[b] == free[b - 1]);
                } else {
                    assert(nf[b] == free[b - 1]);
                    assert(free.contains(free[b - 1]));
                }
            }
        }
    }

    /// Take `n` blocks that follow each other both in the list and in memory off the list, and
    /// return the first of them; every other free block stays on the list. With `n` at most
    /// one, this takes the first free block.
    pub fn pop_run(&mut self, n: usize) -> (r: Option<usize>)
        requires
            old(self).wf(),
        ensures
            final(self).wf(),
            final(self).items() == old(self).items(),
            match find_run(old(self).free(), n as int) {
                None => r is None && final(self).free() == old(self).free(),
                Some((s, e)) => r == Some(old(self).free()[s]) && final(self).free() == without_run(
                    old(self).free(),
                    s,
                    e,
                ),
            },
            r matches Some(i) ==> i < old(self).items(),
    {
        let ghost free = self.free@;
        let len = self.next.len();
        let first = match self.head {
            None => {
                return None;
            },
            Some(b) => b,
        };
        let mut count: usize = 1;
        let mut cur_head: usize = first;
        let mut cur: usize = first;
        let mut before: Option<usize> = None;
        let ghost mut sp: int = 0;
        let ghost mut cp: int = 0;
        while count < n
            invariant
                self.wf(),
                self.free@ == free,
                len == self.next@.len(),
                0 <= sp <= cp < free.len(),
                count == cp - sp + 1,
                count >= 1,
                free[sp] == cur_head,
                free[cp] == cur,
                before == if sp > 0 {
                    Some(free[sp - 1])
                } else {
                    None
                },
                find_run(free, n as int) == scan(free, sp, cp, count as int, n as int),
            decreases free.len() - cp,
        {
            assert(cur < len);
            let next = match self.next[cur] {
                None => {
                    return None;
                },
                Some(b) => b,
            };
            if next == cur + 1 {
                cur = next;
                count = count + 1;
                proof {
                    cp = cp + 1;
                }
            } else {
                before = Some(cur);
                cur_head = next;
                cur = next;
                count = 1;
                proof {
                    cp = cp + 1;
                    sp = cp;
                }
            }
        }
        assert(cur < len);
        let after = self.next[cur];
        match before {
            None => {
                self.head = after;
            },
            Some(p) => {
                self.next.set(p, after);
            },
        }
        let ghost nf = without_run(free, sp, cp);
        self.free = Ghost(nf);
        proof {
            let m = free.len();
            let d = cp - sp + 1;
            assert forall|k: int| 0 <= k < nf.len() implies nf[k] == if k < sp {
                free[k]
            } else {
                free[k + d]
            } by {}
            assert forall|a: int, b: int| 0 <= a < b < nf.len() implies nf[a] != nf[b] by {
                let a0 = if a < sp { a } else { a + d };
                let b0 = if b < sp { b } else { b + d };
                assert(nf[a] == free[a0] && nf[b] == free[b0]);
            }
            assert forall|k: int| 0 <= k < nf.len() implies (#[trigger] nf[k]) < self.next@.len() by {
                let k0 = if k < sp { k } else { k + d };
                assert(nf[k] == free[k0]);
            }
            assert forall|k: int| 0 <= k < nf.len() implies self.next@[#[trigger] nf[k] as int]
                == if k + 1 < nf.len() {
                Some(nf[k + 1])
            } else {
                None
            } by {
                if k < sp - 1 {
                    assert(nf[k] == free[k] && nf[k + 1] == free[k + 1]);
                    assert(free[k] != free[sp - 1]);
                } else if k == sp - 1 {
                    assert(nf[k] == free[sp - 1]);
                    if k + 1 < nf.len() {
                        assert(nf[k + 1] == free[cp + 1]);
                    }
                } else {
                    assert(nf[k] == free[k + d]);
                    if sp > 0 {
                        assert(free[k + d] != free[sp - 1]);
                    }
                    if k + 1 < nf.len() {
                        assert(nf[k + 1] == free[k + 1 + d]);
                    }
                }
            }
            if nf.len() > 0 {
                if sp == 0 {
                    assert(nf[0] == free[cp + 1]);
                } else {
                    assert(nf[0] == free[0]);
                }
            }
        }
        Some(cur_head)
    }
}

} // verus!
