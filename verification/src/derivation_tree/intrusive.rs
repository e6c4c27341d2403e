//! An intrusive doubly linked list whose links live wherever their owners put them.
//!
//! Links, cursors and cursor sets are placed in a `LinkSpace`; a reference from one of them to
//! another is the slot number of the target in that space, and `None` stands for no target.

use vstd::prelude::*;
use core::marker::PhantomData;

verus! {

/// A link of an intrusive list, holding an element and its neighbours.
pub struct Link<T> {
    elem: T,
    prev: Option<usize>,
    next: Option<usize>,
    collection: Option<usize>,
}

/// The cursors that walk one collection of links; `init` is one of them, if any.
pub struct CursorSet<T> {
    init: Option<usize>,
    elems: PhantomData<T>,
}

/// A cursor at a link, chained to the other cursors of its set.
pub struct Cursor<T> {
    elem: Option<usize>,
    prev: Option<usize>,
    next: Option<usize>,
    set: Option<usize>,
    elems: PhantomData<T>,
}

/// Where links, cursors and cursor sets are placed.
pub struct LinkSpace<T> {
    links: Vec<Link<T>>,
    cursors: Vec<Cursor<T>>,
    sets: Vec<CursorSet<T>>,
}

/// `r` is absent or names a slot below `len`.
pub open spec fn names_below(r: Option<usize>, len: int) -> bool {
    match r {
        Some(i) => i < len,
        None => true,
    }
}

impl<T> Link<T> {
    /// The element held.
    pub closed spec fn value(&self) -> T {
        self.elem
    }

    /// The link before this one.
    pub closed spec fn prev_link(&self) -> Option<usize> {
        self.prev
    }

    /// The link after this one.
    pub closed spec fn next_link(&self) -> Option<usize> {
        self.next
    }

    /// The cursor set of the collection this link belongs to.
    pub closed spec fn collection(&self) -> Option<usize> {
        self.collection
    }

    /// An unlinked link that belongs to no collection.
    pub fn new(value: T) -> (r: Link<T>)
        ensures
            r.value() == value,
            r.prev_link() is None,
            r.next_link() is None,
            r.collection() is None,
    {
        Link { elem: value, prev: None, next: None, collection: None }
    }

    /// This link with its previous link replaced.
    pub closed spec fn with_prev(self, prev: Option<usize>) -> Link<T> {
        Link { elem: self.elem, prev, next: self.next, collection: self.collection }
    }

    /// This link with its next link replaced.
    pub closed spec fn with_next(self, next: Option<usize>) -> Link<T> {
        Link { elem: self.elem, prev: self.prev, next, collection: self.collection }
    }

    /// This link moved into another collection.
    pub closed spec fn with_collection(self, collection: Option<usize>) -> Link<T> {
        Link { elem: self.elem, prev: self.prev, next: self.next, collection }
    }
}

impl<T> CursorSet<T> {
    /// The first cursor of the set, if any.
    pub closed spec fn first(&self) -> Option<usize> {
        self.init
    }

    /// A set without cursors.
    pub fn empty() -> (r: CursorSet<T>)
        ensures
            r.first() is None,
    {
        CursorSet { init: None, elems: PhantomData }
    }

    /// Whether the set may be given up: only a set without cursors may.
    pub fn can_drop(&self) -> (r: bool)
        ensures
            r == (self.first() is None),
    {
        self.init.is_none()
    }
}

impl<T> Cursor<T> {
    /// The link the cursor is at.
    pub closed spec fn at(&self) -> Option<usize> {
        self.elem
    }

    /// The cursor before this one in its set.
    pub closed spec fn prev_cursor(&self) -> Option<usize> {
        self.prev
    }

    /// The cursor after this one in its set.
    pub closed spec fn next_cursor(&self) -> Option<usize> {
        self.next
    }

    /// The set this cursor is chained into.
    pub closed spec fn set(&self) -> Option<usize> {
        self.set
    }

    /// Whether this cursor is at `link`, in which case that link may not go away.
    pub fn invalidate(&self, link: usize) -> (r: bool)
        ensures
            r == (self.at() == Some(link)),
    {
        match self.elem {
            Some(e) => e == link,
            None => false,
        }
    }

    /// Another cursor of the same set: the one before this cursor, else the one after it.
    pub fn get_other(&self) -> (r: Option<usize>)
        ensures
            r == (if self.prev_cursor() is Some { self.prev_cursor() } else { self.next_cursor() }),
    {
        if self.prev.is_some() {
            self.prev
        } else {
            self.next
        }
    }

    /// This cursor with its previous cursor replaced.
    pub closed spec fn with_prev(self, prev: Option<usize>) -> Cursor<T> {
        Cursor { elem: self.elem, prev, next: self.next, set: self.set, elems: self.elems }
    }

    /// This cursor with its next cursor replaced.
    pub closed spec fn with_next(self, next: Option<usize>) -> Cursor<T> {
        Cursor { elem: self.elem, prev: self.prev, next, set: self.set, elems: self.elems }
    }

    /// This cursor taken out of its set.
    pub closed spec fn detached(self) -> Cursor<T> {
        Cursor { elem: self.elem, prev: None, next: None, set: None, elems: self.elems }
    }
}

impl<T> CursorSet<T> {
    /// This set with its first cursor replaced.
    pub closed spec fn with_first(self, init: Option<usize>) -> CursorSet<T> {
        CursorSet { init, elems: self.elems }
    }
}

/// `links` after `link` was put behind `this`: `link` joins the collection of `this`, the old
/// successor of `this` takes `link` as its predecessor, and `link` becomes the successor of
/// `this`. The neighbours of `link` itself are left as they were.
pub open spec fn linked_after<T>(links: Seq<Link<T>>, this: int, link: int) -> Seq<Link<T>> {
    let joined = links.update(link, links[link].with_collection(links[this].collection()));
    let told = match joined[this].next_link() {
        Some(n) => joined.update(n as int, joined[n as int].with_prev(Some(link as usize))),
        None => joined,
    };
    told.update(this, told[this].with_next(Some(link as usize)))
}

/// `links` after `link` was put in front of `this`, symmetric to `linked_after`.
pub open spec fn linked_before<T>(links: Seq<Link<T>>, this: int, link: int) -> Seq<Link<T>> {
    let joined = links.update(link, links[link].with_collection(links[this].collection()));
    let told = match joined[this].prev_link() {
        Some(p) => joined.update(p as int, joined[p as int].with_next(Some(link as usize))),
        None => joined,
    };
    told.update(this, told[this].with_prev(Some(link as usize)))
}

/// `links` after `this` was taken out: its predecessor and successor are joined to each other and
/// `this` keeps neither.
pub open spec fn unlinked<T>(links: Seq<Link<T>>, this: int) -> Seq<Link<T>> {
    let prev = links[this].prev_link();
    let next = links[this].next_link();
    let fixed_prev = match prev {
        Some(p) => links.update(p as int, links[p as int].with_next(next)),
        None => links,
    };
    let fixed_next = match next {
        Some(n) => fixed_prev.update(n as int, fixed_prev[n as int].with_prev(prev)),
        None => fixed_prev,
    };
    fixed_next.update(this, fixed_next[this].with_prev(None).with_next(None))
}

/// `cursors` after the neighbours of `this` were joined to each other.
pub open spec fn cursors_rejoined<T>(cursors: Seq<Cursor<T>>, this: int) -> Seq<Cursor<T>> {
    let prev = cursors[this].prev_cursor();
    let next = cursors[this].next_cursor();
    let fixed_prev = match prev {
        Some(p) => cursors.update(p as int, cursors[p as int].with_next(next)),
        None => cursors,
    };
    match next {
        Some(n) => fixed_prev.update(n as int, fixed_prev[n as int].with_prev(prev)),
        None => fixed_prev,
    }
}

/// `cursors` after `this` was taken out of its chain: its neighbours are joined to each other and
/// `this` keeps no neighbour and no set.
pub open spec fn cursor_unlinked<T>(cursors: Seq<Cursor<T>>, this: int) -> Seq<Cursor<T>> {
    let rejoined = cursors_rejoined(cursors, this);
    rejoined.update(this, rejoined[this].detached())
}

/// `sets` after cursor `this` was taken out of its chain: its set, if any, starts from the cursor
/// that was before it, else from the one that was after it.
pub open spec fn sets_after_cursor_unlinked<T>(
    cursors: Seq<Cursor<T>>,
    sets: Seq<CursorSet<T>>,
    this: int,
) -> Seq<CursorSet<T>> {
    let c = cursors_rejoined(cursors, this)[this];
    let other = if c.prev_cursor() is Some {
        c.prev_cursor()
    } else {
        c.next_cursor()
    };
    match c.set() {
        Some(s) => sets.update(s as int, sets[s as int].with_first(other)),
        None => sets,
    }
}

impl<T> LinkSpace<T> {
    /// The links placed here, by slot.
    pub closed spec fn links(&self) -> Seq<Link<T>> {
        self.links@
    }

    /// The cursors placed here, by slot.
    pub closed spec fn cursors(&self) -> Seq<Cursor<T>> {
        self.cursors@
    }

    /// The cursor sets placed here, by slot.
    pub closed spec fn sets(&self) -> Seq<CursorSet<T>> {
        self.sets@
    }

    /// Every reference held here names a slot that is placed.
    pub open spec fn wf(&self) -> bool {
        let links = self.links();
        let cursors = self.cursors();
        let sets = self.sets();
        &&& forall|i: int| #![trigger links[i]] 0 <= i < links.len() ==> {
            &&& names_below(links[i].prev_link(), links.len() as int)
            &&& names_below(links[i].next_link(), links.len() as int)
            &&& names_below(links[i].collection(), sets.len() as int)
        }
        &&& forall|i: int| #![trigger cursors[i]] 0 <= i < cursors.len() ==> {
            &&& names_below(cursors[i].at(), links.len() as int)
            &&& names_below(cursors[i].prev_cursor(), cursors.len() as int)
            &&& names_below(cursors[i].next_cursor(), cursors.len() as int)
            &&& names_below(cursors[i].set(), sets.len() as int)
        }
        &&& forall|i: int| #![trigger sets[i]] 0 <= i < sets.len() ==> names_below(
            sets[i].first(),
            cursors.len() as int,
        )
    }

    /// The cursor reached from `start` after `k` steps along the chain, forwards or backwards.
    pub open spec fn walk(&self, start: Option<usize>, k: nat, forwards: bool) -> Option<usize>
        decreases k,
    {
        if k == 0 {
            start
        } else {
            match self.walk(start, (k - 1) as nat, forwards) {
                Some(c) => if c < self.cursors().len() {
                    if forwards {
                        self.cursors()[c as int].next_cursor()
                    } else {
                        self.cursors()[c as int].prev_cursor()
                    }
                } else {
                    None
                },
                None => None,
            }
        }
    }

    /// The chain from the first cursor of set `s` ends, in both directions, within as many steps
    /// as there are cursors.
    pub open spec fn chain_ends(&self, s: int) -> bool {
        let n = self.cursors().len();
        &&& self.walk(self.sets()[s].first(), n, true) is None
        &&& self.walk(self.sets()[s].first(), n, false) is None
    }

    /// `c` names a cursor placed here that is at `link`.
    pub open spec fn is_cursor_at(&self, c: Option<usize>, link: usize) -> bool {
        match c {
            Some(c) => c < self.cursors().len() && self.cursors()[c as int].at() == Some(link),
            None => false,
        }
    }

    /// Some cursor of the chain of set `s` is at `link`.
    pub open spec fn cursor_at(&self, s: int, link: usize) -> bool {
        exists|k: nat, forwards: bool|
            k <= self.cursors().len() && #[trigger] self.is_cursor_at(
                self.walk(self.sets()[s].first(), k, forwards),
                link,
            )
    }

    /// Link `this` may be dropped: it belongs to no collection, or the cursor chain of its
    /// collection ends and no cursor of it is at `this`.
    pub open spec fn may_unlink(&self, this: usize) -> bool {
        match self.links()[this as int].collection() {
            Some(s) => self.chain_ends(s as int) && !self.cursor_at(s as int, this),
            None => true,
        }
    }

    /// An empty space.
    pub fn new() -> (r: Self)
        ensures
            r.wf(),
            r.links() == Seq::<Link<T>>::empty(),
            r.cursors() == Seq::<Cursor<T>>::empty(),
            r.sets() == Seq::<CursorSet<T>>::empty(),
    {
        LinkSpace { links: Vec::new(), cursors: Vec::new(), sets: Vec::new() }
    }

    /// Places an unlinked link that belongs to no collection, and returns its slot.
    pub fn place_link(&mut self, link: Link<T>) -> (r: usize)
        requires
            old(self).wf(),
            link.prev_link() is None,
            link.next_link() is None,
            link.collection() is None,
        ensures
            final(self).wf(),
            r == old(self).links().len(),
            final(self).links() == old(self).links().push(link),
            final(self).cursors() == old(self).cursors(),
            final(self).sets() == old(self).sets(),
    {
        let r = self.links.len();
        self.links.push(link);
        proof {
            assert forall|i: int| 0 <= i < self.links@.len() implies {
                &&& names_below(self.links@[i].prev_link(), self.links@.len() as int)
                &&& names_below(self.links@[i].next_link(), self.links@.len() as int)
                &&& names_below(self.links@[i].collection(), self.sets@.len() as int)
            } by {
                if i < r {
                    assert(old(self).links()[i] == self.links@[i]);
                }
            }
            assert forall|i: int| 0 <= i < self.cursors@.len() implies names_below(
                #[trigger] self.cursors@[i].at(),
                self.links@.len() as int,
            ) by {
                assert(old(self).cursors()[i] == self.cursors@[i]);
            }
        }
        r
    }

    /// Places a cursor set without cursors, and returns its slot.
    pub fn place_set(&mut self, set: CursorSet<T>) -> (r: usize)
        requires
            old(self).wf(),
            set.first() is None,
        ensures
            final(self).wf(),
            r == old(self).sets().len(),
            final(self).sets() == old(self).sets().push(set),
            final(self).links() == old(self).links(),
            final(self).cursors() == old(self).cursors(),
    {
        let r = self.sets.len();
        self.sets.push(set);
        proof {
            assert forall|i: int| 0 <= i < self.sets@.len() implies names_below(
                #[trigger] self.sets@[i].first(),
                self.cursors@.len() as int,
            ) by {
                if i < r {
                    assert(old(self).sets()[i] == self.sets@[i]);
                }
            }
            assert forall|i: int| 0 <= i < self.links@.len() implies names_below(
                #[trigger] self.links@[i].collection(),
                self.sets@.len() as int,
            ) by {
                assert(old(self).links()[i] == self.links@[i]);
            }
            assert forall|i: int| 0 <= i < self.cursors@.len() implies names_below(
                #[trigger] self.cursors@[i].set(),
                self.sets@.len() as int,
            ) by {
                assert(old(self).cursors()[i] == self.cursors@[i]);
            }
        }
        r
    }

    /// The element of link `id`.
    pub fn elem(&self, id: usize) -> (r: &T)
        requires
            id < self.links().len(),
        ensures
            *r == self.links()[id as int].value(),
    {
        &self.links[id].elem
    }

    /// The link before link `id`.
    pub fn prev(&self, id: usize) -> (r: Option<usize>)
        requires
            id < self.links().len(),
        ensures
            r == self.links()[id as int].prev_link(),
    {
        self.links[id].prev
    }

    /// The link after link `id`.
    pub fn next(&self, id: usize) -> (r: Option<usize>)
        requires
            id < self.links().len(),
        ensures
            r == self.links()[id as int].next_link(),
    {
        self.links[id].next
    }

    /// The collection link `id` belongs to.
    pub fn collection(&self, id: usize) -> (r: Option<usize>)
        requires
            id < self.links().len(),
        ensures
            r == self.links()[id as int].collection(),
    {
        self.links[id].collection
    }

    /// Gives link `id` a new predecessor.
    fn set_prev(&mut self, id: usize, prev: Option<usize>)
        requires
            id < old(self).links().len(),
        ensures
            final(self).links() == old(self).links().update(
                id as int,
                old(self).links()[id as int].with_prev(prev),
            ),
            final(self).cursors() == old(self).cursors(),
            final(self).sets() == old(self).sets(),
    {
        self.links[id].prev = prev;
    }

    /// Gives link `id` a new successor.
    fn set_next(&mut self, id: usize, next: Option<usize>)
        requires
            id < old(self).links().len(),
        ensures
            final(self).links() == old(self).links().update(
                id as int,
                old(self).links()[id as int].with_next(next),
            ),
            final(self).cursors() == old(self).cursors(),
            final(self).sets() == old(self).sets(),
    {
        self.links[id].next = next;
    }

    /// Moves link `id` into another collection.
    pub(crate) fn set_collection(&mut self, id: usize, collection: Option<usize>)
        requires
            id < old(self).links().len(),
        ensures
            final(self).links() == old(self).links().update(
                id as int,
                old(self).links()[id as int].with_collection(collection),
            ),
            final(self).cursors() == old(self).cursors(),
            final(self).sets() == old(self).sets(),
    {
        self.links[id].collection = collection;
    }
    /// Puts link `link` behind link `this`, into the collection of `this`.
    pub fn link_after(&mut self, this: usize, link: usize)
        requires
            old(self).wf(),
            this < old(self).links().len(),
            link < old(self).links().len(),
            this != link,
            old(self).links()[link as int].collection() is None,
        ensures
            final(self).wf(),
            final(self).links() == linked_after(old(self).links(), this as int, link as int),
            final(self).cursors() == old(self).cursors(),
            final(self).sets() == old(self).sets(),
    {
        let collection = self.links[this].collection;
        self.set_collection(link, collection);
        match self.links[this].next {
            Some(n) => {
                self.set_prev(n, Some(link));
            },
            None => {},
        }
        self.set_next(this, Some(link));
        proof {
            self.lemma_links_wf(old(self));
        }
    }

    /// Puts link `link` in front of link `this`, into the collection of `this`.
    pub fn link_before(&mut self, this: usize, link: usize)
        requires
            old(self).wf(),
            this < old(self).links().len(),
            link < old(self).links().len(),
            this != link,
            old(self).links()[link as int].collection() is None,
        ensures
            final(self).wf(),
            final(self).links() == linked_before(old(self).links(), this as int, link as int),
            final(self).cursors() == old(self).cursors(),
            final(self).sets() == old(self).sets(),
    {
        let collection = self.links[this].collection;
        self.set_collection(link, collection);
        match self.links[this].prev {
            Some(p) => {
                self.set_next(p, Some(link));
            },
            None => {},
        }
        self.set_prev(this, Some(link));
        proof {
            self.lemma_links_wf(old(self));
        }
    }

    /// A space whose links refer only to slots that `before` had, and that has as many links,
    /// cursors and sets as `before`, is well formed where `before` was.
    proof fn lemma_links_wf(&self, before: &Self)
        requires
            before.wf(),
            self.links().len() == before.links().len(),
            self.cursors() == before.cursors(),
            self.sets() == before.sets(),
            forall|i: int| #![trigger self.links()[i]] 0 <= i < self.links().len() ==> {
                &&& names_below(self.links()[i].prev_link(), self.links().len() as int)
                &&& names_below(self.links()[i].next_link(), self.links().len() as int)
                &&& names_below(self.links()[i].collection(), self.sets().len() as int)
            },
        ensures
            self.wf(),
    {
    }
    /// Every step of a walk from a placed cursor ends at a placed cursor or nowhere.
    proof fn lemma_walk_names(&self, start: Option<usize>, k: nat, forwards: bool)
        requires
            self.wf(),
            names_below(start, self.cursors().len() as int),
        ensures
            names_below(self.walk(start, k, forwards), self.cursors().len() as int),
        decreases k,
    {
        if k > 0 {
            self.lemma_walk_names(start, (k - 1) as nat, forwards);
        }
    }

    /// Once a walk has run off the chain, it stays off.
    proof fn lemma_walk_stays_off(&self, start: Option<usize>, a: nat, b: nat, forwards: bool)
        requires
            a <= b,
            self.walk(start, a, forwards) is None,
        ensures
            self.walk(start, b, forwards) is None,
        decreases b - a,
    {
        if a < b {
            self.lemma_walk_stays_off(start, a, (b - 1) as nat, forwards);
        }
    }

    /// Walks the chain of set `s` in one direction; whether a cursor on it is at `link`.
    fn scan_chain(&self, s: usize, link: usize, forwards: bool) -> (r: bool)
        requires
            self.wf(),
            s < self.sets().len(),
            self.chain_ends(s as int),
        ensures
            r == exists|k: nat|
                k <= self.cursors().len() && #[trigger] self.is_cursor_at(
                    self.walk(self.sets()[s as int].first(), k, forwards),
                    link,
                ),
    {
        let first = self.sets[s].init;
        let ghost n = self.cursors@.len();
        let mut cur = first;
        let ghost mut steps: nat = 0;
        proof {
            assert(self.sets()[s as int] == self.sets@[s as int]);
        }
        while cur.is_some()
            invariant
                self.wf(),
                s < self.sets().len(),
                self.chain_ends(s as int),
                first == self.sets()[s as int].first(),
                n == self.cursors().len(),
                steps <= n,
                cur == self.walk(first, steps, forwards),
                forall|k: nat|
                    k < steps ==> !#[trigger] self.is_cursor_at(self.walk(first, k, forwards), link),
            decreases n - steps,
        {
            let c = cur.unwrap();
            proof {
                self.lemma_walk_names(first, steps, forwards);
                assert(self.cursors()[c as int] == self.cursors@[c as int]);
            }
            if self.cursors[c].invalidate(link) {
                assert(self.is_cursor_at(self.walk(first, steps, forwards), link));
                return true;
            }
            cur = if forwards {
                self.cursors[c].next
            } else {
                self.cursors[c].prev
            };
            proof {
                steps = steps + 1;
            }
        }
        proof {
            assert forall|k: nat| k <= n implies !#[trigger] self.is_cursor_at(
                self.walk(first, k, forwards),
                link,
            ) by {
                if k >= steps {
                    self.lemma_walk_stays_off(first, steps, k, forwards);
                }
            }
        }
        false
    }

    /// Whether a cursor of set `s` is at link `link`; such a link may not go away.
    pub fn invalidate(&self, s: usize, link: usize) -> (r: bool)
        requires
            self.wf(),
            s < self.sets().len(),
            self.chain_ends(s as int),
        ensures
            r == self.cursor_at(s as int, link),
    {
        let ahead = self.scan_chain(s, link, true);
        let behind = self.scan_chain(s, link, false);
        proof {
            if self.cursor_at(s as int, link) {
                let (k, forwards) = choose|k: nat, forwards: bool|
                    k <= self.cursors().len() && #[trigger] self.is_cursor_at(
                        self.walk(self.sets()[s as int].first(), k, forwards),
                        link,
                    );
                if forwards {
                    assert(ahead);
                } else {
                    assert(behind);
                }
            }
            if ahead {
                let k = choose|k: nat|
                    k <= self.cursors().len() && #[trigger] self.is_cursor_at(
                        self.walk(self.sets()[s as int].first(), k, true),
                        link,
                    );
                assert(self.is_cursor_at(self.walk(self.sets()[s as int].first(), k, true), link));
            }
            if behind {
                let k = choose|k: nat|
                    k <= self.cursors().len() && #[trigger] self.is_cursor_at(
                        self.walk(self.sets()[s as int].first(), k, false),
                        link,
                    );
                assert(self.is_cursor_at(self.walk(self.sets()[s as int].first(), k, false), link));
            }
        }
        ahead || behind
    }

    /// Takes link `this` out of its list, as dropping it does: its neighbours are joined to each
    /// other and it keeps neither. A link at which a cursor of its collection stands may not be
    /// dropped.
    pub fn unlink(&mut self, this: usize)
        requires
            old(self).wf(),
            this < old(self).links().len(),
            old(self).may_unlink(this),
        ensures
            final(self).wf(),
            final(self).links() == unlinked(old(self).links(), this as int),
            final(self).cursors() == old(self).cursors(),
            final(self).sets() == old(self).sets(),
    {
        let prev = self.links[this].prev;
        let next = self.links[this].next;
        match prev {
            Some(p) => {
                self.set_next(p, next);
            },
            None => {},
        }
        match next {
            Some(n) => {
                self.set_prev(n, prev);
            },
            None => {},
        }
        self.set_prev(this, None);
        self.set_next(this, None);
        proof {
            self.lemma_links_wf(old(self));
        }
    }
    /// Gives cursor `id` a new predecessor.
    fn set_cursor_prev(&mut self, id: usize, prev: Option<usize>)
        requires
            id < old(self).cursors().len(),
        ensures
            final(self).cursors() == old(self).cursors().update(
                id as int,
                old(self).cursors()[id as int].with_prev(prev),
            ),
            final(self).links() == old(self).links(),
            final(self).sets() == old(self).sets(),
    {
        self.cursors[id].prev = prev;
    }

    /// Gives cursor `id` a new successor.
    fn set_cursor_next(&mut self, id: usize, next: Option<usize>)
        requires
            id < old(self).cursors().len(),
        ensures
            final(self).cursors() == old(self).cursors().update(
                id as int,
                old(self).cursors()[id as int].with_next(next),
            ),
            final(self).links() == old(self).links(),
            final(self).sets() == old(self).sets(),
    {
        self.cursors[id].next = next;
    }

    /// Takes cursor `this` out of its set's chain, as dropping it does: its neighbours are joined
    /// to each other, its set starts from one of them, and it keeps no neighbour and no set.
    pub fn unlink_cursor(&mut self, this: usize)
        requires
            old(self).wf(),
            this < old(self).cursors().len(),
        ensures
            final(self).wf(),
            final(self).cursors() == cursor_unlinked(old(self).cursors(), this as int),
            final(self).sets() == sets_after_cursor_unlinked(
                old(self).cursors(),
                old(self).sets(),
                this as int,
            ),
            final(self).links() == old(self).links(),
    {
        let prev = self.cursors[this].prev;
        let next = self.cursors[this].next;
        match prev {
            Some(p) => {
                self.set_cursor_next(p, next);
            },
            None => {},
        }
        match next {
            Some(n) => {
                self.set_cursor_prev(n, prev);
            },
            None => {},
        }
        let other = self.cursors[this].get_other();
        match self.cursors[this].set {
            Some(s) => {
                self.sets[s].init = other;
            },
            None => {},
        }
        self.cursors[this].set = None;
        self.cursors[this].prev = None;
        self.cursors[this].next = None;
        proof {
            let cursors = self.cursors();
            let sets = self.sets();
            assert forall|i: int| #![trigger cursors[i]] 0 <= i < cursors.len() implies {
                &&& names_below(cursors[i].at(), self.links().len() as int)
                &&& names_below(cursors[i].prev_cursor(), cursors.len() as int)
                &&& names_below(cursors[i].next_cursor(), cursors.len() as int)
                &&& names_below(cursors[i].set(), sets.len() as int)
            } by {
                assert(old(self).cursors()[i] == old(self).cursors@[i]);
            }
        }
    }
}

/// The links numbered by `order` form one doubly linked list in that order: each names the one
/// before it and the one after it, and the ends name nothing beyond.
pub open spec fn is_chain<T>(links: Seq<Link<T>>, order: Seq<usize>) -> bool {
    &&& order.no_duplicates()
    &&& forall|k: int| 0 <= k < order.len() ==> (#[trigger] order[k]) < links.len()
    &&& forall|k: int|
        0 <= k < order.len() ==> (#[trigger] links[order[k] as int]).prev_link() == if k == 0 {
            None
        } else {
            Some(order[k - 1])
        }
    &&& forall|k: int|
        0 <= k < order.len() ==> (#[trigger] links[order[k] as int]).next_link() == if k + 1
            < order.len() {
            Some(order[k + 1])
        } else {
            None
        }
}

/// Taking the link at position `p` out of a list leaves the list without it, in the same order;
/// the link keeps no neighbours, and links outside the list are untouched.
pub proof fn lemma_unlink_removes_from_chain<T>(links: Seq<Link<T>>, order: Seq<usize>, p: int)
    requires
        is_chain(links, order),
        0 <= p < order.len(),
    ensures
        is_chain(unlinked(links, order[p] as int), order.remove(p)),
        unlinked(links, order[p] as int)[order[p] as int].prev_link() is None,
        unlinked(links, order[p] as int)[order[p] as int].next_link() is None,
        forall|i: int|
            0 <= i < links.len() && !order.contains(i as usize) ==> #[trigger] unlinked(
                links,
                order[p] as int,
            )[i] == links[i],
{
    let this = order[p] as int;
    let u = unlinked(links, this);
    let o2 = order.remove(p);
    assert(links[this].prev_link() == if p == 0 { None } else { Some(order[p - 1]) });
    assert(links[this].next_link() == if p + 1 < order.len() { Some(order[p + 1]) } else { None });
    assert forall|i: int|
        0 <= i < links.len() && i != this && (p == 0 || i != order[p - 1]) && (p + 1
            >= order.len() || i != order[p + 1]) implies u[i] == links[i] by {}
    if p > 0 {
        assert(u[order[p - 1] as int].next_link() == links[this].next_link());
        assert(u[order[p - 1] as int].prev_link() == links[order[p - 1] as int].prev_link()) by {
            assert(order[p - 1] != order[p]);
            if p + 1 < order.len() {
                assert(order[p - 1] != order[p + 1]);
            }
        }
    }
    if p + 1 < order.len() {
        assert(u[order[p + 1] as int].prev_link() == links[this].prev_link());
        assert(u[order[p + 1] as int].next_link() == links[order[p + 1] as int].next_link()) by {
            assert(order[p + 1] != order[p]);
        }
    }
    assert forall|k: int| 0 <= k < o2.len() implies (#[trigger] u[o2[k] as int]).prev_link()
        == if k == 0 {
        None
    } else {
        Some(o2[k - 1])
    } by {
        let j = if k < p { k } else { k + 1 };
        assert(o2[k] == order[j]);
        assert(j != p);
        if k > 0 {
            let jp = if k - 1 < p { k - 1 } else { k };
            assert(o2[k - 1] == order[jp]);
        }
        if j == p + 1 {
        } else if p > 0 && j == p - 1 {
        } else {
            assert(order[j] != order[p]);
            assert(p == 0 || order[j] != order[p - 1]);
            assert(p + 1 >= order.len() || order[j] != order[p + 1]);
        }
    }
    assert forall|k: int| 0 <= k < o2.len() implies (#[trigger] u[o2[k] as int]).next_link()
        == if k + 1 < o2.len() {
        Some(o2[k + 1])
    } else {
        None
    } by {
        let j = if k < p { k } else { k + 1 };
        assert(o2[k] == order[j]);
        assert(j != p);
        if k + 1 < o2.len() {
            let jn = if k + 1 < p { k + 1 } else { k + 2 };
            assert(o2[k + 1] == order[jn]);
        }
        if p > 0 && j == p - 1 {
        } else if j == p + 1 {
        } else {
            assert(order[j] != order[p]);
            assert(p == 0 || order[j] != order[p - 1]);
            assert(p + 1 >= order.len() || order[j] != order[p + 1]);
        }
    }
    assert forall|k: int| 0 <= k < o2.len() implies (#[trigger] o2[k]) < u.len() by {
        let j = if k < p { k } else { k + 1 };
        assert(o2[k] == order[j]);
    }
    assert forall|i: int|
        0 <= i < links.len() && !order.contains(i as usize) implies #[trigger] u[i] == links[i] by {
        assert(i != this) by {
            assert(order[p] == i as usize ==> order.contains(i as usize));
        }
        if p > 0 {
            assert(order[p - 1] == i as usize ==> order.contains(i as usize));
        }
        if p + 1 < order.len() {
            assert(order[p + 1] == i as usize ==> order.contains(i as usize));
        }
    }
}

} // verus!
