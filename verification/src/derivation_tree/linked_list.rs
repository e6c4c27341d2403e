//! A doubly linked list with cursors that walk it and insert links next to them.
//!
//! The list owns its links; a link is identified by a number, and each link records the links
//! before and after it. A link that was taken out keeps its number, which is not used again.

use vstd::prelude::*;

verus! {

/// A link that holds an element and is not part of a list yet.
pub struct Link<T> {
    elem: T,
}

impl<T> Link<T> {
    /// The element held.
    pub closed spec fn value(&self) -> T {
        self.elem
    }

    /// A link holding `value`.
    pub fn new(value: T) -> (r: Link<T>)
        ensures
            r.value() == value,
    {
        Link { elem: value }
    }
}

/// A doubly linked list.
pub struct LinkedList<T> {
    elems: Vec<T>,
    prev: Vec<Option<usize>>,
    next: Vec<Option<usize>>,
    head: Option<usize>,
    tail: Option<usize>,
    order: Ghost<Seq<usize>>,
}

impl<T> LinkedList<T> {
    /// The links in list order.
    pub closed spec fn order(&self) -> Seq<usize> {
        self.order@
    }

    /// The elements in list order.
    pub closed spec fn view(&self) -> Seq<T> {
        Seq::new(self.order@.len(), |k: int| self.elems@[self.order@[k] as int])
    }

    /// The first link, if any.
    pub closed spec fn head(&self) -> Option<usize> {
        self.head
    }

    /// The last link, if any.
    pub closed spec fn tail(&self) -> Option<usize> {
        self.tail
    }

    /// How many link numbers were given out.
    pub closed spec fn slots(&self) -> nat {
        self.elems@.len()
    }

    /// Every link is in the list at most once, the head and tail are its ends, and each link
    /// records its neighbours in list order.
    pub closed spec fn wf(&self) -> bool {
        let order = self.order@;
        let n = self.elems@.len();
        &&& self.prev@.len() == n
        &&& self.next@.len() == n
        &&& order.len() <= n
        &&& order.no_duplicates()
        &&& forall|k: int| 0 <= k < order.len() ==> (#[trigger] order[k]) < n
        &&& self.head == if order.len() == 0 {
            None
        } else {
            Some(order[0])
        }
        &&& self.tail == if order.len() == 0 {
            None
        } else {
            Some(order[order.len() - 1])
        }
        &&& forall|k: int|
            0 <= k < order.len() ==> self.next@[#[trigger] order[k] as int] == if k + 1
                < order.len() {
                Some(order[k + 1])
            } else {
                None
            }
        &&& forall|k: int|
            0 <= k < order.len() ==> self.prev@[#[trigger] order[k] as int] == if k > 0 {
                Some(order[k - 1])
            } else {
                None
            }
    }

    /// Insert `elem` as a new link at position `k` of the list, between `after` (the link at
    /// `k - 1`, if any) and `before` (the link at `k`, if any), and return its number.
    #[verifier::rlimit(80)]
    pub(crate) fn insert_at(&mut self, Ghost(k): Ghost<int>, after: Option<usize>, before: Option<usize>, elem: T) -> (r: usize)
        requires
            old(self).wf(),
            0 <= k <= old(self).order().len(),
            after == if k > 0 {
                Some(old(self).order()[k - 1])
            } else {
                None
            },
            before == if k < old(self).order().len() {
                Some(old(self).order()[k])
            } else {
                None
            },
        ensures
            final(self).wf(),
            r == old(self).slots(),
            final(self).slots() == old(self).slots() + 1,
            final(self).order() == old(self).order().insert(k, r),
            final(self).view() == old(self).view().insert(k, elem),
    {
        let ghost order = self.order@;
        let ghost n = order.len();
        let ghost next0 = self.next@;
        let ghost prev0 = self.prev@;
        let id = self.elems.len();
        self.elems.push(elem);
        self.prev.push(after);
        self.next.push(before);
        match after {
            Some(a) => self.next.set(a, Some(id)),
            None => self.head = Some(id),
        }
        match before {
            Some(b) => self.prev.set(b, Some(id)),
            None => self.tail = Some(id),
        }
        let ghost o2 = order.insert(k, id);
        self.order = Ghost(o2);
        proof {
            assert forall|x: int| 0 <= x < id && after != Some(x as usize) implies self.next@[x] == next0[x] by {}
            assert forall|x: int| 0 <= x < id && before != Some(x as usize) implies self.prev@[x] == prev0[x] by {}
            lemma_insert_links(order, next0, prev0, self.next@, self.prev@, k, id, after, before);
            assert forall|j: int| 0 <= j < o2.len() implies (#[trigger] o2[j]) < self.elems@.len() by {
                if j < k {
                    assert(o2[j] == order[j]);
                } else if j > k {
                    assert(o2[j] == order[j - 1]);
                }
            }
            assert(self.view() =~= old(self).view().insert(k, elem)) by {
                assert forall|j: int| 0 <= j < o2.len() implies self.view()[j] == old(self).view().insert(k, elem)[j] by {
                    if j < k {
                        assert(o2[j] == order[j]);
                    } else if j > k {
                        assert(o2[j] == order[j - 1]);
                    }
                }
            }
        }
        id
    }

    /// Take link `id` out of the list: the links before and after it are joined to each other,
    /// and it records no neighbours any more. Its number is not given out again.
    #[verifier::rlimit(40)]
    pub(crate) fn remove(&mut self, id: usize)
        requires
            old(self).wf(),
            old(self).has_link(id),
        ensures
            final(self).wf(),
            final(self).slots() == old(self).slots(),
            final(self).order() == old(self).order().remove(old(self).position(id)),
            final(self).view() == old(self).view().remove(old(self).position(id)),
    {
        proof {
            self.lemma_position(id);
        }
        let ghost order = self.order@;
        let ghost k = self.position(id);
        let ghost next0 = self.next@;
        let ghost prev0 = self.prev@;
        let prev = self.prev[id];
        let next = self.next[id];
        match prev {
            Some(p) => self.next.set(p, next),
            None => self.head = next,
        }
        match next {
            Some(n) => self.prev.set(n, prev),
            None => self.tail = prev,
        }
        self.prev.set(id, None);
        self.next.set(id, None);
        let ghost o2 = order.remove(k);
        self.order = Ghost(o2);
        proof {
            let m = order.len();
            assert forall|a: int, b: int| 0 <= a < b < o2.len() implies o2[a] != o2[b] by {
                let a0 = if a < k { a } else { a + 1 };
                let b0 = if b < k { b } else { b + 1 };
                assert(o2[a] == order[a0] && o2[b] == order[b0]);
            }
            assert forall|j: int| 0 <= j < o2.len() implies (#[trigger] o2[j]) != id && o2[j] < self.elems@.len() by {
                let j0 = if j < k { j } else { j + 1 };
                assert(o2[j] == order[j0]);
            }
            assert forall|j: int| 0 <= j < o2.len() implies self.next@[#[trigger] o2[j] as int] == if j + 1
                < o2.len() {
                Some(o2[j + 1])
            } else {
                None
            } by {
                if j < k - 1 {
                    assert(o2[j] == order[j] && o2[j + 1] == order[j + 1]);
                    assert(next0[order[j] as int] == Some(order[j + 1]));
                    assert(order[j] != order[k - 1]);
                } else if j == k - 1 {
                    assert(o2[j] == order[k - 1]);
                    assert(next0[order[k] as int] == if k + 1 < m { Some(order[k + 1]) } else { None });
                    if j + 1 < o2.len() {
                        assert(o2[j + 1] == order[k + 1]);
                    }
                } else {
                    assert(o2[j] == order[j + 1]);
                    assert(next0[order[j + 1] as int] == if j + 2 < m { Some(order[j + 2]) } else { None });
                    if k > 0 {
                        assert(order[j + 1] != order[k - 1]);
                    }
                    if j + 1 < o2.len() {
                        assert(o2[j + 1] == order[j + 2]);
                    }
                }
            }
            assert forall|j: int| 0 <= j < o2.len() implies self.prev@[#[trigger] o2[j] as int] == if j > 0 {
                Some(o2[j - 1])
            } else {
                None
            } by {
                if j < k {
                    assert(o2[j] == order[j]);
                    assert(prev0[order[j] as int] == if j > 0 { Some(order[j - 1]) } else { None });
                    if k + 1 < m {
                        assert(order[j] != order[k + 1]);
                    }
                    if j > 0 {
                        assert(o2[j - 1] == order[j - 1]);
                    }
                } else if j == k {
                    assert(o2[j] == order[k + 1]);
                    assert(prev0[order[k] as int] == if k > 0 { Some(order[k - 1]) } else { None });
                    if j > 0 {
                        assert(o2[j - 1] == order[k - 1]);
                    }
                } else {
                    assert(o2[j] == order[j + 1] && o2[j - 1] == order[j]);
                    assert(prev0[order[j + 1] as int] == Some(order[j]));
                    assert(order[j + 1] != order[k + 1]);
                }
            }
            if o2.len() > 0 {
                if k == 0 {
                    assert(o2[0] == order[1]);
                } else {
                    assert(o2[0] == order[0]);
                }
                if k == m - 1 {
                    assert(o2[o2.len() - 1] == order[m - 2]);
                } else {
                    assert(o2[o2.len() - 1] == order[m - 1]);
                }
            }
            assert(self.view() =~= old(self).view().remove(k)) by {
                assert forall|j: int| 0 <= j < o2.len() implies self.view()[j] == old(self).view().remove(k)[j] by {
                    let j0 = if j < k { j } else { j + 1 };
                    assert(o2[j] == order[j0]);
                }
            }
        }
    }

    /// Insert `link` at the front of the list.
    pub fn insert_front(&mut self, link: Link<T>)
        requires
            old(self).wf(),
        ensures
            final(self).wf(),
            final(self).slots() == old(self).slots() + 1,
            final(self).view() == seq![link.value()] + old(self).view(),
            final(self).order() == seq![old(self).slots() as usize] + old(self).order(),
    {
        let head = self.head;
        let ghost before = self.view();
        self.insert_at(Ghost(0), None, head, link.elem);
        proof {
            assert(before.insert(0, link.value()) =~= seq![link.value()] + before);
            assert(old(self).order().insert(0, old(self).slots() as usize) =~= seq![old(self).slots() as usize] + old(self).order());
        }
    }

    /// Insert `link` at the back of the list: it comes after every link already in it and
    /// becomes the last link.
    pub fn insert_back(&mut self, link: Link<T>)
        requires
            old(self).wf(),
        ensures
            final(self).wf(),
            final(self).slots() == old(self).slots() + 1,
            final(self).view() == old(self).view().push(link.value()),
            final(self).order() == old(self).order().push(old(self).slots() as usize),
    {
        let tail = self.tail;
        let ghost n = self.order@.len();
        let id = self.insert_at(Ghost(n as int), tail, None, link.elem);
        proof {
            assert(old(self).view().insert(n as int, link.value()) =~= old(self).view().push(link.value()));
            assert(old(self).order().insert(n as int, id) =~= old(self).order().push(id));
        }
    }

    /// A cursor at the first link (or at no link, if the list is empty).
    pub fn front(&self) -> (r: Cursor)
        requires
            self.wf(),
        ensures
            r.valid(self),
            r.current() == self.head(),
            r.current() is Some ==> r.pos() == 0,
    {
        Cursor { current: self.head, pos: Ghost(0) }
    }

    /// A cursor that can insert links, at the first link (or at no link, if the list is empty).
    pub fn front_mut(&mut self) -> (r: CursorMut)
        requires
            old(self).wf(),
        ensures
            final(self).wf(),
            final(self).view() == old(self).view(),
            r.valid(final(self)),
            r.current() == old(self).head(),
            r.current() is Some ==> r.pos() == 0,
    {
        CursorMut { current: self.head, pos: Ghost(0) }
    }

    /// The number of links, counted by walking the list.
    pub fn len(&self) -> (r: usize)
        requires
            self.wf(),
        ensures
            r == self.view().len(),
    {
        let ghost order = self.order@;
        let mut cur = self.head;
        let mut count: usize = 0;
        let ghost n = order.len();
        let slots = self.elems.len();
        while cur.is_some()
            invariant
                self.wf(),
                order == self.order@,
                n == order.len(),
                n <= slots,
                count <= n,
                cur == if count < n {
                    Some(order[count as int])
                } else {
                    None
                },
            decreases n - count,
        {
            let id = cur.unwrap();
            cur = self.next[id];
            count = count + 1;
        }
        count
    }

    /// References to the elements in list order.
    pub fn iter(&self) -> (r: Vec<&T>)
        requires
            self.wf(),
        ensures
            r@.len() == self.view().len(),
            forall|k: int| 0 <= k < r@.len() ==> *r@[k] == self.view()[k],
    {
        let ghost order = self.order@;
        let mut cur = self.head;
        let mut count: usize = 0;
        let ghost n = order.len();
        let slots = self.elems.len();
        let mut out: Vec<&T> = Vec::new();
        while cur.is_some()
            invariant
                self.wf(),
                order == self.order@,
                n == order.len(),
                n <= slots,
                count <= n,
                out@.len() == count,
                forall|k: int| 0 <= k < count ==> *out@[k] == self.view()[k],
                cur == if count < n {
                    Some(order[count as int])
                } else {
                    None
                },
            decreases n - count,
        {
            let id = cur.unwrap();
            out.push(&self.elems[id]);
            cur = self.next[id];
            count = count + 1;
        }
        out
    }

    /// Whether `id` is the number of a link in the list.
    pub open spec fn has_link(&self, id: usize) -> bool {
        self.order().contains(id)
    }

    /// Where link `id` stands in the list.
    pub open spec fn position(&self, id: usize) -> int {
        choose|k: int| 0 <= k < self.order().len() && self.order()[k] == id
    }

    /// The list holds each of its link numbers once, they are numbers that were given out, and
    /// the first and last links are the ends of the order.
    pub proof fn lemma_wf(&self)
        requires
            self.wf(),
        ensures
            self.order().len() == self.view().len(),
            self.order().len() <= self.slots(),
            self.order().no_duplicates(),
            forall|j: int| 0 <= j < self.order().len() ==> (#[trigger] self.order()[j]) < self.slots(),
            self.head() == if self.order().len() == 0 {
                None
            } else {
                Some(self.order()[0])
            },
            self.tail() == if self.order().len() == 0 {
                None
            } else {
                Some(self.order()[self.order().len() - 1])
            },
    {
    }

    /// Every link of the list stands at exactly one position.
    pub proof fn lemma_position(&self, id: usize)
        requires
            self.wf(),
            self.has_link(id),
        ensures
            0 <= self.position(id) < self.order().len(),
            self.order()[self.position(id)] == id,
            forall|k: int| 0 <= k < self.order().len() && self.order()[k] == id ==> k == self.position(id),
    {
        let order = self.order@;
        assert(exists|k: int| 0 <= k < order.len() && order[k] == id);
    }

    /// The link after link `id`, if any.
    pub fn next_link(&self, id: usize) -> (r: Option<usize>)
        requires
            self.wf(),
            self.has_link(id),
        ensures
            r == if self.position(id) + 1 < self.order().len() {
                Some(self.order()[self.position(id) + 1])
            } else {
                None
            },
    {
        proof {
            self.lemma_position(id);
        }
        self.next[id]
    }

    /// The link before link `id`, if any.
    pub fn prev_link(&self, id: usize) -> (r: Option<usize>)
        requires
            self.wf(),
            self.has_link(id),
        ensures
            r == if self.position(id) > 0 {
                Some(self.order()[self.position(id) - 1])
            } else {
                None
            },
    {
        proof {
            self.lemma_position(id);
        }
        self.prev[id]
    }

    /// The element of link `id`.
    pub fn elem(&self, id: usize) -> (r: &T)
        requires
            self.wf(),
            self.has_link(id),
        ensures
            *r == self.view()[self.position(id)],
    {
        proof {
            self.lemma_position(id);
        }
        &self.elems[id]
    }

    /// Replace the element of link `id`.
    pub fn set_elem(&mut self, id: usize, value: T)
        requires
            old(self).wf(),
            old(self).has_link(id),
        ensures
            final(self).wf(),
            final(self).slots() == old(self).slots(),
            final(self).order() == old(self).order(),
            final(self).view() == old(self).view().update(old(self).position(id), value),
    {
        proof {
            old(self).lemma_position(id);
        }
        self.elems.set(id, value);
        proof {
            assert(self.view() =~= old(self).view().update(old(self).position(id), value));
        }
    }

    /// An empty list.
    pub fn new() -> (r: Self)
        ensures
            r.wf(),
            r.view() == Seq::<T>::empty(),
            r.order() == Seq::<usize>::empty(),
            r.slots() == 0,
    {
        let r = LinkedList {
            elems: Vec::new(),
            prev: Vec::new(),
            next: Vec::new(),
            head: None,
            tail: None,
            order: Ghost(Seq::empty()),
        };
        proof {
            assert(r.view() =~= Seq::<T>::empty());
        }
        r
    }
}

/// Inserting link `id` at position `k` of `order`, between `after` and `before`, and pointing
/// the neighbours at it gives links that follow the new order.
proof fn lemma_insert_links(
    order: Seq<usize>,
    next0: Seq<Option<usize>>,
    prev0: Seq<Option<usize>>,
    next1: Seq<Option<usize>>,
    prev1: Seq<Option<usize>>,
    k: int,
    id: usize,
    after: Option<usize>,
    before: Option<usize>,
)
    requires
        order.no_duplicates(),
        forall|j: int| 0 <= j < order.len() ==> (#[trigger] order[j]) < id,
        0 <= k <= order.len(),
        after == if k > 0 {
            Some(order[k - 1])
        } else {
            None
        },
        before == if k < order.len() {
            Some(order[k])
        } else {
            None
        },
        forall|j: int|
            0 <= j < order.len() ==> next0[#[trigger] order[j] as int] == if j + 1 < order.len() {
                Some(order[j + 1])
            } else {
                None
            },
        forall|j: int|
            0 <= j < order.len() ==> prev0[#[trigger] order[j] as int] == if j > 0 {
                Some(order[j - 1])
            } else {
                None
            },
        next1[id as int] == before,
        prev1[id as int] == after,
        forall|x: int| 0 <= x < id && after != Some(x as usize) ==> next1[x] == next0[x],
        forall|x: int| 0 <= x < id && before != Some(x as usize) ==> prev1[x] == prev0[x],
        after matches Some(a) ==> next1[a as int] == Some(id),
        before matches Some(b) ==> prev1[b as int] == Some(id),
    ensures
        ({
            let o2 = order.insert(k, id);
            &&& o2.no_duplicates()
            &&& forall|j: int|
                0 <= j < o2.len() ==> next1[#[trigger] o2[j] as int] == if j + 1 < o2.len() {
                    Some(o2[j + 1])
                } else {
                    None
                }
            &&& forall|j: int|
                0 <= j < o2.len() ==> prev1[#[trigger] o2[j] as int] == if j > 0 {
                    Some(o2[j - 1])
                } else {
                    None
                }
        }),
{
    let o2 = order.insert(k, id);
    let n = order.len();
    assert forall|j: int| 0 <= j < o2.len() implies next1[#[trigger] o2[j] as int] == if j + 1
        < o2.len() {
        Some(o2[j + 1])
    } else {
        None
    } by {
        if j < k - 1 {
            assert(o2[j] == order[j] && o2[j + 1] == order[j + 1]);
            assert(order[j] != order[k - 1]);
            assert(order[j] < id);
        } else if j == k - 1 {
        } else if j == k {
        } else {
            assert(o2[j] == order[j - 1]);
            assert(order[j - 1] < id);
            if k > 0 {
                assert(order[j - 1] != order[k - 1]);
            }
            if j + 1 < o2.len() {
                assert(o2[j + 1] == order[j]);
            }
        }
    }
    assert forall|j: int| 0 <= j < o2.len() implies prev1[#[trigger] o2[j] as int] == if j > 0 {
        Some(o2[j - 1])
    } else {
        None
    } by {
        if j < k {
            assert(o2[j] == order[j]);
            assert(order[j] < id);
            if k < n {
                assert(order[j] != order[k]);
            }
            if j > 0 {
                assert(o2[j - 1] == order[j - 1]);
            }
        } else if j == k {
        } else if j == k + 1 {
            assert(o2[j] == order[k]);
        } else {
            assert(o2[j] == order[j - 1] && o2[j - 1] == order[j - 2]);
            assert(order[j - 1] < id);
            assert(order[j - 1] != order[k]);
        }
    }
    assert forall|a: int, b: int| 0 <= a < b < o2.len() implies o2[a] != o2[b] by {
        if a != k && b != k {
            let a0 = if a < k {
                a
            } else {
                a - 1
            };
            let b0 = if b < k {
                b
            } else {
                b - 1
            };
            assert(o2[a] == order[a0] && o2[b] == order[b0]);
        } else if a == k {
            let b0 = b - 1;
            assert(o2[b] == order[b0]);
            assert(order[b0] < id);
        } else {
            assert(o2[a] == order[a]);
            assert(order[a] < id);
        }
    }
}

/// A cursor that walks a list: it stands at a link, or at no link after moving past an end.
pub struct Cursor {
    current: Option<usize>,
    pos: Ghost<int>,
}

/// A cursor that walks a list and inserts links next to where it stands.
pub struct CursorMut {
    current: Option<usize>,
    pos: Ghost<int>,
}

impl Cursor {
    /// The link the cursor stands at.
    pub closed spec fn current(&self) -> Option<usize> {
        self.current
    }

    /// The position in the list of the link the cursor stands at.
    pub closed spec fn pos(&self) -> int {
        self.pos@
    }

    /// The cursor stands at no link, or at the link at its position in `list`.
    pub open spec fn valid<T>(&self, list: &LinkedList<T>) -> bool {
        self.current() matches Some(id) ==> 0 <= self.pos() < list.order().len() && list.order()[self.pos()] == id
    }

    /// The element at the cursor, if it stands at a link.
    pub fn get<'a, T>(&self, list: &'a LinkedList<T>) -> (r: Option<&'a T>)
        requires
            list.wf(),
            self.valid(list),
        ensures
            r is Some <==> self.current() is Some,
            r matches Some(v) ==> *v == list.view()[self.pos()],
    {
        match self.current {
            Some(id) => Some(&list.elems[id]),
            None => None,
        }
    }

    /// Move to the next link; past the last one the cursor stands at no link, and there it
    /// stays.
    pub fn move_next<T>(&mut self, list: &LinkedList<T>)
        requires
            list.wf(),
            old(self).valid(list),
        ensures
            final(self).valid(list),
            final(self).current() == match old(self).current() {
                None => None,
                Some(_) => if old(self).pos() + 1 < list.order().len() {
                    Some(list.order()[old(self).pos() + 1])
                } else {
                    None
                },
            },
            old(self).current() is Some ==> final(self).pos() == old(self).pos() + 1,
    {
        match self.current {
            Some(id) => {
                self.current = list.next[id];
                self.pos = Ghost(self.pos@ + 1);
            },
            None => {},
        }
    }

    /// Move to the previous link; before the first one the cursor stands at no link, and there
    /// it stays.
    pub fn move_prev<T>(&mut self, list: &LinkedList<T>)
        requires
            list.wf(),
            old(self).valid(list),
        ensures
            final(self).valid(list),
            final(self).current() == match old(self).current() {
                None => None,
                Some(_) => if old(self).pos() > 0 {
                    Some(list.order()[old(self).pos() - 1])
                } else {
                    None
                },
            },
            old(self).current() is Some ==> final(self).pos() == old(self).pos() - 1,
    {
        match self.current {
            Some(id) => {
                self.current = list.prev[id];
                self.pos = Ghost(self.pos@ - 1);
            },
            None => {},
        }
    }
}

impl CursorMut {
    /// The link the cursor stands at.
    pub closed spec fn current(&self) -> Option<usize> {
        self.current
    }

    /// The position in the list of the link the cursor stands at.
    pub closed spec fn pos(&self) -> int {
        self.pos@
    }

    /// The cursor stands at no link, or at the link at its position in `list`.
    pub open spec fn valid<T>(&self, list: &LinkedList<T>) -> bool {
        self.current() matches Some(id) ==> 0 <= self.pos() < list.order().len() && list.order()[self.pos()] == id
    }

    /// The element at the cursor, if it stands at a link.
    pub fn get<'a, T>(&self, list: &'a LinkedList<T>) -> (r: Option<&'a T>)
        requires
            list.wf(),
            self.valid(list),
        ensures
            r is Some <==> self.current() is Some,
            r matches Some(v) ==> *v == list.view()[self.pos()],
    {
        match self.current {
            Some(id) => Some(&list.elems[id]),
            None => None,
        }
    }

    /// Move to the next link; past the last one the cursor stands at no link, and there it
    /// stays.
    pub fn move_next<T>(&mut self, list: &LinkedList<T>)
        requires
            list.wf(),
            old(self).valid(list),
        ensures
            final(self).valid(list),
            final(self).current() == match old(self).current() {
                None => None,
                Some(_) => if old(self).pos() + 1 < list.order().len() {
                    Some(list.order()[old(self).pos() + 1])
                } else {
                    None
                },
            },
            old(self).current() is Some ==> final(self).pos() == old(self).pos() + 1,
    {
        match self.current {
            Some(id) => {
                self.current = list.next[id];
                self.pos = Ghost(self.pos@ + 1);
            },
            None => {},
        }
    }

    /// Move to the previous link; before the first one the cursor stands at no link, and there
    /// it stays.
    pub fn move_prev<T>(&mut self, list: &LinkedList<T>)
        requires
            list.wf(),
            old(self).valid(list),
        ensures
            final(self).valid(list),
            final(self).current() == match old(self).current() {
                None => None,
                Some(_) => if old(self).pos() > 0 {
                    Some(list.order()[old(self).pos() - 1])
                } else {
                    None
                },
            },
            old(self).current() is Some ==> final(self).pos() == old(self).pos() - 1,
    {
        match self.current {
            Some(id) => {
                self.current = list.prev[id];
                self.pos = Ghost(self.pos@ - 1);
            },
            None => {},
        }
    }

    /// Insert `link` before the cursor's link, or at the front of an empty list, where the
    /// cursor then stands at it. The cursor stays at its link.
    pub fn insert_before<T>(&mut self, list: &mut LinkedList<T>, link: Link<T>)
        requires
            old(list).wf(),
            old(self).valid(old(list)),
            old(self).current() is None ==> old(list).order().len() == 0,
        ensures
            final(list).wf(),
            final(self).valid(final(list)),
            final(list).view() == old(list).view().insert(
                if old(self).current() is Some {
                    old(self).pos()
                } else {
                    0
                },
                link.value(),
            ),
            old(self).current() is Some ==> final(self).current() == old(self).current()
                && final(self).pos() == old(self).pos() + 1,
            old(self).current() is None ==> final(self).current() == Some(old(list).slots() as usize) && final(self).pos() == 0,
    {
        match self.current {
            None => {
                let id = list.insert_at(Ghost(0), None, None, link.elem);
                self.current = Some(id);
                self.pos = Ghost(0);
            },
            Some(id) => {
                let after = list.prev[id];
                let ghost p = self.pos@;
                proof {
                    if p > 0 {
                        let q = p - 1;
                        assert(list.prev@[list.order@[q + 1] as int] == Some(list.order@[q]));
                    }
                }
                list.insert_at(Ghost(p), after, Some(id), link.elem);
                self.pos = Ghost(p + 1);
            },
        }
    }

    /// Insert `link` after the cursor's link, or into an empty list, where the cursor then
    /// stands at it. The cursor stays at its link.
    pub fn insert_after<T>(&mut self, list: &mut LinkedList<T>, link: Link<T>)
        requires
            old(list).wf(),
            old(self).valid(old(list)),
            old(self).current() is None ==> old(list).order().len() == 0,
        ensures
            final(list).wf(),
            final(self).valid(final(list)),
            final(list).view() == old(list).view().insert(
                if old(self).current() is Some {
                    old(self).pos() + 1
                } else {
                    0
                },
                link.value(),
            ),
            old(self).current() is Some ==> final(self).current() == old(self).current()
                && final(self).pos() == old(self).pos(),
            old(self).current() is None ==> final(self).current() == Some(old(list).slots() as usize) && final(self).pos() == 0,
    {
        match self.current {
            None => {
                let id = list.insert_at(Ghost(0), None, None, link.elem);
                self.current = Some(id);
                self.pos = Ghost(0);
            },
            Some(id) => {
                let before = list.next[id];
                let ghost p = self.pos@;
                list.insert_at(Ghost(p + 1), Some(id), before, link.elem);
            },
        }
    }
}

} // verus!
