use vstd::prelude::*;

use crate::ring::{
    lemma_links_at, lemma_links_insert, lemma_links_remove, lemma_links_same, lemma_links_single,
    links_ok, Slot,
};

verus! {

/// The owning reference to one element of a list, returned by insertion.
///
/// It names the slot that holds the element and the stamp the slot carried
/// when the element went in. It cannot be copied, so it is spent by the one
/// call that removes its element.
pub struct Handle {
    slot: usize,
    stamp: u64,
}

impl Handle {
    /// What identifies the element this handle refers to; see `List::ids`.
    pub closed spec fn id(&self) -> (usize, u64) {
        (self.slot, self.stamp)
    }
}

impl<T> ListHandle<T> for Handle {
    open spec fn handle_id(&self) -> (usize, u64) {
        self.id()
    }

    fn unlink(self, list: &mut List<T>) -> (r: Result<T, HandleError>) {
        if !list.find(&self) {
            return Err(HandleError::StaleHandle);
        }
        let ghost k = list.ids().index_of(self.id());
        Ok(list.unlink_at(self.slot, Ghost(k)))
    }

    fn release(self, list: &mut List<T>) -> (r: Result<(), HandleError>) {
        match ListHandle::<T>::unlink(self, list) {
            Ok(_) => Ok(()),
            Err(e) => Err(e),
        }
    }

    fn as_ref<'a>(&self, list: &'a List<T>) -> (r: Result<&'a T, HandleError>) {
        if !list.find(self) {
            return Err(HandleError::StaleHandle);
        }
        Ok(list.slots[self.slot].value.as_ref().unwrap())
    }
}

/// What a handle does with the element it refers to. Each operation takes
/// the list the element was inserted into.
///
/// A handle does not borrow its list, so letting one go out of scope leaves
/// its element in place: `release` is the way to drop an element without
/// looking at its value. Elements still in a list when the list itself is
/// dropped are dropped with it, and their handles are then refused by every
/// list that holds no element under the same identity.
pub trait ListHandle<T>: Sized {
    /// What identifies the element this handle refers to; see `List::ids`.
    spec fn handle_id(&self) -> (usize, u64);

    /// Takes the element out of `list` and hands back its value; refused,
    /// with `list` left as it was, when the handle refers to no element of it.
    fn unlink(self, list: &mut List<T>) -> (r: Result<T, HandleError>)
        requires
            old(list).wf(),
        ensures
            final(list).wf(),
            r is Ok <==> old(list).ids().contains(self.handle_id()),
            r is Err ==> r == Err::<T, _>(HandleError::StaleHandle) && *final(list) == *old(list),
            r matches Ok(v) ==> {
                let k = old(list).ids().index_of(self.handle_id());
                &&& v == old(list)@[k]
                &&& final(list)@ == old(list)@.remove(k)
                &&& final(list).ids() == old(list).ids().remove(k)
            },
    ;

    /// Takes the element out of `list` and drops its value; what becomes of
    /// `list` is what `unlink` does to it.
    fn release(self, list: &mut List<T>) -> (r: Result<(), HandleError>)
        requires
            old(list).wf(),
        ensures
            final(list).wf(),
            r is Ok <==> old(list).ids().contains(self.handle_id()),
            r is Err ==> r == Err::<(), _>(HandleError::StaleHandle) && *final(list) == *old(list),
            r is Ok ==> {
                let k = old(list).ids().index_of(self.handle_id());
                &&& final(list)@ == old(list)@.remove(k)
                &&& final(list).ids() == old(list).ids().remove(k)
            },
    ;

    /// The value of the element, left in place.
    fn as_ref<'a>(&self, list: &'a List<T>) -> (r: Result<&'a T, HandleError>)
        requires
            list.wf(),
        ensures
            r is Ok <==> list.ids().contains(self.handle_id()),
            r is Err ==> r == Err::<&T, _>(HandleError::StaleHandle),
            r matches Ok(v) ==> *v == list@[list.ids().index_of(self.handle_id())],
    ;
}

/// A traversal of a list's values from head to tail.
pub struct Iter<'a, T> {
    list: &'a List<T>,
    cur: usize,
    pos: Ghost<int>,
}

impl<'a, T> Iter<'a, T> {
    /// The list being traversed.
    pub closed spec fn list(&self) -> &'a List<T> {
        self.list
    }

    /// How many values were handed out so far.
    pub closed spec fn pos(&self) -> int {
        self.pos@
    }

    /// The values still to come.
    pub open spec fn remaining(&self) -> Seq<T> {
        self.list()@.skip(self.pos())
    }

    /// The traversal stands at a position of a well-formed list, on the
    /// slot of the element at that position, or on the sentinel at the end.
    pub closed spec fn wf(&self) -> bool {
        &&& self.list.wf()
        &&& 0 <= self.pos@ <= self.list.order@.len()
        &&& self.cur == if self.pos@ < self.list.order@.len() { self.list.order@[self.pos@] } else { 0 }
    }

    /// The next value, or nothing once the tail was passed.
    pub fn next(&mut self) -> (r: Option<&'a T>)
        requires
            old(self).wf(),
        ensures
            final(self).wf(),
            final(self).list() == old(self).list(),
            old(self).remaining().len() == 0 ==> r is None && final(self).pos() == old(self).pos(),
            old(self).remaining().len() > 0 ==> r is Some && final(self).pos() == old(self).pos() + 1,
            r matches Some(v) ==> *v == old(self).remaining()[0],
    {
        proof {
            let p = self.pos@;
            let n = self.list.order@.len();
            if p < n {
                lemma_links_at(self.list.slots@, self.list.ring(), p + 1);
                assert(self.list.ring()[p + 1] == self.list.order@[p]);
                if p + 1 < n {
                    assert(self.list.ring()[p + 2] == self.list.order@[p + 1]);
                }
            }
        }
        let i = self.cur;
        match self.list.slots[i].value.as_ref() {
            Some(v) => {
                self.cur = self.list.slots[i].next;
                self.pos = Ghost(self.pos@ + 1);
                Some(v)
            },
            None => None,
        }
    }
}

/// A traversal of a list's values from head to tail, each of which may be
/// changed in place; the shape of the list stays as it is.
pub struct IterMut<'a, T> {
    list: &'a mut List<T>,
    cur: usize,
    pos: Ghost<int>,
}

impl<'a, T> IterMut<'a, T> {
    /// The list being traversed, as it stands now.
    pub open spec fn list(&self) -> List<T> {
        *self.borrow()
    }

    /// The borrow of the list being traversed.
    pub closed spec fn borrow(&self) -> &'a mut List<T> {
        self.list
    }

    /// How many values were handed out so far.
    pub closed spec fn pos(&self) -> int {
        self.pos@
    }

    /// Once a traversal is over, the list stands as the traversal left it.
    pub proof fn lemma_over(&self)
        requires
            has_resolved(*self),
        ensures
            *final(self.borrow()) == self.list(),
    {
    }

    /// The traversal stands at a position of a well-formed list, on the
    /// slot of the element at that position, or on the sentinel at the end.
    pub closed spec fn wf(&self) -> bool {
        &&& self.list.wf()
        &&& 0 <= self.pos@ <= self.list.order@.len()
        &&& self.cur == if self.pos@ < self.list.order@.len() { self.list.order@[self.pos@] } else { 0 }
    }

    /// The next value, to be changed in place, or nothing once the tail was
    /// passed.
    pub fn next(&mut self) -> (r: Option<&mut T>)
        requires
            old(self).wf(),
        ensures
            final(self).wf(),
            final(self).list().wf(),
            final(self).list().ids() == old(self).list().ids(),
            *final(final(self).borrow()) == *final(old(self).borrow()),
            old(self).pos() == old(self).list()@.len() ==> r is None && final(self).pos()
                == old(self).pos() && final(self).list()@ == old(self).list()@,
            old(self).pos() < old(self).list()@.len() ==> r is Some && final(self).pos()
                == old(self).pos() + 1,
            r matches Some(v) ==> *v == old(self).list()@[old(self).pos()] && final(self).list()@
                == old(self).list()@.update(old(self).pos(), *final(v)),
    {
        let ghost p = self.pos@;
        proof {
            let n = self.list.order@.len();
            if p < n {
                lemma_links_at(self.list.slots@, self.list.ring(), p + 1);
                assert(self.list.ring()[p + 1] == self.list.order@[p]);
                if p + 1 < n {
                    assert(self.list.ring()[p + 2] == self.list.order@[p + 1]);
                }
            }
            let q = if p < n { p + 1 } else { 0 };
            List::lemma_value_replaced_any(*self.list, q);
        }
        let i = self.cur;
        if i == 0 {
            return None;
        }
        self.cur = self.list.slots[i].next;
        self.pos = Ghost(p + 1);
        self.list.value_mut(i).as_mut()
    }
}

/// Why an operation on a handle was refused.
#[derive(Debug, PartialEq, Eq, Structural)]
pub enum HandleError {
    /// The handle names no element of this list: it was handed out by
    /// another list, or its element is gone with a list that was dropped.
    /// (A handle of another list that happens to carry the identity of an
    /// element of this one is taken for that element.)
    StaleHandle,
}

/// A circular doubly-linked list with a sentinel.
///
/// Its model is the sequence of its values from head to tail (`view`),
/// together with the identity of each of them (`ids`).
pub struct List<T> {
    slots: Vec<Slot<T>>,
    free: Vec<usize>,
    order: Ghost<Seq<usize>>,
}

impl<T> List<T> {
    /// The ring read from the sentinel: the sentinel, then every element.
    pub closed spec fn ring(&self) -> Seq<usize> {
        seq![0usize].add(self.order@)
    }

    /// The list is well formed: slot 0 is the sentinel and holds nothing,
    /// the elements sit in distinct slots that each hold a value, the ring
    /// of sentinel and elements is consistently linked both ways, a slot
    /// outside the ring holds nothing, and the free slots are distinct,
    /// empty, and have a stamp left to give.
    pub closed spec fn wf(&self) -> bool {
        let ring = self.ring();
        &&& self.slots@.len() >= 1
        &&& self.slots@[0].value is None
        &&& forall|k: int| 0 <= k < self.order@.len() ==> {
            let i = #[trigger] self.order@[k];
            &&& 0 < i < self.slots@.len()
            &&& self.slots@[i as int].value is Some
        }
        &&& self.order@.no_duplicates()
        &&& links_ok(self.slots@, ring)
        &&& forall|i: usize| 0 < i < self.slots@.len() && (#[trigger] self.slots@[i as int]).value is Some
            ==> self.order@.contains(i)
        &&& forall|j: int| 0 <= j < self.free@.len() ==> {
            let f = #[trigger] self.free@[j];
            &&& 0 < f < self.slots@.len()
            &&& self.slots@[f as int].value is None
            &&& self.slots@[f as int].stamp < u64::MAX
        }
        &&& forall|j: int, m: int| 0 <= j < m < self.free@.len() ==> self.free@[j] != self.free@[m]
    }

    /// The identities of the elements, from head to tail: a handle refers
    /// to the element at position `k` exactly when its `id()` is `ids()[k]`.
    pub closed spec fn ids(&self) -> Seq<(usize, u64)> {
        self.order@.map_values(|i: usize| (i, self.slots@[i as int].stamp))
    }

    /// The values from head to tail.
    pub closed spec fn view(&self) -> Seq<T> {
        self.order@.map_values(|i: usize| self.slots@[i as int].value.unwrap())
    }

    /// An empty list: the sentinel alone, linked to itself.
    pub fn new() -> (l: Self)
        ensures
            l.wf(),
            l@.len() == 0,
    {
        let mut slots: Vec<Slot<T>> = Vec::new();
        slots.push(Slot { prev: 0, next: 0, stamp: 0, value: None });
        let l = List { slots, free: Vec::new(), order: Ghost(Seq::empty()) };
        proof {
            assert(l.ring() =~= seq![0usize]);
            lemma_links_single(l.slots@);
        }
        l
    }

    /// Inserts `e` at the head and returns its handle.
    pub fn push_head(&mut self, e: T) -> (h: Handle)
        requires
            old(self).wf(),
        ensures
            final(self).wf(),
            final(self)@ == seq![e] + old(self)@,
            final(self).ids() == seq![h.id()] + old(self).ids(),
            !old(self).ids().contains(h.id()),
    {
        let h = self.link_after(0, Ghost(0), e);
        proof {
            assert(seq![e] + old(self)@ =~= old(self)@.insert(0, e));
            assert(seq![h.id()] + old(self).ids() =~= old(self).ids().insert(0, h.id()));
        }
        h
    }

    /// Inserts `e` at the tail and returns its handle.
    pub fn push_tail(&mut self, e: T) -> (h: Handle)
        requires
            old(self).wf(),
        ensures
            final(self).wf(),
            final(self)@ == old(self)@.push(e),
            final(self).ids() == old(self).ids().push(h.id()),
            !old(self).ids().contains(h.id()),
    {
        let ghost n = self.ring().len() - 1;
        proof {
            lemma_links_at(self.slots@, self.ring(), 0);
        }
        let tail = self.slots[0].prev;
        let h = self.link_after(tail, Ghost(n), e);
        proof {
            assert(old(self)@.push(e) =~= old(self)@.insert(n, e));
            assert(old(self).ids().push(h.id()) =~= old(self).ids().insert(n, h.id()));
        }
        h
    }

    /// Inserts `e` right after the element that `anchor` refers to, and
    /// returns its handle; refused when `anchor` refers to no element here.
    pub fn push_after(&mut self, anchor: &Handle, e: T) -> (r: Result<Handle, HandleError>)
        requires
            old(self).wf(),
        ensures
            final(self).wf(),
            r is Ok <==> old(self).ids().contains(anchor.id()),
            r is Err ==> r == Err::<Handle, _>(HandleError::StaleHandle) && *final(self) == *old(self),
            r matches Ok(h) ==> {
                let k = old(self).ids().index_of(anchor.id());
                &&& final(self)@ == old(self)@.insert(k + 1, e)
                &&& final(self).ids() == old(self).ids().insert(k + 1, h.id())
                &&& !old(self).ids().contains(h.id())
            },
    {
        if !self.find(anchor) {
            return Err(HandleError::StaleHandle);
        }
        let ghost k = self.ids().index_of(anchor.id());
        proof {
            assert(self.order@[k] == anchor.slot);
            assert(self.ring()[k + 1] == anchor.slot);
        }
        Ok(self.link_after(anchor.slot, Ghost(k + 1), e))
    }

    /// The value at the head, absent when the list is empty.
    pub fn peek_head(&self) -> (r: Option<&T>)
        requires
            self.wf(),
        ensures
            r is None <==> self@.len() == 0,
            r matches Some(v) ==> *v == self@[0],
    {
        proof {
            lemma_links_at(self.slots@, self.ring(), 0);
            if self.order@.len() > 0 {
                assert(self.ring()[1] == self.order@[0]);
            }
        }
        let i = self.slots[0].next;
        self.slots[i].value.as_ref()
    }

    /// The value at the tail, absent when the list is empty.
    pub fn peek_tail(&self) -> (r: Option<&T>)
        requires
            self.wf(),
        ensures
            r is None <==> self@.len() == 0,
            r matches Some(v) ==> *v == self@[self@.len() - 1],
    {
        proof {
            lemma_links_at(self.slots@, self.ring(), 0);
            let n = self.order@.len() as int;
            if n > 0 {
                assert(self.ring()[n] == self.order@[n - 1]);
            }
        }
        let i = self.slots[0].prev;
        self.slots[i].value.as_ref()
    }

    /// The value at the head, to be changed in place; absent when the list
    /// is empty.
    pub fn peek_head_mut(&mut self) -> (r: Option<&mut T>)
        requires
            old(self).wf(),
        ensures
            r is None <==> old(self)@.len() == 0,
            final(self).wf(),
            final(self).ids() == old(self).ids(),
            r is None ==> final(self)@ == old(self)@,
            r matches Some(v) ==> *v == old(self)@[0] && final(self)@ == old(self)@.update(
                0,
                *final(v),
            ),
    {
        proof {
            lemma_links_at(self.slots@, self.ring(), 0);
            if self.order@.len() > 0 {
                assert(self.ring()[1] == self.order@[0]);
            }
        }
        let i = self.slots[0].next;
        proof {
            let q = if self.order@.len() > 0 { 1int } else { 0 };
            Self::lemma_value_replaced_any(*self, q);
        }
        self.value_mut(i).as_mut()
    }

    /// `lemma_value_replaced`, for every list that differs from `a` only in
    /// the value held at position `q` of the ring. The sentinel, at
    /// position 0, keeps holding nothing.
    proof fn lemma_value_replaced_any(a: Self, q: int)
        requires
            a.wf(),
            0 <= q < a.ring().len(),
        ensures
            forall|b: Self| #![trigger b.wf()] #![trigger b@] b.slots@ == a.slots@.update(
                a.ring()[q] as int,
                Slot { value: b.slots@[a.ring()[q] as int].value, ..a.slots@[a.ring()[q] as int] },
            ) && b.free == a.free && b.order == a.order && a.ring()[q] < b.slots@.len() ==> {
                &&& q == 0 && b.slots@[0].value is None ==> b.wf() && b@ == a@ && b.ids() == a.ids()
                &&& q > 0 && b.slots@[a.ring()[q] as int].value is Some ==> b.wf() && b.ids()
                    == a.ids() && b@ == a@.update(q - 1, b.slots@[a.ring()[q] as int].value.unwrap())
            },
    {
        assert forall|b: Self| #![trigger b.wf()] #![trigger b@] b.slots@ == a.slots@.update(
                a.ring()[q] as int,
                Slot { value: b.slots@[a.ring()[q] as int].value, ..a.slots@[a.ring()[q] as int] },
            ) && b.free == a.free && b.order == a.order && a.ring()[q] < b.slots@.len() implies {
                &&& q == 0 && b.slots@[0].value is None ==> b.wf() && b@ == a@ && b.ids() == a.ids()
                &&& q > 0 && b.slots@[a.ring()[q] as int].value is Some ==> b.wf() && b.ids()
                    == a.ids() && b@ == a@.update(q - 1, b.slots@[a.ring()[q] as int].value.unwrap())
            } by {
            let i = a.ring()[q] as int;
            if q == 0 && b.slots@[0].value is None {
                assert(b.slots@ =~= a.slots@);
                Self::lemma_same_slots(a, b);
            }
            if q > 0 && b.slots@[i].value is Some {
                Self::lemma_value_replaced(a, b, q - 1, b.slots@[i].value.unwrap());
            }
        }
    }

    /// Two lists with the same slots, free slots and order are alike.
    proof fn lemma_same_slots(a: Self, b: Self)
        requires
            a.wf(),
            b.slots@ == a.slots@,
            b.free == a.free,
            b.order == a.order,
        ensures
            b.wf(),
            b@ == a@,
            b.ids() == a.ids(),
    {
        assert(b@ =~= a@);
        assert(b.ids() =~= a.ids());
    }

    /// Writing `x` over the value of the element at position `k` keeps the
    /// list well formed and changes that value alone.
    proof fn lemma_value_replaced(a: Self, b: Self, k: int, x: T)
        requires
            a.wf(),
            0 <= k < a.order@.len(),
            b.slots@ == a.slots@.update(
                a.order@[k] as int,
                Slot { value: Some(x), ..a.slots@[a.order@[k] as int] },
            ),
            b.free == a.free,
            b.order == a.order,
        ensures
            b.wf(),
            b@ == a@.update(k, x),
            b.ids() == a.ids(),
    {
        lemma_links_same(a.slots@, b.slots@, a.ring());
        assert(b@ =~= a@.update(k, x));
        assert(b.ids() =~= a.ids());
    }

    /// The value at the tail, to be changed in place; absent when the list
    /// is empty.
    pub fn peek_tail_mut(&mut self) -> (r: Option<&mut T>)
        requires
            old(self).wf(),
        ensures
            r is None <==> old(self)@.len() == 0,
            final(self).wf(),
            final(self).ids() == old(self).ids(),
            r is None ==> final(self)@ == old(self)@,
            r matches Some(v) ==> *v == old(self)@[old(self)@.len() - 1] && final(self)@
                == old(self)@.update(old(self)@.len() - 1, *final(v)),
    {
        proof {
            lemma_links_at(self.slots@, self.ring(), 0);
            let n = self.order@.len() as int;
            if n > 0 {
                assert(self.ring()[n] == self.order@[n - 1]);
            }
            Self::lemma_value_replaced_any(*self, n);
        }
        let i = self.slots[0].prev;
        self.value_mut(i).as_mut()
    }

    /// A traversal of the values from head to tail.
    pub fn iter(&self) -> (it: Iter<'_, T>)
        requires
            self.wf(),
        ensures
            it.wf(),
            it.list() == self,
            it.pos() == 0,
    {
        proof {
            lemma_links_at(self.slots@, self.ring(), 0);
        }
        Iter { list: self, cur: self.slots[0].next, pos: Ghost(0) }
    }

    /// A traversal of the values from head to tail, each of which may be
    /// changed in place.
    pub fn iter_mut(&mut self) -> (it: IterMut<'_, T>)
        requires
            old(self).wf(),
        ensures
            it.wf(),
            it.list() == *old(self),
            *final(it.borrow()) == *final(self),
            it.pos() == 0,
    {
        proof {
            lemma_links_at(self.slots@, self.ring(), 0);
        }
        let cur = self.slots[0].next;
        IterMut { list: self, cur, pos: Ghost(0) }
    }

    /// The value held in slot `i`, to be changed in place.
    fn value_mut(&mut self, i: usize) -> (r: &mut Option<T>)
        requires
            i < old(self).slots@.len(),
        ensures
            *r == old(self).slots@[i as int].value,
            final(self).slots@ == old(self).slots@.update(
                i as int,
                Slot { value: *final(r), ..old(self).slots@[i as int] },
            ),
            final(self).free == old(self).free,
            final(self).order == old(self).order,
    {
        &mut self.slots[i].value
    }

    /// The node that follows node `i` in the ring.
    pub closed spec fn next_of(&self, i: usize) -> usize {
        self.slots@[i as int].next
    }

    /// The node that precedes node `i` in the ring.
    pub closed spec fn prev_of(&self, i: usize) -> usize {
        self.slots@[i as int].prev
    }

    /// In a well-formed list every node of the ring, the sentinel included,
    /// is its successor's predecessor and its predecessor's successor; the
    /// successor of the node at position `k` of the ring stands at position
    /// `k + 1`, the last one leading back to the sentinel.
    pub proof fn lemma_ring_invariant(&self)
        requires
            self.wf(),
        ensures
            self.ring().len() == self@.len() + 1,
            self.ring()[0] == 0,
            forall|k: int| 0 <= k < self.ring().len() ==> {
                let i = #[trigger] self.ring()[k];
                &&& self.prev_of(self.next_of(i)) == i
                &&& self.next_of(self.prev_of(i)) == i
                &&& self.next_of(i) == if k + 1 < self.ring().len() { self.ring()[k + 1] } else { 0 }
            },
    {
        assert forall|k: int| 0 <= k < self.ring().len() implies {
            let i = #[trigger] self.ring()[k];
            &&& self.prev_of(self.next_of(i)) == i
            &&& self.next_of(self.prev_of(i)) == i
            &&& self.next_of(i) == if k + 1 < self.ring().len() { self.ring()[k + 1] } else { 0 }
        } by {
            let n = self.ring().len() as int;
            lemma_links_at(self.slots@, self.ring(), k);
            let nx = if k + 1 < n { k + 1 } else { 0 };
            let pv = if k > 0 { k - 1 } else { n - 1 };
            lemma_links_at(self.slots@, self.ring(), nx);
            lemma_links_at(self.slots@, self.ring(), pv);
        }
    }

    /// No two elements of a well-formed list share an identity, so a handle
    /// refers to at most one of them.
    pub proof fn lemma_ids_distinct(&self)
        requires
            self.wf(),
        ensures
            self.ids().len() == self@.len(),
            self.ids().no_duplicates(),
    {
        assert forall|x: int, y: int| 0 <= x < y < self.ids().len()
            implies self.ids()[x] != self.ids()[y] by {
            assert(self.order@[x] != self.order@[y]);
        }
    }

    /// The element at position `k` is the one found under its identity.
    pub proof fn lemma_id_at(&self, k: int)
        requires
            self.wf(),
            0 <= k < self@.len(),
        ensures
            self.ids().contains(self.ids()[k]),
            self.ids().index_of(self.ids()[k]) == k,
    {
        self.lemma_ids_distinct();
        let x = self.ids()[k];
        assert(self.ids()[k] == x);
        let j = self.ids().index_of(x);
        assert(self.ids()[j] == x);
    }

    /// An element inserted at position `k` (by `push_head`, `push_tail` or
    /// `push_after`) is found by its identity at that position, holding the
    /// value that was inserted: taking it out again hands back that value.
    pub proof fn lemma_inserted_found(a: Self, b: Self, k: int, id: (usize, u64), v: T)
        requires
            b.wf(),
            0 <= k <= a@.len(),
            b@ == a@.insert(k, v),
            b.ids() == a.ids().insert(k, id),
        ensures
            b.ids().contains(id),
            b.ids().index_of(id) == k,
            b@[b.ids().index_of(id)] == v,
    {
        b.lemma_ids_distinct();
        assert(b.ids()[k] == id);
        let j = b.ids().index_of(id);
        assert(b.ids()[j] == id);
    }

    /// Inserting another element leaves every element already there, found
    /// by its identity, holding the value it held.
    pub proof fn lemma_insert_keeps_others(
        a: Self,
        b: Self,
        k: int,
        id: (usize, u64),
        v: T,
        x: (usize, u64),
    )
        requires
            a.wf(),
            b.wf(),
            0 <= k <= a@.len(),
            b@ == a@.insert(k, v),
            b.ids() == a.ids().insert(k, id),
            a.ids().contains(x),
        ensures
            b.ids().contains(x),
            b@[b.ids().index_of(x)] == a@[a.ids().index_of(x)],
    {
        a.lemma_ids_distinct();
        let i = a.ids().index_of(x);
        let j = if i < k { i } else { i + 1 };
        assert(b.ids()[j] == x);
        b.lemma_id_at(j);
    }

    /// Taking out another element leaves every remaining element, found by
    /// its identity, holding the value it held.
    pub proof fn lemma_remove_keeps_others(a: Self, b: Self, k: int, x: (usize, u64))
        requires
            a.wf(),
            b.wf(),
            0 <= k < a@.len(),
            b@ == a@.remove(k),
            b.ids() == a.ids().remove(k),
            a.ids().contains(x),
            a.ids()[k] != x,
        ensures
            b.ids().contains(x),
            b@[b.ids().index_of(x)] == a@[a.ids().index_of(x)],
    {
        a.lemma_ids_distinct();
        let i = a.ids().index_of(x);
        let j = if i < k { i } else { i - 1 };
        assert(b.ids()[j] == x);
        b.lemma_id_at(j);
    }

    /// Puts `v` into a slot that holds no element, and returns that slot.
    /// A slot used before comes back with a stamp it never carried, so the
    /// handles of its earlier elements stay refused.
    fn fill_slot(&mut self, v: T) -> (i: usize)
        requires
            old(self).wf(),
        ensures
            0 < i < final(self).slots@.len(),
            !old(self).order@.contains(i),
            final(self).slots@[i as int].value == Some(v),
            final(self).order == old(self).order,
            final(self).slots@.len() >= old(self).slots@.len(),
            i < old(self).slots@.len() ==> final(self).slots@[i as int].stamp
                > old(self).slots@[i as int].stamp,
            forall|j: int| 0 <= j < old(self).slots@.len() && j != i
                ==> final(self).slots@[j] == old(self).slots@[j],
            forall|j: usize| 0 < j < final(self).slots@.len() && j != i
                && (#[trigger] final(self).slots@[j as int]).value is Some
                ==> final(self).order@.contains(j),
            forall|j: int| 0 <= j < final(self).free@.len() ==> {
                let f = #[trigger] final(self).free@[j];
                &&& 0 < f < final(self).slots@.len()
                &&& f != i
                &&& final(self).slots@[f as int].value is None
                &&& final(self).slots@[f as int].stamp < u64::MAX
            },
            forall|j: int, m: int| 0 <= j < m < final(self).free@.len()
                ==> final(self).free@[j] != final(self).free@[m],
    {
        proof {
            assert forall|k: int| 0 <= k < self.order@.len() implies self.order@[k] < self.slots@.len()
                && self.slots@[self.order@[k] as int].value is Some by {
                let i = self.order@[k];
            }
        }
        match self.free.pop() {
            Some(i) => {
                let stamp = self.slots[i].stamp + 1;
                self.slots[i].stamp = stamp;
                self.slots[i].value = Some(v);
                i
            },
            None => {
                self.slots.push(Slot { prev: 0, next: 0, stamp: 0, value: Some(v) });
                self.slots.len() - 1
            },
        }
    }
}


impl<T> List<T> {
    /// Splices a new node holding `v` into the ring right after `anchor`,
    /// which stands at position `p` of the ring (position 0 is the
    /// sentinel), and returns the handle of the new node.
    fn link_after(&mut self, anchor: usize, Ghost(p): Ghost<int>, v: T) -> (h: Handle)
        requires
            old(self).wf(),
            0 <= p < old(self).ring().len(),
            old(self).ring()[p] == anchor,
        ensures
            final(self).wf(),
            final(self)@ == old(self)@.insert(p, v),
            final(self).ids() == old(self).ids().insert(p, h.id()),
            !old(self).ids().contains(h.id()),
    {
        proof {
            self.lemma_ring_distinct();
            lemma_links_at(self.slots@, self.ring(), p);
            let q = if p + 1 < self.ring().len() { p + 1 } else { 0 };
            lemma_links_at(self.slots@, self.ring(), q);
        }
        let ghost before = *self;
        let i = self.fill_slot(v);
        let after = self.slots[anchor].next;
        self.slots[i].prev = anchor;
        self.slots[i].next = after;
        self.slots[anchor].next = i;
        self.slots[after].prev = i;
        self.order = Ghost(self.order@.insert(p, i));
        proof {
            lemma_links_insert(before.slots@, self.slots@, before.ring(), p, i);
            Self::lemma_spliced(before, *self, p, i);
        }
        Handle { slot: i, stamp: self.slots[i].stamp }
    }

    /// Takes the element at position `k` out of the ring and returns its
    /// value. The slot goes back to the free slots unless its stamp is spent.
    fn unlink_at(&mut self, i: usize, Ghost(k): Ghost<int>) -> (v: T)
        requires
            old(self).wf(),
            0 <= k < old(self).order@.len(),
            old(self).order@[k] == i,
        ensures
            final(self).wf(),
            v == old(self)@[k],
            final(self)@ == old(self)@.remove(k),
            final(self).ids() == old(self).ids().remove(k),
    {
        proof {
            self.lemma_ring_distinct();
            lemma_links_at(self.slots@, self.ring(), k + 1);
            lemma_links_at(self.slots@, self.ring(), k);
            let q = if k + 2 < self.ring().len() { k + 2 } else { 0 };
            lemma_links_at(self.slots@, self.ring(), q);
        }
        let ghost before = *self;
        let prev = self.slots[i].prev;
        let next = self.slots[i].next;
        self.slots[next].prev = prev;
        self.slots[prev].next = next;
        let taken = self.slots[i].value.take();
        if self.slots[i].stamp < u64::MAX {
            self.free.push(i);
        }
        self.order = Ghost(self.order@.remove(k));
        proof {
            lemma_links_remove(before.slots@, self.slots@, before.ring(), k + 1);
            Self::lemma_removed(before, *self, k, i);
        }
        taken.unwrap()
    }

    /// What `unlink_at` leaves behind is well formed, and lacks the element
    /// at position `k`.
    proof fn lemma_removed(a: Self, b: Self, k: int, i: usize)
        requires
            a.wf(),
            0 <= k < a.order@.len(),
            a.order@[k] == i,
            b.order@ == a.order@.remove(k),
            links_ok(b.slots@, a.ring().remove(k + 1)),
            b.slots@.len() == a.slots@.len(),
            b.slots@[i as int].value is None,
            b.slots@[i as int].stamp == a.slots@[i as int].stamp,
            forall|j: int| 0 <= j < a.slots@.len() && j != i ==> (#[trigger] b.slots@[j]).value
                == a.slots@[j].value && b.slots@[j].stamp == a.slots@[j].stamp,
            b.free@ == a.free@ || (b.free@ == a.free@.push(i) && a.slots@[i as int].stamp < u64::MAX),
        ensures
            b.wf(),
            b@ == a@.remove(k),
            b.ids() == a.ids().remove(k),
    {
        assert(b.ring() =~= a.ring().remove(k + 1));
        assert forall|m: int| 0 <= m < b.order@.len() implies {
            let x = #[trigger] b.order@[m];
            &&& 0 < x < b.slots@.len()
            &&& b.slots@[x as int].value is Some
        } by {
            if m < k {
                assert(b.order@[m] == a.order@[m]);
            } else {
                assert(b.order@[m] == a.order@[m + 1]);
            }
        }
        assert(b.order@.no_duplicates()) by {
            assert forall|x: int, y: int| 0 <= x < y < b.order@.len()
                implies b.order@[x] != b.order@[y] by {
                let x0 = if x < k { x } else { x + 1 };
                let y0 = if y < k { y } else { y + 1 };
                assert(a.order@[x0] != a.order@[y0]);
            }
        }
        assert forall|j: usize| 0 < j < b.slots@.len() && (#[trigger] b.slots@[j as int]).value is Some
            implies b.order@.contains(j) by {
            let m = choose|m: int| 0 <= m < a.order@.len() && a.order@[m] == j;
            if m < k {
                assert(b.order@[m] == j);
            } else {
                assert(m != k);
                assert(b.order@[m - 1] == j);
            }
        }
        assert forall|j: int, m: int| 0 <= j < m < b.free@.len() implies b.free@[j] != b.free@[m] by {
            if m == a.free@.len() {
                assert(a.slots@[a.free@[j] as int].value is None);
            }
        }
        assert(b@ =~= a@.remove(k));
        assert(b.ids() =~= a.ids().remove(k));
    }

    /// Whether `h` refers to an element of this list.
    fn find(&self, h: &Handle) -> (r: bool)
        requires
            self.wf(),
        ensures
            r == self.ids().contains(h.id()),
    {
        let r = h.slot > 0 && h.slot < self.slots.len() && self.slots[h.slot].value.is_some()
            && self.slots[h.slot].stamp == h.stamp;
        proof {
            if r {
                let k = choose|k: int| 0 <= k < self.order@.len() && self.order@[k] == h.slot;
                assert(self.ids()[k] == h.id());
            }
            if self.ids().contains(h.id()) {
                let k = choose|k: int| 0 <= k < self.ids().len() && self.ids()[k] == h.id();
                assert(self.order@[k] == h.slot);
            }
        }
        r
    }

    /// The sentinel and the elements are distinct slots of the arena.
    proof fn lemma_ring_distinct(&self)
        requires
            self.wf(),
        ensures
            self.ring().no_duplicates(),
            forall|k: int| 0 <= k < self.ring().len() ==> #[trigger] self.ring()[k] < self.slots@.len(),
    {
        let r = self.ring();
        assert forall|a: int, b: int| 0 <= a < b < r.len() implies r[a] != r[b] by {
            if a > 0 {
                assert(self.order@[a - 1] != self.order@[b - 1]);
            } else {
                assert(self.order@.contains(r[b]));
            }
        }
        assert forall|k: int| 0 <= k < r.len() implies #[trigger] r[k] < self.slots@.len() by {
            if k > 0 {
                assert(r[k] == self.order@[k - 1]);
            }
        }
    }

    /// What `link_after` leaves behind is well formed, and holds the new
    /// element at position `p`.
    proof fn lemma_spliced(a: Self, b: Self, p: int, i: usize)
        requires
            a.wf(),
            0 <= p < a.ring().len(),
            !a.order@.contains(i),
            0 < i < b.slots@.len(),
            a.slots@.len() <= b.slots@.len(),
            b.slots@[i as int].value is Some,
            b.order@ == a.order@.insert(p, i),
            links_ok(b.slots@, a.ring().insert(p + 1, i)),
            forall|j: int| 0 <= j < a.slots@.len() && j != i ==> (#[trigger] b.slots@[j]).value
                == a.slots@[j].value && b.slots@[j].stamp == a.slots@[j].stamp,
            forall|j: usize| 0 < j < b.slots@.len() && j != i
                && (#[trigger] b.slots@[j as int]).value is Some ==> a.order@.contains(j),
            forall|j: int| 0 <= j < b.free@.len() ==> {
                let f = #[trigger] b.free@[j];
                &&& 0 < f < b.slots@.len()
                &&& f != i
                &&& b.slots@[f as int].value is None
                &&& b.slots@[f as int].stamp < u64::MAX
            },
            forall|j: int, m: int| 0 <= j < m < b.free@.len() ==> b.free@[j] != b.free@[m],
        ensures
            b.wf(),
            b@ == a@.insert(p, b.slots@[i as int].value.unwrap()),
            b.ids() == a.ids().insert(p, (i, b.slots@[i as int].stamp)),
    {
        assert(b.ring() =~= a.ring().insert(p + 1, i));
        assert forall|k: int| 0 <= k < b.order@.len() implies {
            let x = #[trigger] b.order@[k];
            &&& 0 < x < b.slots@.len()
            &&& b.slots@[x as int].value is Some
        } by {
            if k < p {
                assert(b.order@[k] == a.order@[k]);
            } else if k > p {
                assert(b.order@[k] == a.order@[k - 1]);
            }
        }
        assert(b.order@.no_duplicates()) by {
            assert forall|x: int, y: int| 0 <= x < y < b.order@.len()
                implies b.order@[x] != b.order@[y] by {
                if x != p && y != p {
                    let x0 = if x < p { x } else { x - 1 };
                    let y0 = if y < p { y } else { y - 1 };
                    assert(a.order@[x0] != a.order@[y0]);
                } else if x == p {
                    assert(a.order@.contains(b.order@[y]));
                } else {
                    assert(a.order@.contains(b.order@[x]));
                }
            }
        }
        assert(b.slots@[0].value is None);
        assert(b.order@[p] == i);
        assert forall|j: usize| 0 < j < b.slots@.len() && (#[trigger] b.slots@[j as int]).value is Some
            implies b.order@.contains(j) by {
            if j != i {
                let k = choose|k: int| 0 <= k < a.order@.len() && a.order@[k] == j;
                if k < p {
                    assert(b.order@[k] == j);
                } else {
                    assert(b.order@[k + 1] == j);
                }
            }
        }
        assert(b@ =~= a@.insert(p, b.slots@[i as int].value.unwrap()));
        assert(b.ids() =~= a.ids().insert(p, (i, b.slots@[i as int].stamp)));
    }
}

} // verus!
