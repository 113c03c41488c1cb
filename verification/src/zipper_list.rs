//! A list with a cursor.
//!
//! The elements before and after the cursor are stored in their plain form
//! `T`; the current element lives in its active form `U`. Selecting another
//! position converts the old current element back to `T` and the newly
//! selected one to `U`.

use vstd::prelude::*;
use vstd::std_specs::convert::FromSpec;

verus! {

/// A cursored list: the current element in its active form, flanked by the
/// stored elements before and after it.
#[derive(Debug)]
pub struct ZipperList<T, U> {
    prev: Vec<T>,
    current: U,
    next: Vec<T>,
}

/// One element as seen when walking the list.
#[derive(Debug)]
pub enum Item<T, U> {
    Other(T),
    Current(U),
}

impl<T, U> ZipperList<T, U> {
    /// The stored elements before the cursor.
    pub closed spec fn prevs(&self) -> Seq<T> {
        self.prev@
    }

    /// The current element.
    pub closed spec fn cur(&self) -> U {
        self.current
    }

    /// The stored elements after the cursor.
    pub closed spec fn nexts(&self) -> Seq<T> {
        self.next@
    }

    /// Total number of elements, the current one counted.
    pub open spec fn spec_len(&self) -> int {
        self.prevs().len() as int + 1 + self.nexts().len() as int
    }

    /// The cursor position.
    pub open spec fn cursor(&self) -> int {
        self.prevs().len() as int
    }

    pub fn new(current: U) -> (r: ZipperList<T, U>)
        ensures
            r.cur() == current,
            r.prevs() == Seq::<T>::empty(),
            r.nexts() == Seq::<T>::empty(),
    {
        ZipperList { prev: Vec::new(), current, next: Vec::new() }
    }

    /// Build from the parts of a stored snapshot: the elements before the
    /// cursor, the element under it (activated), and the elements after it.
    pub fn from_parts(parts: (Vec<T>, T, Vec<T>)) -> (r: ZipperList<T, U>) where U: From<T>
        ensures
            r.prevs() == parts.0@,
            r.nexts() == parts.2@,
            U::obeys_from_spec() ==> r.cur() == U::from_spec(parts.1),
    {
        let (prev, mid, next) = parts;
        ZipperList { prev, current: U::from(mid), next }
    }

    /// Take the list apart into a storable snapshot, the current element
    /// converted back to its plain form.
    pub fn into_parts(self) -> (r: (Vec<T>, T, Vec<T>)) where T: From<U>
        ensures
            r.0@ == self.prevs(),
            r.2@ == self.nexts(),
            T::obeys_from_spec() ==> r.1 == T::from_spec(self.cur()),
    {
        (self.prev, T::from(self.current), self.next)
    }

    pub fn current(&self) -> (r: &U)
        ensures
            *r == self.cur(),
    {
        &self.current
    }

    pub fn current_mut(&mut self) -> (r: &mut U)
        ensures
            *r == old(self).cur(),
            *final(r) == final(self).cur(),
            final(self).prevs() == old(self).prevs(),
            final(self).nexts() == old(self).nexts(),
    {
        &mut self.current
    }

    pub fn len(&self) -> (r: usize)
        requires
            self.spec_len() <= usize::MAX,
        ensures
            r == self.spec_len(),
    {
        self.prev.len() + 1 + self.next.len()
    }

    /// Append a stored element at the end of the list.
    pub fn push(&mut self, item: T)
        ensures
            final(self).nexts() == old(self).nexts().push(item),
            final(self).prevs() == old(self).prevs(),
            final(self).cur() == old(self).cur(),
    {
        self.next.push(item);
    }

    /// Walk the list in order, marking the current element.
    pub fn iter(&self) -> (r: Vec<Item<&T, &U>>)
        requires
            self.spec_len() <= usize::MAX,
        ensures
            r@.len() == self.spec_len(),
            forall|i: int|
                0 <= i < self.prevs().len() ==> ((#[trigger] r@[i]) matches Item::Other(t) && *t
                    == self.prevs()[i]),
            (r@[self.cursor()] matches Item::Current(u) && *u == self.cur()),
            forall|i: int|
                self.cursor() < i < r@.len() ==> ((#[trigger] r@[i]) matches Item::Other(t) && *t
                    == self.nexts()[i - self.cursor() - 1]),
    {
        let mut r: Vec<Item<&T, &U>> = Vec::new();
        let np = self.prev.len();
        for i in 0..np
            invariant
                np == self.prevs().len(),
                r@.len() == i,
                forall|j: int|
                    0 <= j < i ==> ((#[trigger] r@[j]) matches Item::Other(t) && *t
                        == self.prevs()[j]),
        {
            r.push(Item::Other(&self.prev[i]));
        }
        r.push(Item::Current(&self.current));
        let nn = self.next.len();
        for i in 0..nn
            invariant
                np == self.prevs().len(),
                nn == self.nexts().len(),
                r@.len() == np + 1 + i,
                forall|j: int|
                    0 <= j < np ==> ((#[trigger] r@[j]) matches Item::Other(t) && *t
                        == self.prevs()[j]),
                (r@[np as int] matches Item::Current(u) && *u == self.cur()),
                forall|j: int|
                    np < j < r@.len() ==> ((#[trigger] r@[j]) matches Item::Other(t) && *t
                        == self.nexts()[j - np - 1]),
        {
            r.push(Item::Other(&self.next[i]));
        }
        r
    }

    /// Move the cursor to `index`, converting the old current element back
    /// to storage and activating the selected one. Selecting the current
    /// position or a position out of range changes nothing and reports
    /// `false`.
    pub fn select(&mut self, index: usize) -> (r: bool) where T: From<U>, U: From<T>
        requires
            old(self).spec_len() <= usize::MAX,
        ensures
            r == (index < old(self).spec_len() && index != old(self).cursor()),
            !r ==> final(self).prevs() == old(self).prevs() && final(self).cur() == old(
                self,
            ).cur() && final(self).nexts() == old(self).nexts(),
            r ==> final(self).spec_len() == old(self).spec_len() && final(self).cursor()
                == index,
            r && index < old(self).cursor() ==> {
                &&& final(self).prevs() == old(self).prevs().take(index as int)
                &&& (U::obeys_from_spec() ==> final(self).cur() == U::from_spec(
                    old(self).prevs()[index as int],
                ))
                &&& final(self).nexts().len() == old(self).prevs().len() - index
                    + old(self).nexts().len()
                &&& final(self).nexts().take(old(self).prevs().len() - index - 1) == old(
                    self,
                ).prevs().skip(index + 1)
                &&& (T::obeys_from_spec() ==> final(self).nexts()[old(self).prevs().len() - index
                    - 1] == T::from_spec(old(self).cur()))
                &&& final(self).nexts().skip(old(self).prevs().len() - index) == old(
                    self,
                ).nexts()
            },
            r && index > old(self).cursor() ==> {
                let k = index - old(self).cursor() - 1;
                &&& final(self).prevs().len() == old(self).prevs().len() + 1 + k
                &&& final(self).prevs().take(old(self).prevs().len() as int) == old(self).prevs()
                &&& (T::obeys_from_spec() ==> final(self).prevs()[old(self).prevs().len() as int]
                    == T::from_spec(old(self).cur()))
                &&& final(self).prevs().skip(old(self).prevs().len() as int + 1) == old(
                    self,
                ).nexts().take(k)
                &&& (U::obeys_from_spec() ==> final(self).cur() == U::from_spec(
                    old(self).nexts()[k],
                ))
                &&& final(self).nexts() == old(self).nexts().skip(k + 1)
            },
    {
        if index < self.prev.len() {
            let moved = self.prev.remove(index);
            let mut tail = self.prev.split_off(index);
            let mut cur_u = U::from(moved);
            std::mem::swap(&mut self.current, &mut cur_u);
            tail.push(T::from(cur_u));
            tail.append(&mut self.next);
            self.next = tail;
            proof {
                assert(final(self).nexts().take(old(self).prevs().len() - index - 1) =~= old(
                    self,
                ).prevs().skip(index + 1));
                assert(final(self).nexts().skip(old(self).prevs().len() - index) =~= old(
                    self,
                ).nexts());
            }
            true
        } else if index >= self.prev.len() + 1 && index < self.len() {
            let k = index - self.prev.len() - 1;
            let moved = self.next.remove(k);
            let mut cur_u = U::from(moved);
            std::mem::swap(&mut self.current, &mut cur_u);
            self.prev.push(T::from(cur_u));
            let tail2 = self.next.split_off(k);
            self.prev.append(&mut self.next);
            self.next = tail2;
            proof {
                assert(final(self).prevs().take(old(self).prevs().len() as int) =~= old(
                    self,
                ).prevs());
                assert(final(self).prevs().skip(old(self).prevs().len() as int + 1) =~= old(
                    self,
                ).nexts().take(k as int));
                assert(final(self).nexts() =~= old(self).nexts().skip(k as int + 1));
            }
            true
        } else {
            false
        }
    }
}

} // verus!
