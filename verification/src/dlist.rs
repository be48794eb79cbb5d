//! A doubly ended list: push and pop at both ends, with iteration.

use vstd::prelude::*;

use std::collections::VecDeque;

verus! {

/// A list with constant-time access to both ends.
#[derive(Debug)]
pub struct LinkedList<T> {
    items: VecDeque<T>,
}

impl<T> LinkedList<T> {
    /// The values of the list, front to back.
    pub closed spec fn view(&self) -> Seq<T> {
        self.items@
    }

    /// The empty list.
    pub fn new() -> (r: LinkedList<T>)
        ensures
            r.view() == Seq::<T>::empty(),
    {
        LinkedList { items: VecDeque::new() }
    }

    /// Puts `data` at the front.
    pub fn push_front(&mut self, data: T)
        ensures
            final(self).view() == seq![data] + old(self).view(),
    {
        self.items.push_front(data);
        proof {
            assert(final(self).view() =~= seq![data] + old(self).view());
        }
    }

    /// Puts `data` at the back.
    pub fn push_back(&mut self, data: T)
        ensures
            final(self).view() == old(self).view() + seq![data],
    {
        self.items.push_back(data);
        proof {
            assert(final(self).view() =~= old(self).view() + seq![data]);
        }
    }

    /// Takes the front value, if there is one.
    pub fn pop_front(&mut self) -> (r: Option<T>)
        ensures
            old(self).view().len() == 0 ==> r is None && final(self).view() == old(self).view(),
            old(self).view().len() > 0 ==> r == Some(old(self).view()[0])
                && final(self).view() == old(self).view().skip(1),
    {
        let r = self.items.pop_front();
        proof {
            if old(self).view().len() > 0 {
                assert(final(self).view() =~= old(self).view().skip(1));
            }
        }
        r
    }

    /// Takes the back value, if there is one.
    pub fn pop_back(&mut self) -> (r: Option<T>)
        ensures
            old(self).view().len() == 0 ==> r is None && final(self).view() == old(self).view(),
            old(self).view().len() > 0 ==> r == Some(old(self).view().last())
                && final(self).view() == old(self).view().drop_last(),
    {
        let r = self.items.pop_back();
        proof {
            if old(self).view().len() > 0 {
                assert(final(self).view() =~= old(self).view().drop_last());
            }
        }
        r
    }

    /// Whether the list holds nothing.
    pub fn is_empty(&self) -> (r: bool)
        ensures
            r == (self.view().len() == 0),
    {
        self.items.len() == 0
    }

    /// How many values the list holds.
    pub fn len(&self) -> (r: usize)
        ensures
            r == self.view().len(),
    {
        self.items.len()
    }

    /// A cursor over the list, front to back.
    pub fn iter(&self) -> (r: ListIter<'_, T>)
        ensures
            r.list_view() == self.view(),
            r.position() == 0,
    {
        ListIter { list: self, next: 0 }
    }
}

/// A cursor over a list.
#[derive(Debug)]
pub struct ListIter<'a, T> {
    list: &'a LinkedList<T>,
    next: usize,
}

impl<'a, T> ListIter<'a, T> {
    /// The values of the underlying list.
    pub closed spec fn list_view(&self) -> Seq<T> {
        self.list.view()
    }

    /// How many values have been handed out.
    pub closed spec fn position(&self) -> int {
        self.next as int
    }

    /// The next value, walking front to back.
    pub fn next(&mut self) -> (r: Option<&'a T>)
        ensures
            final(self).list_view() == old(self).list_view(),
            old(self).position() >= old(self).list_view().len() ==> r is None
                && final(self).position() == old(self).position(),
            old(self).position() < old(self).list_view().len() ==> {
                &&& final(self).position() == old(self).position() + 1
                &&& r is Some
                &&& *r->Some_0 == old(self).list_view()[old(self).position()]
            },
    {
        if self.next < self.list.items.len() {
            let r = &self.list.items[self.next];
            self.next = self.next + 1;
            Some(r)
        } else {
            None
        }
    }
}

} // verus!
