//! A singly linked list of integers with ordered insertion.

use vstd::prelude::*;

verus! {

/// A singly linked list: empty, or a head value and a boxed tail.
#[derive(Debug)]
pub struct LinkedList(pub Option<(i32, Box<LinkedList>)>);

/// Where ordered insertion puts a value: before the first element that
/// is not smaller.
pub open spec fn insert_spec(s: Seq<i32>, data: i32) -> Seq<i32>
    decreases s.len(),
{
    if s.len() == 0 {
        seq![data]
    } else if data <= s[0] {
        seq![data] + s
    } else {
        seq![s[0]] + insert_spec(s.skip(1), data)
    }
}

impl LinkedList {
    /// The values of the list, front to back.
    pub open spec fn view(&self) -> Seq<i32>
        decreases self,
    {
        match self.0 {
            None => Seq::empty(),
            Some((d, ref rest)) => seq![d] + rest.view(),
        }
    }

    /// The empty list.
    pub fn new() -> (r: LinkedList)
        ensures
            r.view() == Seq::<i32>::empty(),
    {
        LinkedList(None)
    }

    /// Puts `data` at the front.
    pub fn push_front(&mut self, data: i32)
        ensures
            final(self).view() == seq![data] + old(self).view(),
    {
        let next = self.0.take();
        self.0 = Some((data, Box::new(LinkedList(next))));
        proof {
            assert(final(self).view() =~= seq![data] + old(self).view());
        }
    }

    /// Puts `data` at the back.
    pub fn push_back(&mut self, data: i32)
        ensures
            final(self).view() == old(self).view() + seq![data],
        decreases *old(self),
    {
        match self.0 {
            Some((_, ref mut next)) => {
                next.push_back(data);
                proof {
                    assert(final(self).view() =~= old(self).view() + seq![data]);
                }
            },
            None => {
                self.push_front(data);
                proof {
                    assert(final(self).view() =~= old(self).view() + seq![data]);
                }
            },
        }
    }

    /// Puts `data` where it keeps an ordered list ordered.
    pub fn insert(&mut self, data: i32)
        ensures
            final(self).view() == insert_spec(old(self).view(), data),
        decreases *old(self),
    {
        match self.0 {
            None => {
                self.push_front(data);
            },
            Some((current, ref mut next)) => {
                if data <= current {
                    proof {
                        assert(old(self).view()[0] == current);
                        assert(old(self).view().len() > 0);
                    }
                    self.push_front(data);
                    proof {
                        assert(final(self).view() =~= insert_spec(old(self).view(), data));
                    }
                } else {
                    proof {
                        assert(old(self).view()[0] == current);
                        assert(old(self).view().len() > 0);
                    }
                    next.insert(data);
                    proof {
                        let s = old(self).view();
                        assert(s.skip(1) =~= old(self).0->Some_0.1.view());
                        assert(final(self).view() =~= seq![s[0]] + insert_spec(s.skip(1), data));
                        assert(final(self).view() =~= insert_spec(s, data));
                    }
                }
            },
        }
    }

    /// The values, front to back.
    pub fn to_vec(&self) -> (r: Vec<i32>)
        ensures
            r@ == self.view(),
    {
        let mut r: Vec<i32> = Vec::new();
        let mut cur: &LinkedList = self;
        loop
            invariant
                r@ + cur.view() == self.view(),
            decreases cur.view().len(),
        {
            match &cur.0 {
                None => {
                    proof {
                        assert(r@ =~= self.view());
                    }
                    return r;
                },
                Some((d, next)) => {
                    r.push(*d);
                    proof {
                        assert(r@ + next.view() =~= self.view());
                    }
                    cur = &**next;
                },
            }
        }
    }
}

} // verus!
