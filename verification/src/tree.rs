//! A binary search tree over integers; duplicates are dropped.

use vstd::prelude::*;

verus! {

/// A binary search tree: empty, or a root node.
#[derive(Debug)]
pub struct Tree(pub Option<Box<Node>>);

/// A node: a value and two subtrees.
#[derive(Debug)]
pub struct Node {
    data: i32,
    left: Tree,
    right: Tree,
}

impl Node {
    /// A leaf node carrying `data`.
    pub fn from(data: i32) -> (r: Node)
        ensures
            r.data_spec() == data,
            r.left_spec().wf(),
            r.right_spec().wf(),
            r.left_spec().contents() == Set::<i32>::empty(),
            r.right_spec().contents() == Set::<i32>::empty(),
    {
        Node { data, left: Tree(None), right: Tree(None) }
    }

    /// The node's value.
    pub closed spec fn data_spec(&self) -> i32 {
        self.data
    }

    /// The left subtree.
    pub closed spec fn left_spec(&self) -> Tree {
        self.left
    }

    /// The right subtree.
    pub closed spec fn right_spec(&self) -> Tree {
        self.right
    }
}

impl Tree {
    /// The values the tree holds.
    pub open spec fn contents(&self) -> Set<i32>
        decreases self,
    {
        match self.0 {
            None => Set::empty(),
            Some(node) => node.left_spec().contents().insert(node.data_spec()).union(
                node.right_spec().contents(),
            ),
        }
    }

    /// The search order: everything left of a node is smaller,
    /// everything right of it larger, recursively.
    pub open spec fn wf(&self) -> bool
        decreases self,
    {
        match self.0 {
            None => true,
            Some(node) => {
                &&& node.left_spec().wf()
                &&& node.right_spec().wf()
                &&& forall|y: i32| node.left_spec().contents().contains(y) ==> y
                    < node.data_spec()
                &&& forall|y: i32| node.right_spec().contents().contains(y) ==> y
                    > node.data_spec()
            },
        }
    }

    /// The empty tree.
    pub fn new() -> (r: Tree)
        ensures
            r.wf(),
            r.contents() == Set::<i32>::empty(),
    {
        Tree(None)
    }

    /// Puts `data` where the search order wants it; a value already
    /// held is left alone.
    pub fn insert(&mut self, data: i32)
        requires
            old(self).wf(),
        ensures
            final(self).wf(),
            final(self).contents() == old(self).contents().insert(data),
        decreases *old(self),
    {
        match self.0 {
            None => {
                self.0 = Some(Box::new(Node::from(data)));
                proof {
                    assert(final(self).contents() =~= old(self).contents().insert(data));
                }
            },
            Some(ref mut node) => {
                let d = node.data;
                if data < d {
                    node.left.insert(data);
                    proof {
                        assert(final(self).contents() =~= old(self).contents().insert(data));
                        let m = self.0->Some_0;
                        let m0 = old(self).0->Some_0;
                        assert(m.left_spec().contents() == m0.left_spec().contents().insert(
                            data,
                        ));
                        assert forall|y: i32|
                            m.left_spec().contents().contains(y) implies y < m.data_spec() by {
                            if y != data {
                                assert(m0.left_spec().contents().contains(y));
                            }
                        }
                    }
                } else if data > d {
                    node.right.insert(data);
                    proof {
                        assert(final(self).contents() =~= old(self).contents().insert(data));
                        let m = self.0->Some_0;
                        let m0 = old(self).0->Some_0;
                        assert(m.right_spec().contents() == m0.right_spec().contents().insert(
                            data,
                        ));
                        assert forall|y: i32|
                            m.right_spec().contents().contains(y) implies y > m.data_spec() by {
                            if y != data {
                                assert(m0.right_spec().contents().contains(y));
                            }
                        }
                    }
                } else {
                    proof {
                        assert(old(self).contents().contains(data));
                        assert(final(self).contents() =~= old(self).contents().insert(data));
                    }
                }
            },
        }
    }

    /// The values, left to right: first the left subtree's, then the
    /// root's, then the right subtree's.
    pub fn in_order(&self) -> (r: Vec<i32>)
        ensures
            forall|i: int| 0 <= i < r@.len() ==> self.contents().contains(#[trigger] r@[i]),
            forall|y: i32| self.contents().contains(y) ==> r@.contains(y),
        decreases *self,
    {
        match &self.0 {
            None => Vec::new(),
            Some(node) => {
                let mut r = node.left.in_order();
                let ghost l0 = r@;
                r.push(node.data);
                let right = node.right.in_order();
                let ghost mid = r@;
                let mut k: usize = 0;
                let n = right.len();
                while k < n
                    invariant
                        n == right@.len(),
                        k <= n,
                        r@ == mid + right@.take(k as int),
                    decreases n - k,
                {
                    r.push(right[k]);
                    proof {
                        assert(mid + right@.take(k as int + 1) =~= (mid + right@.take(
                            k as int,
                        )).push(right@[k as int]));
                    }
                    k = k + 1;
                }
                proof {
                    assert(right@.take(n as int) =~= right@);
                    assert(r@ =~= l0 + seq![node.data_spec()] + right@);
                    let c = self.contents();
                    assert forall|i: int| 0 <= i < r@.len() implies c.contains(
                        #[trigger] r@[i],
                    ) by {
                        if i < l0.len() {
                            assert(r@[i] == l0[i]);
                            assert(node.left_spec().contents().contains(l0[i]));
                        } else if i == l0.len() {
                            assert(r@[i] == node.data_spec());
                        } else {
                            assert(r@[i] == right@[i - l0.len() - 1]);
                            assert(node.right_spec().contents().contains(
                                right@[i - l0.len() - 1],
                            ));
                        }
                    }
                    assert forall|y: i32| c.contains(y) implies r@.contains(y) by {
                        if node.left_spec().contents().contains(y) {
                            let i = choose|i: int| 0 <= i < l0.len() && l0[i] == y;
                            assert(r@[i] == y);
                        } else if y == node.data_spec() {
                            assert(r@[l0.len() as int] == y);
                        } else {
                            assert(node.right_spec().contents().contains(y));
                            assert(right@.contains(y));
                            let j = choose|j: int| 0 <= j < right@.len() && right@[j] == y;
                            assert(r@[l0.len() + 1 + j] == y);
                        }
                    }
                }
                r
            },
        }
    }
}

} // verus!
