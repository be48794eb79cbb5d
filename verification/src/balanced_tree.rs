//! A self-balancing binary tree: inserts compare against the root and
//! a single rotation follows whenever one side outgrows the other by
//! more than one level. Heights are cached in a byte and stop counting
//! at its maximum, far beyond any depth a balanced tree reaches.

use vstd::prelude::*;

use vstd::multiset::Multiset;

verus! {

/// A tree: empty, or a root node.
#[derive(Debug)]
pub struct Tree(pub Option<Box<Node>>);

/// A node: a value, a cached height, and two subtrees.
#[derive(Debug)]
pub struct Node {
    data: i32,
    height: i8,
    left: Tree,
    right: Tree,
}

impl Node {
    /// A leaf node carrying `data`.
    pub fn from(data: i32) -> (r: Node)
        ensures
            r.contents() == Multiset::<i32>::empty().insert(data),
    {
        let r = Node { data, height: 0, left: Tree(None), right: Tree(None) };
        proof {
            assert(r.contents() =~= Multiset::<i32>::empty().insert(data));
        }
        r
    }

    /// The values under this node, with multiplicity.
    pub closed spec fn contents(&self) -> Multiset<i32>
        decreases *self,
    {
        self.left.contents().insert(self.data_spec()).add(self.right.contents())
    }

    /// The node's value.
    pub closed spec fn data_spec(&self) -> i32 {
        self.data
    }

    /// The cached height.
    pub closed spec fn height_spec(&self) -> i8 {
        self.height
    }

    /// The left subtree.
    pub closed spec fn left_spec(&self) -> Tree {
        self.left
    }

    /// The right subtree.
    pub closed spec fn right_spec(&self) -> Tree {
        self.right
    }

    /// Rotates this node down to the left; its right child becomes
    /// the top. The held values do not change.
    pub fn rotate_left(self) -> (r: Box<Node>)
        ensures
            r.contents() == self.contents(),
    {
        broadcast use vstd::multiset::group_multiset_axioms;

        let ghost orig = self;
        let mut this = self;
        let mut top = match this.right.0.take() {
            Some(right) => right,
            None => {
                proof {
                    assert(this.contents() =~= orig.contents());
                }
                return Box::new(this);
            },
        };
        let ghost top0 = *top;
        this.right = Tree(top.left.0.take());
        this.right.set_height();
        let ghost mid = this;
        top.left = Tree(Some(Box::new(this)));
        top.left.set_height();
        top.set_height();
        proof {
            assert(orig.contents() == orig.left_spec().contents().insert(orig.data_spec()).add(
                top0.contents(),
            ));
            assert(mid.contents() == orig.left_spec().contents().insert(orig.data_spec()).add(
                top0.left_spec().contents(),
            ));
            assert(top.contents() == mid.contents().insert(top0.data_spec()).add(
                top0.right_spec().contents(),
            ));
            assert(top.contents() =~= orig.contents());
        }
        top
    }

    /// Rotates this node down to the right; its left child becomes
    /// the top. The held values do not change.
    pub fn rotate_right(self) -> (r: Box<Node>)
        ensures
            r.contents() == self.contents(),
    {
        broadcast use vstd::multiset::group_multiset_axioms;

        let ghost orig = self;
        let mut this = self;
        let mut top = match this.left.0.take() {
            Some(left) => left,
            None => {
                proof {
                    assert(this.contents() =~= orig.contents());
                }
                return Box::new(this);
            },
        };
        let ghost top0 = *top;
        this.left = Tree(top.right.0.take());
        this.left.set_height();
        let ghost mid = this;
        top.right = Tree(Some(Box::new(this)));
        top.right.set_height();
        top.set_height();
        proof {
            assert(orig.contents() == top0.contents().insert(orig.data_spec()).add(
                orig.right_spec().contents(),
            ));
            assert(mid.contents() == top0.right_spec().contents().insert(orig.data_spec()).add(
                orig.right_spec().contents(),
            ));
            assert(top.contents() == top0.left_spec().contents().insert(top0.data_spec()).add(
                mid.contents(),
            ));
            assert(top.contents() =~= orig.contents());
        }
        top
    }

    /// Recomputes the cached height from the children, saturating.
    pub fn set_height(&mut self)
        ensures
            final(self).contents() == old(self).contents(),
            final(self).data_spec() == old(self).data_spec(),
            final(self).left_spec() == old(self).left_spec(),
            final(self).right_spec() == old(self).right_spec(),
    {
        let l = self.left.height();
        let r = self.right.height();
        let m = if l > r {
            l
        } else {
            r
        };
        self.height = if m == i8::MAX {
            m
        } else {
            m + 1
        };
    }
}

impl Tree {
    /// The values the tree holds, with multiplicity.
    pub open spec fn contents(&self) -> Multiset<i32>
        decreases *self,
    {
        match self.0 {
            None => Multiset::empty(),
            Some(node) => node.contents(),
        }
    }

    /// The empty tree.
    pub fn new() -> (r: Tree)
        ensures
            r.contents() == Multiset::<i32>::empty(),
    {
        Tree(None)
    }

    /// How unbalanced the root is: the right height minus the left.
    pub fn balance(&self) -> (r: i16)
    {
        match &self.0 {
            Some(node) => (node.right.height() as i16) - (node.left.height() as i16),
            None => 0,
        }
    }

    /// The cached height of the root, zero for the empty tree.
    pub fn height(&self) -> (r: i8) {
        match &self.0 {
            Some(node) => node.height,
            None => 0,
        }
    }

    /// Recomputes the root's cached height.
    pub fn set_height(&mut self)
        ensures
            final(self).contents() == old(self).contents(),
    {
        match self.0 {
            Some(ref mut node) => {
                let l = node.left.height();
                let r = node.right.height();
                let m = if l > r {
                    l
                } else {
                    r
                };
                node.height = if m == i8::MAX {
                    m
                } else {
                    m + 1
                };
            },
            None => {},
        }
    }

    /// Rotates the root to the left.
    pub fn rotate_left(&mut self)
        ensures
            final(self).contents() == old(self).contents(),
    {
        match self.0.take() {
            Some(node) => {
                self.0 = Some((*node).rotate_left());
            },
            None => {},
        }
    }

    /// Rotates the root to the right.
    pub fn rotate_right(&mut self)
        ensures
            final(self).contents() == old(self).contents(),
    {
        match self.0.take() {
            Some(node) => {
                self.0 = Some((*node).rotate_right());
            },
            None => {},
        }
    }

    /// Inserts `data` (smaller values go left, the rest right), then
    /// rebalances the root with a single rotation if one side now
    /// outgrows the other by more than one level.
    pub fn insert(&mut self, data: i32)
        ensures
            final(self).contents() == old(self).contents().insert(data),
        decreases *old(self),
    {
        broadcast use vstd::multiset::group_multiset_axioms;

        match self.0 {
            None => {
                self.0 = Some(Box::new(Node::from(data)));
                proof {
                    assert(self.contents() =~= old(self).contents().insert(data));
                }
            },
            Some(ref mut node) => {
                let d = node.data;
                if data < d {
                    node.left.insert(data);
                    proof {
                        assert(self.contents() =~= old(self).contents().insert(data));
                    }
                } else {
                    node.right.insert(data);
                    proof {
                        assert(self.contents() =~= old(self).contents().insert(data));
                    }
                }
            },
        }
        let b = self.balance();
        if b > 1 {
            self.rotate_left();
        } else if b < -1 {
            self.rotate_right();
        } else {
            self.set_height();
        }
    }
}

} // verus!
