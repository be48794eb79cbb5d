//! Huffman encoding: walking a binary code tree to turn characters
//! and strings into bit strings.

use vstd::prelude::*;

verus! {

/// A code tree: an inner node with a zero and a one branch, or a
/// leaf carrying a character.
#[derive(Debug)]
pub enum HuffmanNode {
    Tree(Box<HuffmanNode>, Box<HuffmanNode>),
    Leaf(char),
}

/// The code of `c` under the tree: digits of the path to its leaf,
/// `'0'` for left, `'1'` for right; `None` when no leaf carries `c`.
pub open spec fn encode_char_spec(n: HuffmanNode, c: char) -> Option<Seq<char>>
    decreases n,
{
    match n {
        HuffmanNode::Leaf(l) => if c == l {
            Some(Seq::empty())
        } else {
            None
        },
        HuffmanNode::Tree(l, r) => match encode_char_spec(*l, c) {
            Some(v) => Some(seq!['0'] + v),
            None => match encode_char_spec(*r, c) {
                Some(v) => Some(seq!['1'] + v),
                None => None,
            },
        },
    }
}

/// The encoding of a string: the codes of its encodable characters,
/// concatenated; characters without a leaf contribute nothing.
pub open spec fn encode_str_spec(n: HuffmanNode, s: Seq<char>) -> Seq<char>
    decreases s.len(),
{
    if s.len() == 0 {
        Seq::empty()
    } else {
        encode_str_spec(n, s.drop_last()) + match encode_char_spec(n, s.last()) {
            Some(v) => v,
            None => Seq::empty(),
        }
    }
}

/// The characters the tree's leaves carry.
pub open spec fn leaves(n: HuffmanNode) -> Set<char>
    decreases n,
{
    match n {
        HuffmanNode::Leaf(l) => Set::empty().insert(l),
        HuffmanNode::Tree(l, r) => leaves(*l).union(leaves(*r)),
    }
}

impl HuffmanNode {
    /// Encodes one character against the tree.
    pub fn encode_char(&self, c: char) -> (r: Option<Vec<char>>)
        ensures
            r is Some <==> encode_char_spec(*self, c) is Some,
            r is Some ==> r->Some_0@ == encode_char_spec(*self, c)->Some_0,
        decreases *self,
    {
        match self {
            HuffmanNode::Tree(l, r) => {
                if let Some(mut v) = l.encode_char(c) {
                    v.insert(0, '0');
                    proof {
                        assert(v@ =~= seq!['0'] + encode_char_spec(**l, c)->Some_0);
                    }
                    return Some(v);
                }
                if let Some(mut v) = r.encode_char(c) {
                    v.insert(0, '1');
                    proof {
                        assert(v@ =~= seq!['1'] + encode_char_spec(**r, c)->Some_0);
                    }
                    return Some(v);
                }
                None
            },
            HuffmanNode::Leaf(leaf) => {
                if c == *leaf {
                    Some(Vec::new())
                } else {
                    None
                }
            },
        }
    }

    /// Encodes a string against the tree; `None` when nothing in the
    /// string could be encoded.
    pub fn encode_str(&self, s: &str) -> (r: Option<Vec<char>>)
        ensures
            r is Some <==> encode_str_spec(*self, s@).len() > 0,
            r is Some ==> r->Some_0@ == encode_str_spec(*self, s@),
    {
        let mut result: Vec<char> = Vec::new();
        let n = s.unicode_len();
        let mut i: usize = 0;
        proof {
            assert(s@.take(0) =~= Seq::<char>::empty());
        }
        while i < n
            invariant
                n == s@.len(),
                i <= n,
                result@ == encode_str_spec(*self, s@.take(i as int)),
            decreases n - i,
        {
            let c = s.get_char(i);
            if let Some(v) = self.encode_char(c) {
                result.extend_from_slice(v.as_slice());
            }
            proof {
                assert(s@.take(i as int + 1).drop_last() =~= s@.take(i as int));
                assert(s@.take(i as int + 1).last() == s@[i as int]);
                assert(result@ =~= encode_str_spec(*self, s@.take(i as int + 1)));
            }
            i = i + 1;
        }
        proof {
            assert(s@.take(n as int) =~= s@);
        }
        if result.len() == 0 {
            None
        } else {
            Some(result)
        }
    }
}

} // verus!
