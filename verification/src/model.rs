//! The mathematical model of the search tree.
//!
//! A [`Tree`] is empty or a [`Node`] with a key, a value, two recorded
//! heights and two subtrees. The functions here say what inserting,
//! looking up and deleting a key mean; the executable tree in
//! [`crate::avl`] computes them.

use vstd::prelude::*;
use crate::order::key_lt;

verus! {

/// Which side of a node is too high, if any.
#[derive(Debug)]
pub enum Balance {
    Left,
    Right,
    Neither,
}

/// A node of the tree.
///
/// `lheight` and `rheight` are what the node has recorded of the heights of
/// its subtrees. A rotation resets them, so they may be smaller than what
/// the subtrees would report now.
pub struct Node<V> {
    pub key: Seq<char>,
    pub value: V,
    pub lheight: nat,
    pub rheight: nat,
    pub left: Tree<V>,
    pub right: Tree<V>,
}

/// A tree: empty, or a node.
pub enum Tree<V> {
    Empty,
    Node(Box<Node<V>>),
}

/// The larger of two heights.
pub open spec fn larger(a: nat, b: nat) -> nat {
    if a >= b {
        a
    } else {
        b
    }
}

/// One more than `h`. Heights are counted in 32 bits: one that has reached
/// the largest such number stays there.
pub open spec fn raised(h: nat) -> nat {
    if h < u32::MAX {
        h + 1
    } else {
        h
    }
}

/// The keys of a listing come one before the other, without repetition.
pub open spec fn ascending<V>(list: Seq<(Seq<char>, V)>) -> bool {
    forall|i: int, j: int| 0 <= i < j < list.len() ==> key_lt(list[i].0, list[j].0)
}

/// A listing with the entry of `k` put at its place among the keys, or
/// replaced where the listing has one.
pub open spec fn listing_with<V>(list: Seq<(Seq<char>, V)>, k: Seq<char>, v: V) -> Seq<
    (Seq<char>, V),
>
    decreases list.len(),
{
    if list.len() == 0 {
        seq![(k, v)]
    } else if list[0].0 == k {
        seq![(k, v)] + list.drop_first()
    } else if key_lt(k, list[0].0) {
        seq![(k, v)] + list
    } else {
        seq![list[0]] + listing_with(list.drop_first(), k, v)
    }
}

impl<V> Tree<V> {
    /// The height that a parent records of this subtree: 0 if it is empty,
    /// else one more than the larger of the heights its root has recorded.
    pub open spec fn height(self) -> nat {
        match self {
            Tree::Empty => 0,
            Tree::Node(n) => n.height(),
        }
    }

    /// `k` is the key of some node of the tree.
    pub open spec fn has_key(self, k: Seq<char>) -> bool
        decreases self,
    {
        match self {
            Tree::Empty => false,
            Tree::Node(n) => k == n.key || n.left.has_key(k) || n.right.has_key(k),
        }
    }

    /// Some node of the tree holds `k` together with `v`.
    pub open spec fn holds(self, k: Seq<char>, v: V) -> bool
        decreases self,
    {
        match self {
            Tree::Empty => false,
            Tree::Node(n) => (k == n.key && v == n.value) || n.left.holds(k, v) || n.right.holds(
                k,
                v,
            ),
        }
    }

    /// The keys with their values, left subtree first, then the root, then
    /// the right subtree.
    pub open spec fn entries(self) -> Seq<(Seq<char>, V)>
        decreases self,
    {
        match self {
            Tree::Empty => Seq::empty(),
            Tree::Node(n) => n.left.entries().push((n.key, n.value)) + n.right.entries(),
        }
    }

    /// The value found for `k` by going down from the root: left where `k`
    /// comes before a node's key, right where it comes after.
    pub open spec fn lookup(self, k: Seq<char>) -> Option<V>
        decreases self,
    {
        match self {
            Tree::Empty => None,
            Tree::Node(n) => if k == n.key {
                Some(n.value)
            } else if key_lt(k, n.key) {
                n.left.lookup(k)
            } else {
                n.right.lookup(k)
            },
        }
    }

    /// The search-tree order: at every node the keys of the left subtree
    /// come before the node's key, and those of the right subtree after it.
    pub open spec fn ordered(self) -> bool
        decreases self,
    {
        match self {
            Tree::Empty => true,
            Tree::Node(n) => {
                &&& n.left.ordered()
                &&& n.right.ordered()
                &&& forall|k: Seq<char>| n.left.has_key(k) ==> key_lt(k, n.key)
                &&& forall|k: Seq<char>| n.right.has_key(k) ==> key_lt(n.key, k)
            },
        }
    }

    /// No node has recorded more of a subtree's height than the subtree
    /// reports.
    pub open spec fn heights_sound(self) -> bool
        decreases self,
    {
        match self {
            Tree::Empty => true,
            Tree::Node(n) => {
                &&& n.left.heights_sound()
                &&& n.right.heights_sound()
                &&& n.lheight <= n.left.height()
                &&& n.rheight <= n.right.height()
            },
        }
    }

    /// What holds of every tree that the library builds: the search-tree
    /// order, and recorded heights that are sound.
    pub open spec fn wf(self) -> bool {
        self.ordered() && self.heights_sound()
    }

    /// At every node the two recorded heights differ by at most one.
    pub open spec fn balanced(self) -> bool
        decreases self,
    {
        match self {
            Tree::Empty => true,
            Tree::Node(n) => {
                &&& n.left.balanced()
                &&& n.right.balanced()
                &&& n.lheight <= n.rheight + 1
                &&& n.rheight <= n.lheight + 1
            },
        }
    }

    /// The tree with `k` set to `v`.
    ///
    /// An empty tree becomes a single node. In a node with key `k` the value
    /// is replaced. Else the key goes into the left or the right subtree,
    /// the node records that subtree's new height, and is rebalanced.
    pub open spec fn add(self, k: Seq<char>, v: V) -> Node<V>
        decreases self,
    {
        match self {
            Tree::Empty => Node::leaf(k, v),
            Tree::Node(n) => if k == n.key {
                Node { value: v, ..*n }
            } else if key_lt(k, n.key) {
                n.with_left(Tree::Node(Box::new(n.left.add(k, v)))).rebalance()
            } else {
                n.with_right(Tree::Node(Box::new(n.right.add(k, v)))).rebalance()
            },
        }
    }

    /// The tree without `k`.
    ///
    /// The search goes down as in `lookup`; every node on the way records
    /// the new height of the subtree that was searched. The node with key
    /// `k` takes the largest entry of its left subtree in its place, or,
    /// without a left subtree, the smallest of its right subtree; without
    /// any subtree it goes. Nothing is rebalanced.
    pub open spec fn delete(self, k: Seq<char>) -> Tree<V>
        decreases self,
    {
        match self {
            Tree::Empty => Tree::Empty,
            Tree::Node(n) => if k == n.key {
                if n.left is Node {
                    let (top, rest) = n.left.shift_rightmost();
                    Tree::Node(
                        Box::new(
                            Node {
                                key: top.0,
                                value: top.1,
                                lheight: rest.height(),
                                left: rest,
                                ..*n
                            },
                        ),
                    )
                } else if n.right is Node {
                    let (top, rest) = n.right.shift_leftmost();
                    Tree::Node(
                        Box::new(
                            Node {
                                key: top.0,
                                value: top.1,
                                rheight: rest.height(),
                                right: rest,
                                ..*n
                            },
                        ),
                    )
                } else {
                    Tree::Empty
                }
            } else if key_lt(k, n.key) {
                if n.left is Node {
                    Tree::Node(Box::new(n.with_left(n.left.delete(k))))
                } else {
                    self
                }
            } else {
                if n.right is Node {
                    Tree::Node(Box::new(n.with_right(n.right.delete(k))))
                } else {
                    self
                }
            },
        }
    }

    /// The number of entries that the rotations cut off when `k` is set to
    /// `v`.
    pub open spec fn add_cut_off(self, k: Seq<char>, v: V) -> nat
        decreases self,
    {
        match self {
            Tree::Empty => 0,
            Tree::Node(n) => if k == n.key {
                0
            } else if key_lt(k, n.key) {
                n.left.add_cut_off(k, v) + n.with_left(n.left.add(k, v).tree()).cut_off()
            } else {
                n.right.add_cut_off(k, v) + n.with_right(n.right.add(k, v).tree()).cut_off()
            },
        }
    }

    /// The last entry of the tree, and the tree without it. Every node on
    /// the way down the right side records the new height of its right
    /// subtree.
    pub open spec fn shift_rightmost(self) -> ((Seq<char>, V), Tree<V>)
        recommends
            self is Node,
        decreases self,
    {
        match self {
            Tree::Empty => (arbitrary(), Tree::Empty),
            Tree::Node(n) => if n.right is Node {
                let (top, rest) = n.right.shift_rightmost();
                (top, Tree::Node(Box::new(n.with_right(rest))))
            } else {
                ((n.key, n.value), n.left)
            },
        }
    }

    /// The first entry of the tree, and the tree without it: the mirror
    /// image of `shift_rightmost`.
    pub open spec fn shift_leftmost(self) -> ((Seq<char>, V), Tree<V>)
        recommends
            self is Node,
        decreases self,
    {
        match self {
            Tree::Empty => (arbitrary(), Tree::Empty),
            Tree::Node(n) => if n.left is Node {
                let (top, rest) = n.left.shift_leftmost();
                (top, Tree::Node(Box::new(n.with_left(rest))))
            } else {
                ((n.key, n.value), n.right)
            },
        }
    }
}

impl<V> Node<V> {
    /// A node without subtrees.
    pub open spec fn leaf(k: Seq<char>, v: V) -> Node<V> {
        Node { key: k, value: v, lheight: 0, rheight: 0, left: Tree::Empty, right: Tree::Empty }
    }

    /// The node as a tree.
    pub open spec fn tree(self) -> Tree<V> {
        Tree::Node(Box::new(self))
    }

    /// One more than the larger of the two recorded heights.
    pub open spec fn height(self) -> nat {
        raised(larger(self.lheight, self.rheight))
    }

    /// The node with another left subtree, whose height it records.
    pub open spec fn with_left(self, left: Tree<V>) -> Node<V> {
        Node { lheight: left.height(), left: left, ..self }
    }

    /// The node with another right subtree, whose height it records.
    pub open spec fn with_right(self, right: Tree<V>) -> Node<V> {
        Node { rheight: right.height(), right: right, ..self }
    }

    /// The side on which the recorded height is larger by more than one.
    pub open spec fn leaning(self) -> Balance {
        if self.rheight + 1 < self.lheight {
            Balance::Left
        } else if self.lheight + 1 < self.rheight {
            Balance::Right
        } else {
            Balance::Neither
        }
    }

    /// The node as the right child in a rotation to the right: without its
    /// left subtree, and with both heights recorded as 0.
    pub open spec fn cut_left(self) -> Node<V> {
        Node { lheight: 0, rheight: 0, left: Tree::Empty, ..self }
    }

    /// The node as the left child in a rotation to the left: without its
    /// right subtree, and with both heights recorded as 0.
    pub open spec fn cut_right(self) -> Node<V> {
        Node { lheight: 0, rheight: 0, right: Tree::Empty, ..self }
    }

    /// The rotation for a node whose left side is too high.
    ///
    /// Where the left child has a left child, the left child becomes the
    /// root, keeps its left subtree and takes the old root, cut off from its
    /// left subtree, as its right child. Else, where the left child has a
    /// right child, that grandchild becomes the root, between the left
    /// child, cut off from its right subtree, and the old root, cut off from
    /// its left subtree. The new root records the heights 1 and 1. What the
    /// new root held on the side that the old root takes is no longer in the
    /// tree. Without either grandchild the node stays as it is.
    pub open spec fn balance_left(self) -> Node<V> {
        match self.left {
            Tree::Node(l) => if l.left is Node {
                Node {
                    key: l.key,
                    value: l.value,
                    lheight: 1,
                    rheight: 1,
                    left: l.left,
                    right: self.cut_left().tree(),
                }
            } else {
                match l.right {
                    Tree::Node(g) => Node {
                        key: g.key,
                        value: g.value,
                        lheight: 1,
                        rheight: 1,
                        left: (Node { rheight: 0, right: Tree::Empty, ..*l }).tree(),
                        right: self.cut_left().tree(),
                    },
                    Tree::Empty => self,
                }
            },
            Tree::Empty => self,
        }
    }

    /// The rotation for a node whose right side is too high: the mirror
    /// image of `balance_left`.
    pub open spec fn balance_right(self) -> Node<V> {
        match self.right {
            Tree::Node(r) => if r.right is Node {
                Node {
                    key: r.key,
                    value: r.value,
                    lheight: 1,
                    rheight: 1,
                    left: self.cut_right().tree(),
                    right: r.right,
                }
            } else {
                match r.left {
                    Tree::Node(g) => Node {
                        key: g.key,
                        value: g.value,
                        lheight: 1,
                        rheight: 1,
                        left: self.cut_right().tree(),
                        right: (Node { lheight: 0, left: Tree::Empty, ..*r }).tree(),
                    },
                    Tree::Empty => self,
                }
            },
            Tree::Empty => self,
        }
    }

    /// The node after the rotation that its recorded heights ask for.
    pub open spec fn rebalance(self) -> Node<V> {
        match self.leaning() {
            Balance::Left => self.balance_left(),
            Balance::Right => self.balance_right(),
            Balance::Neither => self,
        }
    }

    /// The number of entries that `rebalance` cuts off this node: those of
    /// the right subtree of a left child that becomes the root, those below
    /// a grandchild that becomes the root, or their mirror images.
    pub open spec fn cut_off(self) -> nat {
        match self.leaning() {
            Balance::Left => match self.left {
                Tree::Node(l) => if l.left is Node {
                    l.right.entries().len()
                } else {
                    match l.right {
                        Tree::Node(g) => g.left.entries().len() + g.right.entries().len(),
                        Tree::Empty => 0,
                    }
                },
                Tree::Empty => 0,
            },
            Balance::Right => match self.right {
                Tree::Node(r) => if r.right is Node {
                    r.left.entries().len()
                } else {
                    match r.left {
                        Tree::Node(g) => g.left.entries().len() + g.right.entries().len(),
                        Tree::Empty => 0,
                    }
                },
                Tree::Empty => 0,
            },
            Balance::Neither => 0,
        }
    }

    /// The tree under this node with `k` set to `v`.
    pub open spec fn add(self, k: Seq<char>, v: V) -> Node<V> {
        self.tree().add(k, v)
    }

    /// The tree under this node without `k`.
    pub open spec fn delete(self, k: Seq<char>) -> Tree<V> {
        self.tree().delete(k)
    }

    /// The value found for `k` under this node.
    pub open spec fn lookup(self, k: Seq<char>) -> Option<V> {
        self.tree().lookup(k)
    }

    /// The entries under this node, in the order of the tree.
    pub open spec fn entries(self) -> Seq<(Seq<char>, V)> {
        self.tree().entries()
    }

    /// The tree under this node keeps the search-tree order and sound
    /// heights.
    pub open spec fn wf(self) -> bool {
        self.tree().wf()
    }

    /// At every node under this one the recorded heights differ by at most
    /// one.
    pub open spec fn balanced(self) -> bool {
        self.tree().balanced()
    }
}

} // verus!
