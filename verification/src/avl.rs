//! The persistent search tree.
//!
//! A tree is never changed: `add` and `delete` build the nodes along the
//! path they walk and share every subtree that they leave alone.

use vstd::prelude::*;
use std::sync::Arc;
use crate::contents::{
    lemma_add_count, lemma_add_lookup, lemma_add_shape, lemma_delete_absent, lemma_delete_lookup,
    lemma_lookup_held,
};
use crate::laws::{
    lemma_add_balanced, lemma_add_keys, lemma_add_wf, lemma_balance_left_wf,
    lemma_balance_right_wf, lemma_cut_left_wf, lemma_cut_right_wf, lemma_delete_wf, lemma_empty,
    lemma_entries_ascending, lemma_shift_leftmost, lemma_shift_rightmost, lemma_wf_from_parts,
    lemma_wf_parts,
};
use crate::model::{ascending, larger, listing_with, raised, Balance, Node, Tree};
use crate::order::{compare_keys, key_lt, lemma_key_lt_total, KeyOrder};
use crate::share::{share, share_opt};

verus! {

/// The larger of two recorded heights.
fn max(first: u32, second: u32) -> (m: u32)
    ensures
        m == larger(first as nat, second as nat),
{
    if first >= second {
        first
    } else {
        second
    }
}

/// One more than `h`, unless `h` is the largest height that can be
/// recorded.
fn raise(h: u32) -> (r: u32)
    ensures
        r == raised(h as nat),
{
    if h < u32::MAX {
        h + 1
    } else {
        h
    }
}

/// A node of the tree, and with it the tree below it.
#[derive(Debug)]
pub struct AVL<V> {
    key: Arc<String>,
    value: Arc<V>,
    lheight: u32,
    rheight: u32,
    left: Option<Arc<AVL<V>>>,
    right: Option<Arc<AVL<V>>>,
}

impl<V> View for AVL<V> {
    type V = Node<V>;

    closed spec fn view(&self) -> Node<V> {
        self.node()
    }
}

/// The tree that an optional root stands for.
pub open spec fn tree_of<V>(root: Option<Arc<AVL<V>>>) -> Tree<V> {
    match root {
        Some(t) => t@.tree(),
        None => Tree::Empty,
    }
}

/// The entries that a listing stands for.
pub open spec fn entries_of<V>(list: Seq<(Arc<String>, Arc<V>)>) -> Seq<(Seq<char>, V)> {
    list.map_values(|e: (Arc<String>, Arc<V>)| (e.0@, *e.1))
}

impl<V> Clone for AVL<V> {
    fn clone(&self) -> (c: AVL<V>)
        ensures
            c@ == self@,
    {
        proof {
            use_type_invariant(self);
        }
        AVL {
            key: share(&self.key),
            value: share(&self.value),
            lheight: self.lheight,
            rheight: self.rheight,
            left: share_opt(&self.left),
            right: share_opt(&self.right),
        }
    }
}

#[allow(non_snake_case)]
impl<V> AVL<V> {
    spec fn node(&self) -> Node<V>
        decreases self,
    {
        Node {
            key: self.key@,
            value: *self.value,
            lheight: self.lheight as nat,
            rheight: self.rheight as nat,
            left: match self.left {
                Some(l) => l.node().tree(),
                None => Tree::Empty,
            },
            right: match self.right {
                Some(r) => r.node().tree(),
                None => Tree::Empty,
            },
        }
    }

    /// Every tree keeps the search-tree order, and has recorded no height
    /// that is larger than what its subtree reports.
    #[verifier::type_invariant]
    spec fn inv(&self) -> bool {
        self.node().wf()
    }

    /// What the model holds of a node, field by field.
    proof fn lemma_view(&self)
        ensures
            self@.key == self.key@,
            self@.value == *self.value,
            self@.lheight == self.lheight,
            self@.rheight == self.rheight,
            self@.left == tree_of(self.left),
            self@.right == tree_of(self.right),
    {
    }

    fn cp(&self) -> (c: AVL<V>)
        ensures
            c@ == self@,
    {
        self.clone()
    }

    /// The height that a parent records of this node.
    fn height(&self) -> (h: u32)
        ensures
            h == self@.height(),
    {
        raise(max(self.lheight, self.rheight))
    }

    /// The height that a parent records of a subtree.
    fn heightOf(tree: &Option<Arc<AVL<V>>>) -> (h: u32)
        ensures
            h == tree_of(*tree).height(),
            tree_of(*tree).wf(),
    {
        match tree {
            Some(t) => {
                proof {
                    use_type_invariant(&**t);
                }
                t.height()
            },
            None => 0,
        }
    }

    /// This node with another left subtree, whose height it records.
    fn withLeft(&self, left: Option<Arc<AVL<V>>>) -> (t: AVL<V>)
        requires
            forall|k: Seq<char>| tree_of(left).has_key(k) ==> key_lt(k, self@.key),
        ensures
            t@ == self@.with_left(tree_of(left)),
    {
        proof {
            use_type_invariant(self);
            lemma_wf_parts(self@);
        }
        let lheight = Self::heightOf(&left);
        proof {
            lemma_wf_from_parts(self@.with_left(tree_of(left)));
        }
        AVL {
            key: share(&self.key),
            value: share(&self.value),
            lheight: lheight,
            rheight: self.rheight,
            left: left,
            right: share_opt(&self.right),
        }
    }

    /// This node with another right subtree, whose height it records.
    fn withRight(&self, right: Option<Arc<AVL<V>>>) -> (t: AVL<V>)
        requires
            forall|k: Seq<char>| tree_of(right).has_key(k) ==> key_lt(self@.key, k),
        ensures
            t@ == self@.with_right(tree_of(right)),
    {
        proof {
            use_type_invariant(self);
            lemma_wf_parts(self@);
        }
        let rheight = Self::heightOf(&right);
        proof {
            lemma_wf_from_parts(self@.with_right(tree_of(right)));
        }
        AVL {
            key: share(&self.key),
            value: share(&self.value),
            lheight: self.lheight,
            rheight: rheight,
            left: share_opt(&self.left),
            right: right,
        }
    }

    fn accumulate(&self, acc: &mut Vec<(Arc<String>, Arc<V>)>)
        ensures
            entries_of(final(acc)@) == entries_of(old(acc)@) + self@.entries(),
        decreases self,
    {
        if let Some(ref left) = self.left {
            left.accumulate(acc);
        }
        let ghost before = acc@;
        assert(entries_of(before) == entries_of(old(acc)@) + self@.left.entries());
        acc.push((share(&self.key), share(&self.value)));
        let ghost pushed = acc@;
        assert(entries_of(pushed) =~= entries_of(before).push((self@.key, self@.value)));
        if let Some(ref right) = self.right {
            right.accumulate(acc);
        }
        assert(entries_of(acc@) == entries_of(pushed) + self@.right.entries());
        assert(entries_of(acc@) =~= entries_of(old(acc)@) + self@.entries());
    }

    /// The entries of the tree in the order of their keys, which is strictly
    /// ascending.
    pub fn lineup(&self) -> (list: Vec<(Arc<String>, Arc<V>)>)
        ensures
            entries_of(list@) == self@.entries(),
            ascending(entries_of(list@)),
    {
        proof {
            use_type_invariant(self);
            lemma_entries_ascending(self@.tree());
        }
        let mut v = Vec::<(Arc<String>, Arc<V>)>::new();
        assert(entries_of(v@) =~= Seq::empty());
        self.accumulate(&mut v);
        assert(entries_of(v@) =~= self@.entries());
        return v;
    }

    fn isBalanced(&self) -> (b: Balance)
        ensures
            b == self@.leaning(),
    {
        if self.lheight > self.rheight && self.lheight - self.rheight > 1 {
            return Balance::Left;
        }
        if self.rheight > self.lheight && self.rheight - self.lheight > 1 {
            return Balance::Right;
        }
        Balance::Neither
    }

    fn hasLeft(&self) -> (b: bool)
        ensures
            b == (self@.left is Node),
    {
        self.left.is_some()
    }

    fn hasRight(&self) -> (b: bool)
        ensures
            b == (self@.right is Node),
    {
        self.right.is_some()
    }

    fn shiftRightmost(&self) -> (r: ((Arc<String>, Arc<V>), Option<Arc<AVL<V>>>))
        ensures
            (r.0.0@, *r.0.1) == self@.tree().shift_rightmost().0,
            tree_of(r.1) == self@.tree().shift_rightmost().1,
        decreases self,
    {
        proof {
            use_type_invariant(self);
            lemma_wf_parts(self@);
        }
        if let Some(ref right) = self.right {
            proof {
                use_type_invariant(&**right);
                lemma_shift_rightmost(right@.tree());
            }
            let (rightmost, tree) = right.shiftRightmost();
            assert forall|k: Seq<char>| tree_of(tree).has_key(k) implies key_lt(self@.key, k) by {
                assert(right@.tree().has_key(k));
            }
            return (rightmost, Some(Arc::new(self.withRight(tree))));
        }
        let k = share(&self.key);
        let v = share(&self.value);
        let left = share_opt(&self.left);
        ((k, v), left)
    }

    fn shiftLeftmost(&self) -> (r: ((Arc<String>, Arc<V>), Option<Arc<AVL<V>>>))
        ensures
            (r.0.0@, *r.0.1) == self@.tree().shift_leftmost().0,
            tree_of(r.1) == self@.tree().shift_leftmost().1,
        decreases self,
    {
        proof {
            use_type_invariant(self);
            lemma_wf_parts(self@);
        }
        if let Some(ref left) = self.left {
            proof {
                use_type_invariant(&**left);
                lemma_shift_leftmost(left@.tree());
            }
            let (leftmost, tree) = left.shiftLeftmost();
            assert forall|k: Seq<char>| tree_of(tree).has_key(k) implies key_lt(k, self@.key) by {
                assert(left@.tree().has_key(k));
            }
            return (leftmost, Some(Arc::new(self.withLeft(tree))));
        }
        let k = share(&self.key);
        let v = share(&self.value);
        let right = share_opt(&self.right);
        ((k, v), right)
    }

    /// This node without its left subtree, and with both heights recorded
    /// as 0.
    fn cutLeft(&self) -> (t: AVL<V>)
        ensures
            t@ == self@.cut_left(),
    {
        proof {
            use_type_invariant(self);
            lemma_cut_left_wf(self@);
        }
        AVL {
            key: share(&self.key),
            value: share(&self.value),
            lheight: 0,
            rheight: 0,
            left: None,
            right: share_opt(&self.right),
        }
    }

    /// This node without its right subtree, and with both heights recorded
    /// as 0.
    fn cutRight(&self) -> (t: AVL<V>)
        ensures
            t@ == self@.cut_right(),
    {
        proof {
            use_type_invariant(self);
            lemma_cut_right_wf(self@);
        }
        AVL {
            key: share(&self.key),
            value: share(&self.value),
            lheight: 0,
            rheight: 0,
            left: share_opt(&self.left),
            right: None,
        }
    }

    fn balanceLeft(&self) -> (t: AVL<V>)
        ensures
            t@ == self@.balance_left(),
    {
        proof {
            use_type_invariant(self);
            lemma_balance_left_wf(self@);
            lemma_wf_parts(self@.balance_left());
        }
        if let Some(ref left) = self.left {
            if left.hasLeft() {
                proof {
                    left.lemma_view();
                }
                return AVL {
                    key: share(&left.key),
                    value: share(&left.value),
                    lheight: 1,
                    rheight: 1,
                    left: share_opt(&left.left),
                    right: Some(Arc::new(self.cutLeft())),
                };
            }
            if let Some(ref r) = left.right {
                proof {
                    left.lemma_view();
                    r.lemma_view();
                }
                let leftClone = AVL {
                    key: share(&left.key),
                    value: share(&left.value),
                    lheight: left.lheight,
                    rheight: 0,
                    left: share_opt(&left.left),
                    right: None,
                };
                proof {
                    leftClone.lemma_view();
                }
                assert(leftClone@ == (Node { rheight: 0, right: Tree::Empty, ..left@ }));
                return AVL {
                    key: share(&r.key),
                    value: share(&r.value),
                    lheight: 1,
                    rheight: 1,
                    left: Some(Arc::new(leftClone)),
                    right: Some(Arc::new(self.cutLeft())),
                };
            }
        }
        self.cp()
    }

    fn balanceRight(&self) -> (t: AVL<V>)
        ensures
            t@ == self@.balance_right(),
    {
        proof {
            use_type_invariant(self);
            lemma_balance_right_wf(self@);
            lemma_wf_parts(self@.balance_right());
        }
        if let Some(ref right) = self.right {
            if right.hasRight() {
                proof {
                    right.lemma_view();
                }
                return AVL {
                    key: share(&right.key),
                    value: share(&right.value),
                    lheight: 1,
                    rheight: 1,
                    left: Some(Arc::new(self.cutRight())),
                    right: share_opt(&right.right),
                };
            }
            if let Some(ref l) = right.left {
                proof {
                    right.lemma_view();
                    l.lemma_view();
                }
                let rightClone = AVL {
                    key: share(&right.key),
                    value: share(&right.value),
                    lheight: 0,
                    rheight: right.rheight,
                    left: None,
                    right: share_opt(&right.right),
                };
                proof {
                    rightClone.lemma_view();
                }
                assert(rightClone@ == (Node { lheight: 0, left: Tree::Empty, ..right@ }));
                return AVL {
                    key: share(&l.key),
                    value: share(&l.value),
                    lheight: 1,
                    rheight: 1,
                    left: Some(Arc::new(self.cutRight())),
                    right: Some(Arc::new(rightClone)),
                };
            }
        }
        self.cp()
    }

    /// The node after the rotation that its recorded heights ask for.
    fn rebalance(&self) -> (t: AVL<V>)
        ensures
            t@ == self@.rebalance(),
    {
        match self.isBalanced() {
            Balance::Left => self.balanceLeft(),
            Balance::Right => self.balanceRight(),
            Balance::Neither => self.cp(),
        }
    }

    /// A tree of one node.
    pub fn new(key: String, value: V) -> (t: AVL<V>)
        ensures
            t@ == Node::leaf(key@, value),
            t@.wf(),
            t@.balanced(),
    {
        proof {
            lemma_empty::<V>();
            lemma_wf_from_parts(Node::leaf(key@, value));
        }
        AVL {
            key: Arc::new(key),
            value: Arc::new(value),
            lheight: 0,
            rheight: 0,
            left: None,
            right: None,
        }
    }

    /// Every tree is well formed: its keys are in search-tree order, and no
    /// node has recorded a height that is larger than what its subtree
    /// reports. Nothing is done at run time.
    pub fn wellFormed(&self)
        ensures
            self@.wf(),
    {
        proof {
            use_type_invariant(self);
        }
    }

    /// The key of the root.
    pub fn key(&self) -> (k: &String)
        ensures
            k@ == self@.key,
    {
        &*self.key
    }

    /// The value of the root.
    pub fn val(&self) -> (v: &V)
        ensures
            *v == self@.value,
    {
        &*self.value
    }

    /// The heights that the root has recorded of its left and of its right
    /// subtree.
    pub fn heights(&self) -> (h: (u32, u32))
        ensures
            h.0 == self@.lheight,
            h.1 == self@.rheight,
    {
        (self.lheight, self.rheight)
    }

    /// The left subtree.
    pub fn left(&self) -> (l: Option<Arc<AVL<V>>>)
        ensures
            tree_of(l) == self@.left,
    {
        share_opt(&self.left)
    }

    /// The right subtree.
    pub fn right(&self) -> (r: Option<Arc<AVL<V>>>)
        ensures
            tree_of(r) == self@.right,
    {
        share_opt(&self.right)
    }

    /// The tree with `key` set to `value`. The tree it is called on stays as
    /// it was.
    ///
    /// The new tree holds `key` with no value but `value`, and any other key
    /// with no value but the one that the old tree holds. A rotation may cut
    /// entries off: the new tree has one entry more than the old one unless
    /// that held `key`, less those that were cut off. Where none was, the
    /// new tree lists what the old one lists, with `key` and `value` put in
    /// their place.
    pub fn add(&self, key: String, value: V) -> (t: AVL<V>)
        ensures
            t@ == self@.add(key@, value),
            t@.wf(),
            self@.balanced() ==> t@.balanced(),
            forall|k: Seq<char>|
                (#[trigger] t@.lookup(k)) is Some ==> t@.lookup(k) == (if k == key@ {
                    Some(value)
                } else {
                    self@.lookup(k)
                }),
            t@.entries().len() + self@.tree().add_cut_off(key@, value) == self@.entries().len() + (
            if self@.tree().has_key(key@) {
                0int
            } else {
                1int
            }),
            self@.tree().add_cut_off(key@, value) == 0 ==> t@.entries() == listing_with(
                self@.entries(),
                key@,
                value,
            ),
        decreases self,
    {
        proof {
            use_type_invariant(self);
            lemma_wf_parts(self@);
            lemma_add_wf(self@.tree(), key@, value);
            lemma_add_count(self@.tree(), key@, value);
            assert forall|k: Seq<char>|
                (#[trigger] self@.add(key@, value).lookup(k)) is Some implies self@.add(
                    key@,
                    value,
                ).lookup(k) == (if k == key@ {
                Some(value)
            } else {
                self@.lookup(k)
            }) by {
                lemma_add_lookup(self@.tree(), key@, value, k);
            }
            if self@.balanced() {
                lemma_add_balanced(self@.tree(), key@, value);
            }
            if self@.tree().add_cut_off(key@, value) == 0 {
                lemma_add_shape(self@.tree(), key@, value);
            }
            lemma_key_lt_total(key@, self@.key);
        }
        assert(Tree::<V>::Empty.add(key@, value) == Node::leaf(key@, value));
        match compare_keys(&key, &*self.key) {
            KeyOrder::Equal => {
                proof {
                    lemma_wf_from_parts(Node { value: value, ..self@ });
                }
                AVL {
                    key: share(&self.key),
                    value: Arc::new(value),
                    lheight: self.lheight,
                    rheight: self.rheight,
                    left: share_opt(&self.left),
                    right: share_opt(&self.right),
                }
            },
            KeyOrder::Less => {
                let nleft;
                if let Some(ref l) = self.left {
                    nleft = l.add(key, value);
                } else {
                    nleft = AVL::new(key, value);
                }
                assert forall|k: Seq<char>| nleft@.tree().has_key(k) implies key_lt(
                    k,
                    self@.key,
                ) by {
                    lemma_add_keys(self@.left, key@, value, k);
                }
                self.withLeft(Some(Arc::new(nleft))).rebalance()
            },
            KeyOrder::Greater => {
                let nright;
                if let Some(ref r) = self.right {
                    nright = r.add(key, value);
                } else {
                    nright = AVL::new(key, value);
                }
                assert forall|k: Seq<char>| nright@.tree().has_key(k) implies key_lt(
                    self@.key,
                    k,
                ) by {
                    lemma_add_keys(self@.right, key@, value, k);
                }
                self.withRight(Some(Arc::new(nright))).rebalance()
            },
        }
    }

    /// The value that a node of the tree holds with `key`; `None` where
    /// `key` is no key of the tree.
    pub fn get(&self, key: &String) -> (found: Option<Arc<V>>)
        ensures
            (match found {
                Some(v) => self@.lookup(key@) == Some(*v) && self@.tree().holds(key@, *v),
                None => self@.lookup(key@) is None && !self@.tree().has_key(key@),
            }),
        decreases self,
    {
        proof {
            use_type_invariant(self);
            lemma_lookup_held(self@.tree(), key@);
        }
        assert(Tree::<V>::Empty.lookup(key@) is None);
        match compare_keys(key, &*self.key) {
            KeyOrder::Equal => Some(share(&self.value)),
            KeyOrder::Less => {
                if let Some(ref left) = self.left {
                    return left.get(key);
                }
                None
            },
            KeyOrder::Greater => {
                if let Some(ref right) = self.right {
                    return right.get(key);
                }
                None
            },
        }
    }

    /// The tree without `key`: `None` where nothing is left. The tree it is
    /// called on stays as it was.
    ///
    /// The new tree holds nothing for `key`, and for every other key what
    /// the old tree holds. Where the old tree does not hold `key`, the new
    /// tree lists what the old one lists.
    pub fn delete(&self, key: &String) -> (t: Option<Arc<AVL<V>>>)
        ensures
            tree_of(t) == self@.delete(key@),
            tree_of(t).wf(),
            forall|k: Seq<char>| #[trigger]
                tree_of(t).lookup(k) == (if k == key@ {
                    None
                } else {
                    self@.lookup(k)
                }),
            !self@.tree().has_key(key@) ==> tree_of(t).entries() == self@.entries(),
        decreases self,
    {
        proof {
            use_type_invariant(self);
            lemma_wf_parts(self@);
            lemma_delete_wf(self@.tree(), key@);
            if !self@.tree().has_key(key@) {
                lemma_delete_absent(self@.tree(), key@);
            }
            assert forall|k: Seq<char>| #[trigger]
                self@.delete(key@).lookup(k) == (if k == key@ {
                    None
                } else {
                    self@.lookup(k)
                }) by {
                lemma_delete_lookup(self@.tree(), key@, k);
            }
            lemma_key_lt_total(key@, self@.key);
        }
        match compare_keys(key, &*self.key) {
            KeyOrder::Less => {
                if let Some(ref left) = self.left {
                    let newleft = left.delete(key);
                    proof {
                        lemma_delete_wf(self@.left, key@);
                    }
                    assert forall|k: Seq<char>| tree_of(newleft).has_key(k) implies key_lt(
                        k,
                        self@.key,
                    ) by {
                        assert(self@.left.has_key(k));
                    }
                    return Some(Arc::new(self.withLeft(newleft)));
                }
                Some(Arc::new(self.cp()))
            },
            KeyOrder::Greater => {
                if let Some(ref right) = self.right {
                    let newright = right.delete(key);
                    proof {
                        lemma_delete_wf(self@.right, key@);
                    }
                    assert forall|k: Seq<char>| tree_of(newright).has_key(k) implies key_lt(
                        self@.key,
                        k,
                    ) by {
                        assert(self@.right.has_key(k));
                    }
                    return Some(Arc::new(self.withRight(newright)));
                }
                Some(Arc::new(self.cp()))
            },
            KeyOrder::Equal => {
                if let Some(ref left) = self.left {
                    let ((key, value), tree) = left.shiftRightmost();
                    let lheight = Self::heightOf(&tree);
                    Some(
                        Arc::new(
                            AVL {
                                key: key,
                                value: value,
                                lheight: lheight,
                                rheight: self.rheight,
                                left: tree,
                                right: share_opt(&self.right),
                            },
                        ),
                    )
                } else if let Some(ref right) = self.right {
                    let ((key, value), tree) = right.shiftLeftmost();
                    let rheight = Self::heightOf(&tree);
                    Some(
                        Arc::new(
                            AVL {
                                key: key,
                                value: value,
                                lheight: self.lheight,
                                rheight: rheight,
                                left: None,
                                right: tree,
                            },
                        ),
                    )
                } else {
                    None
                }
            },
        }
    }
}

} // verus!
