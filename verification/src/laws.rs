//! What holds of the model of the tree.
//!
//! The lemmas here are stated over [`Tree`] and [`Node`] alone. The
//! executable tree rests on them for the order of its keys; the others say
//! what its users may count on.

use vstd::prelude::*;
use crate::model::{ascending, Balance, Node, Tree};
use crate::order::{key_lt, lemma_key_lt_asymmetric, lemma_key_lt_total, lemma_key_lt_transitive};

verus! {

/// The empty tree holds nothing, and is well formed and balanced.
pub proof fn lemma_empty<V>()
    ensures
        forall|k: Seq<char>| !(#[trigger] Tree::<V>::Empty.has_key(k)),
        forall|k: Seq<char>, v: V| !(#[trigger] Tree::<V>::Empty.holds(k, v)),
        forall|k: Seq<char>| (#[trigger] Tree::<V>::Empty.lookup(k)) is None,
        Tree::<V>::Empty.entries() == Seq::<(Seq<char>, V)>::empty(),
        Tree::<V>::Empty.wf(),
        Tree::<V>::Empty.balanced(),
{
}

/// A well-formed node, taken apart: its subtrees are well formed, its key
/// lies between their keys, and its recorded heights are sound.
pub proof fn lemma_wf_parts<V>(n: Node<V>)
    requires
        n.wf(),
    ensures
        n.left.wf(),
        n.right.wf(),
        forall|k: Seq<char>| n.left.has_key(k) ==> key_lt(k, n.key),
        forall|k: Seq<char>| n.right.has_key(k) ==> key_lt(n.key, k),
        n.lheight <= n.left.height(),
        n.rheight <= n.right.height(),
{
}

/// A node is well formed if its parts are as `lemma_wf_parts` says.
pub proof fn lemma_wf_from_parts<V>(n: Node<V>)
    requires
        n.left.wf(),
        n.right.wf(),
        forall|k: Seq<char>| n.left.has_key(k) ==> key_lt(k, n.key),
        forall|k: Seq<char>| n.right.has_key(k) ==> key_lt(n.key, k),
        n.lheight <= n.left.height(),
        n.rheight <= n.right.height(),
    ensures
        n.wf(),
{
}

/// A node reports a height of at least one.
pub proof fn lemma_node_height<V>(n: Node<V>)
    ensures
        n.height() >= 1,
        n.tree().height() >= 1,
{
}

/// A node cut off from its left subtree is well formed, and reports the
/// height 1.
pub proof fn lemma_cut_left_wf<V>(n: Node<V>)
    requires
        n.wf(),
    ensures
        n.cut_left().wf(),
        n.cut_left().height() == 1,
        forall|k: Seq<char>|
            n.cut_left().tree().has_key(k) <==> (k == n.key || n.right.has_key(k)),
{
    reveal_with_fuel(Tree::has_key, 2);
    lemma_wf_parts(n);
    lemma_wf_from_parts(n.cut_left());
}

/// A node cut off from its right subtree is well formed, and reports the
/// height 1.
pub proof fn lemma_cut_right_wf<V>(n: Node<V>)
    requires
        n.wf(),
    ensures
        n.cut_right().wf(),
        n.cut_right().height() == 1,
        forall|k: Seq<char>|
            n.cut_right().tree().has_key(k) <==> (k == n.key || n.left.has_key(k)),
{
    reveal_with_fuel(Tree::has_key, 2);
    lemma_wf_parts(n);
    lemma_wf_from_parts(n.cut_right());
}

/// A rotation to the right brings no key into the tree.
pub proof fn lemma_balance_left_keys<V>(n: Node<V>, k: Seq<char>)
    requires
        n.balance_left().tree().has_key(k),
    ensures
        n.tree().has_key(k),
{
    reveal_with_fuel(Tree::has_key, 2);
    match n.left {
        Tree::Node(l) => {
            assert(n.left.has_key(l.key));
            if l.left is Node {
                if l.left.has_key(k) {
                    assert(n.left.has_key(k));
                }
                assert(n.cut_left().tree().has_key(k) ==> k == n.key || n.right.has_key(k));
            } else {
                match l.right {
                    Tree::Node(g) => {
                        assert(l.right.has_key(g.key));
                        assert(n.left.has_key(g.key));
                        let cut = Node { rheight: 0, right: Tree::Empty, ..*l };
                        assert(cut.tree().has_key(k) ==> k == l.key);
                        assert(n.cut_left().tree().has_key(k) ==> k == n.key || n.right.has_key(
                            k,
                        ));
                    },
                    Tree::Empty => {},
                }
            }
        },
        Tree::Empty => {},
    }
}

/// A rotation to the left brings no key into the tree.
pub proof fn lemma_balance_right_keys<V>(n: Node<V>, k: Seq<char>)
    requires
        n.balance_right().tree().has_key(k),
    ensures
        n.tree().has_key(k),
{
    reveal_with_fuel(Tree::has_key, 2);
    match n.right {
        Tree::Node(r) => {
            assert(n.right.has_key(r.key));
            if r.right is Node {
                if r.right.has_key(k) {
                    assert(n.right.has_key(k));
                }
                assert(n.cut_right().tree().has_key(k) ==> k == n.key || n.left.has_key(k));
            } else {
                match r.left {
                    Tree::Node(g) => {
                        assert(r.left.has_key(g.key));
                        assert(n.right.has_key(g.key));
                        let cut = Node { lheight: 0, left: Tree::Empty, ..*r };
                        assert(cut.tree().has_key(k) ==> k == r.key);
                        assert(n.cut_right().tree().has_key(k) ==> k == n.key || n.left.has_key(
                            k,
                        ));
                    },
                    Tree::Empty => {},
                }
            }
        },
        Tree::Empty => {},
    }
}

/// Rebalancing brings no key into the tree.
pub proof fn lemma_rebalance_keys<V>(n: Node<V>, k: Seq<char>)
    requires
        n.rebalance().tree().has_key(k),
    ensures
        n.tree().has_key(k),
{
    match n.leaning() {
        Balance::Left => lemma_balance_left_keys(n, k),
        Balance::Right => lemma_balance_right_keys(n, k),
        Balance::Neither => {},
    }
}

/// A rotation to the right keeps a tree well formed.
pub proof fn lemma_balance_left_wf<V>(n: Node<V>)
    requires
        n.wf(),
    ensures
        n.balance_left().wf(),
{
    reveal_with_fuel(Tree::has_key, 2);
    lemma_wf_parts(n);
    lemma_cut_left_wf(n);
    match n.left {
        Tree::Node(l) => {
            lemma_wf_parts(*l);
            assert(n.left.has_key(l.key));
            assert forall|k: Seq<char>| n.cut_left().tree().has_key(k) implies key_lt(
                l.key,
                k,
            ) by {
                if k != n.key {
                    lemma_key_lt_transitive(l.key, n.key, k);
                }
            }
            if l.left is Node {
                lemma_node_height(*l.left->0);
                lemma_wf_from_parts(n.balance_left());
            } else {
                match l.right {
                    Tree::Node(g) => {
                        assert(l.right.has_key(g.key));
                        assert(n.left.has_key(g.key));
                        let cut = Node { rheight: 0, right: Tree::Empty, ..*l };
                        lemma_wf_from_parts(cut);
                        assert forall|k: Seq<char>| cut.tree().has_key(k) implies key_lt(
                            k,
                            g.key,
                        ) by {
                            assert(k == l.key);
                        }
                        assert forall|k: Seq<char>|
                            n.cut_left().tree().has_key(k) implies key_lt(g.key, k) by {
                            if k != n.key {
                                lemma_key_lt_transitive(g.key, n.key, k);
                            }
                        }
                        lemma_wf_from_parts(n.balance_left());
                    },
                    Tree::Empty => {},
                }
            }
        },
        Tree::Empty => {},
    }
}

/// A rotation to the left keeps a tree well formed.
pub proof fn lemma_balance_right_wf<V>(n: Node<V>)
    requires
        n.wf(),
    ensures
        n.balance_right().wf(),
{
    reveal_with_fuel(Tree::has_key, 2);
    lemma_wf_parts(n);
    lemma_cut_right_wf(n);
    match n.right {
        Tree::Node(r) => {
            lemma_wf_parts(*r);
            assert(n.right.has_key(r.key));
            assert forall|k: Seq<char>| n.cut_right().tree().has_key(k) implies key_lt(
                k,
                r.key,
            ) by {
                if k != n.key {
                    lemma_key_lt_transitive(k, n.key, r.key);
                }
            }
            if r.right is Node {
                lemma_node_height(*r.right->0);
                lemma_wf_from_parts(n.balance_right());
            } else {
                match r.left {
                    Tree::Node(g) => {
                        assert(r.left.has_key(g.key));
                        assert(n.right.has_key(g.key));
                        let cut = Node { lheight: 0, left: Tree::Empty, ..*r };
                        lemma_wf_from_parts(cut);
                        assert forall|k: Seq<char>| cut.tree().has_key(k) implies key_lt(
                            g.key,
                            k,
                        ) by {
                            assert(k == r.key);
                        }
                        assert forall|k: Seq<char>|
                            n.cut_right().tree().has_key(k) implies key_lt(k, g.key) by {
                            if k != n.key {
                                lemma_key_lt_transitive(k, n.key, g.key);
                            }
                        }
                        lemma_wf_from_parts(n.balance_right());
                    },
                    Tree::Empty => {},
                }
            }
        },
        Tree::Empty => {},
    }
}

/// Rebalancing keeps a tree well formed.
pub proof fn lemma_rebalance_wf<V>(n: Node<V>)
    requires
        n.wf(),
    ensures
        n.rebalance().wf(),
{
    match n.leaning() {
        Balance::Left => lemma_balance_left_wf(n),
        Balance::Right => lemma_balance_right_wf(n),
        Balance::Neither => {},
    }
}

/// Setting a key brings no other key into the tree.
pub proof fn lemma_add_keys<V>(t: Tree<V>, k: Seq<char>, v: V, j: Seq<char>)
    requires
        t.add(k, v).tree().has_key(j),
    ensures
        j == k || t.has_key(j),
    decreases t,
{
    lemma_empty::<V>();
    match t {
        Tree::Empty => {},
        Tree::Node(n) => {
            if k == n.key {
            } else if key_lt(k, n.key) {
                let m = n.with_left(n.left.add(k, v).tree());
                lemma_rebalance_keys(m, j);
                if m.left.has_key(j) {
                    lemma_add_keys(n.left, k, v, j);
                }
            } else {
                let m = n.with_right(n.right.add(k, v).tree());
                lemma_rebalance_keys(m, j);
                if m.right.has_key(j) {
                    lemma_add_keys(n.right, k, v, j);
                }
            }
        },
    }
}

/// A well-formed node stays well formed when a key goes into its left
/// subtree that comes before the node's own key.
pub proof fn lemma_with_left_added_wf<V>(n: Node<V>, k: Seq<char>, v: V)
    requires
        n.wf(),
        key_lt(k, n.key),
        n.left.add(k, v).wf(),
    ensures
        n.with_left(n.left.add(k, v).tree()).wf(),
{
    lemma_wf_parts(n);
    let m = n.with_left(n.left.add(k, v).tree());
    assert forall|j: Seq<char>| m.left.has_key(j) implies key_lt(j, n.key) by {
        lemma_add_keys(n.left, k, v, j);
    }
    lemma_wf_from_parts(m);
}

/// A well-formed node stays well formed when a key goes into its right
/// subtree that comes after the node's own key.
pub proof fn lemma_with_right_added_wf<V>(n: Node<V>, k: Seq<char>, v: V)
    requires
        n.wf(),
        key_lt(n.key, k),
        n.right.add(k, v).wf(),
    ensures
        n.with_right(n.right.add(k, v).tree()).wf(),
{
    lemma_wf_parts(n);
    let m = n.with_right(n.right.add(k, v).tree());
    assert forall|j: Seq<char>| m.right.has_key(j) implies key_lt(n.key, j) by {
        lemma_add_keys(n.right, k, v, j);
    }
    lemma_wf_from_parts(m);
}

/// Setting a key keeps a tree well formed: the search-tree order holds of
/// every tree that `add` gives.
pub proof fn lemma_add_wf<V>(t: Tree<V>, k: Seq<char>, v: V)
    requires
        t.wf(),
    ensures
        t.add(k, v).wf(),
    decreases t,
{
    lemma_empty::<V>();
    match t {
        Tree::Empty => {
            lemma_wf_from_parts(Node::leaf(k, v));
        },
        Tree::Node(n) => {
            lemma_wf_parts(*n);
            if k == n.key {
                lemma_wf_from_parts(Node { value: v, ..*n });
            } else if key_lt(k, n.key) {
                lemma_add_wf(n.left, k, v);
                lemma_with_left_added_wf(*n, k, v);
                lemma_rebalance_wf(n.with_left(n.left.add(k, v).tree()));
            } else {
                lemma_key_lt_total(k, n.key);
                lemma_add_wf(n.right, k, v);
                lemma_with_right_added_wf(*n, k, v);
                lemma_rebalance_wf(n.with_right(n.right.add(k, v).tree()));
            }
        },
    }
}

/// Taking the last entry out of a well-formed tree: what is left is well
/// formed and holds every other key, all of which come before the one taken
/// out; the entries are those that are left, and then the one taken out.
pub proof fn lemma_shift_rightmost<V>(t: Tree<V>)
    requires
        t.wf(),
        t is Node,
    ensures
        t.shift_rightmost().1.wf(),
        t.holds(t.shift_rightmost().0.0, t.shift_rightmost().0.1),
        t.has_key(t.shift_rightmost().0.0),
        forall|k: Seq<char>| #[trigger]
            t.shift_rightmost().1.has_key(k) ==> t.has_key(k) && key_lt(
                k,
                t.shift_rightmost().0.0,
            ),
        forall|k: Seq<char>| #[trigger]
            t.has_key(k) ==> k == t.shift_rightmost().0.0 || t.shift_rightmost().1.has_key(k),
        t.entries() == t.shift_rightmost().1.entries().push(t.shift_rightmost().0),
    decreases t,
{
    reveal_with_fuel(Tree::has_key, 2);
    lemma_empty::<V>();
    let n = *t->0;
    lemma_wf_parts(n);
    let (top, rest) = t.shift_rightmost();
    if n.right is Node {
        lemma_shift_rightmost(n.right);
        let (sub_top, sub_rest) = n.right.shift_rightmost();
        assert(top == sub_top);
        assert(rest == n.with_right(sub_rest).tree());
        lemma_wf_from_parts(n.with_right(sub_rest));
        assert(n.right.has_key(top.0));
        assert forall|k: Seq<char>| rest.has_key(k) implies t.has_key(k) && key_lt(k, top.0) by {
            if k == n.key {
            } else if n.left.has_key(k) {
                lemma_key_lt_transitive(k, n.key, top.0);
            } else {
                assert(sub_rest.has_key(k));
                assert(n.right.has_key(k));
            }
        }
        assert forall|k: Seq<char>| t.has_key(k) implies k == top.0 || rest.has_key(k) by {
            if n.right.has_key(k) {
                assert(k == sub_top.0 || sub_rest.has_key(k));
            }
        }
        assert(t.entries() =~= rest.entries().push(top));
    } else {
        assert(t.entries() =~= rest.entries().push(top));
    }
}

/// Taking the first entry out of a well-formed tree: the mirror image of
/// `lemma_shift_rightmost`.
pub proof fn lemma_shift_leftmost<V>(t: Tree<V>)
    requires
        t.wf(),
        t is Node,
    ensures
        t.shift_leftmost().1.wf(),
        t.holds(t.shift_leftmost().0.0, t.shift_leftmost().0.1),
        t.has_key(t.shift_leftmost().0.0),
        forall|k: Seq<char>| #[trigger]
            t.shift_leftmost().1.has_key(k) ==> t.has_key(k) && key_lt(
                t.shift_leftmost().0.0,
                k,
            ),
        forall|k: Seq<char>| #[trigger]
            t.has_key(k) ==> k == t.shift_leftmost().0.0 || t.shift_leftmost().1.has_key(k),
        t.entries() == seq![t.shift_leftmost().0] + t.shift_leftmost().1.entries(),
    decreases t,
{
    reveal_with_fuel(Tree::has_key, 2);
    lemma_empty::<V>();
    let n = *t->0;
    lemma_wf_parts(n);
    let (top, rest) = t.shift_leftmost();
    if n.left is Node {
        lemma_shift_leftmost(n.left);
        let (sub_top, sub_rest) = n.left.shift_leftmost();
        assert(top == sub_top);
        assert(rest == n.with_left(sub_rest).tree());
        lemma_wf_from_parts(n.with_left(sub_rest));
        assert(n.left.has_key(top.0));
        assert forall|k: Seq<char>| rest.has_key(k) implies t.has_key(k) && key_lt(top.0, k) by {
            if k == n.key {
            } else if n.right.has_key(k) {
                lemma_key_lt_transitive(top.0, n.key, k);
            } else {
                assert(sub_rest.has_key(k));
                assert(n.left.has_key(k));
            }
        }
        assert forall|k: Seq<char>| t.has_key(k) implies k == top.0 || rest.has_key(k) by {
            if n.left.has_key(k) {
                assert(k == sub_top.0 || sub_rest.has_key(k));
            }
        }
        assert(t.entries() =~= seq![top] + rest.entries());
    } else {
        assert(t.entries() =~= seq![top] + rest.entries());
    }
}

/// Deleting a key keeps a tree well formed, brings no key into it, and
/// leaves the deleted key out of it.
pub proof fn lemma_delete_wf<V>(t: Tree<V>, k: Seq<char>)
    requires
        t.wf(),
    ensures
        t.delete(k).wf(),
        forall|j: Seq<char>| #[trigger] t.delete(k).has_key(j) ==> t.has_key(j) && j != k,
    decreases t,
{
    reveal_with_fuel(Tree::has_key, 2);
    lemma_empty::<V>();
    match t {
        Tree::Empty => {},
        Tree::Node(n) => {
            lemma_wf_parts(*n);
            let d = t.delete(k);
            if k == n.key {
                if n.left is Node {
                    lemma_shift_rightmost(n.left);
                    let (top, rest) = n.left.shift_rightmost();
                    let m = Node {
                        key: top.0,
                        value: top.1,
                        lheight: rest.height(),
                        left: rest,
                        ..*n
                    };
                    assert(d == m.tree());
                    assert forall|j: Seq<char>| n.right.has_key(j) implies key_lt(top.0, j) by {
                        lemma_key_lt_transitive(top.0, n.key, j);
                    }
                    lemma_wf_from_parts(m);
                    assert forall|j: Seq<char>| d.has_key(j) implies t.has_key(j) && j != k by {
                        if j == top.0 || rest.has_key(j) {
                            assert(n.left.has_key(j));
                            lemma_key_lt_asymmetric(j, k);
                        } else {
                            lemma_key_lt_asymmetric(k, j);
                        }
                    }
                } else if n.right is Node {
                    lemma_shift_leftmost(n.right);
                    let (top, rest) = n.right.shift_leftmost();
                    let m = Node {
                        key: top.0,
                        value: top.1,
                        rheight: rest.height(),
                        right: rest,
                        ..*n
                    };
                    assert(d == m.tree());
                    lemma_wf_from_parts(m);
                    assert forall|j: Seq<char>| d.has_key(j) implies t.has_key(j) && j != k by {
                        if j == top.0 || rest.has_key(j) {
                            assert(n.right.has_key(j));
                            lemma_key_lt_asymmetric(k, j);
                        }
                    }
                } else {
                }
            } else if key_lt(k, n.key) {
                if n.left is Node {
                    lemma_delete_wf(n.left, k);
                    let m = n.with_left(n.left.delete(k));
                    assert(d == m.tree());
                    lemma_wf_from_parts(m);
                    assert forall|j: Seq<char>| d.has_key(j) implies t.has_key(j) && j != k by {
                        if n.right.has_key(j) {
                            lemma_key_lt_transitive(k, n.key, j);
                            lemma_key_lt_asymmetric(k, j);
                        } else if n.left.delete(k).has_key(j) {
                            assert(n.left.has_key(j));
                        }
                    }
                } else {
                    assert forall|j: Seq<char>| d.has_key(j) implies t.has_key(j) && j != k by {
                        if n.right.has_key(j) {
                            lemma_key_lt_transitive(k, n.key, j);
                            lemma_key_lt_asymmetric(k, j);
                        }
                    }
                }
            } else {
                lemma_key_lt_total(k, n.key);
                if n.right is Node {
                    lemma_delete_wf(n.right, k);
                    let m = n.with_right(n.right.delete(k));
                    assert(d == m.tree());
                    lemma_wf_from_parts(m);
                    assert forall|j: Seq<char>| d.has_key(j) implies t.has_key(j) && j != k by {
                        if n.left.has_key(j) {
                            lemma_key_lt_transitive(j, n.key, k);
                            lemma_key_lt_asymmetric(j, k);
                        } else if n.right.delete(k).has_key(j) {
                            assert(n.right.has_key(j));
                        }
                    }
                } else {
                    assert forall|j: Seq<char>| d.has_key(j) implies t.has_key(j) && j != k by {
                        if n.left.has_key(j) {
                            lemma_key_lt_transitive(j, n.key, k);
                            lemma_key_lt_asymmetric(j, k);
                        }
                    }
                }
            }
        },
    }
}

/// A well-formed node on which `rebalance` does something has a grandchild
/// on its high side, so that it is rotated; the new root has recorded the
/// heights 1 and 1. Hence rebalancing gives a root whose recorded heights
/// differ by at most one, and if both subtrees were balanced, so is all
/// that is below the new root.
pub proof fn lemma_rebalance_balanced<V>(n: Node<V>)
    requires
        n.wf(),
        n.left.balanced(),
        n.right.balanced(),
    ensures
        n.rebalance().balanced(),
{
    lemma_empty::<V>();
    lemma_wf_parts(n);
    match n.leaning() {
        Balance::Left => {
            let l = *n.left->0;
            lemma_wf_parts(l);
            assert(n.cut_left().balanced());
            if l.left is Node {
                assert(l.left.balanced());
            } else {
                let g = *l.right->0;
                let cut = Node { rheight: 0, right: Tree::Empty, ..l };
                assert(cut.balanced());
            }
        },
        Balance::Right => {
            let r = *n.right->0;
            lemma_wf_parts(r);
            assert(n.cut_right().balanced());
            if r.right is Node {
                assert(r.right.balanced());
            } else {
                let g = *r.left->0;
                let cut = Node { lheight: 0, left: Tree::Empty, ..r };
                assert(cut.balanced());
            }
        },
        Balance::Neither => {},
    }
}

/// Setting a key in a balanced tree gives a balanced tree: in every tree
/// that was built by `add` alone, the two heights that a node has recorded
/// differ by at most one.
pub proof fn lemma_add_balanced<V>(t: Tree<V>, k: Seq<char>, v: V)
    requires
        t.wf(),
        t.balanced(),
    ensures
        t.add(k, v).balanced(),
    decreases t,
{
    lemma_empty::<V>();
    match t {
        Tree::Empty => {},
        Tree::Node(n) => {
            lemma_wf_parts(*n);
            if k == n.key {
                assert((Node { value: v, ..*n }).balanced());
            } else if key_lt(k, n.key) {
                lemma_add_wf(n.left, k, v);
                lemma_add_balanced(n.left, k, v);
                lemma_with_left_added_wf(*n, k, v);
                lemma_rebalance_balanced(n.with_left(n.left.add(k, v).tree()));
            } else {
                lemma_key_lt_total(k, n.key);
                lemma_add_wf(n.right, k, v);
                lemma_add_balanced(n.right, k, v);
                lemma_with_right_added_wf(*n, k, v);
                lemma_rebalance_balanced(n.with_right(n.right.add(k, v).tree()));
            }
        },
    }
}

/// Every entry of the listing of a tree is held by a node of the tree.
pub proof fn lemma_entries_held<V>(t: Tree<V>, i: int)
    requires
        0 <= i < t.entries().len(),
    ensures
        t.holds(t.entries()[i].0, t.entries()[i].1),
        t.has_key(t.entries()[i].0),
    decreases t,
{
    match t {
        Tree::Empty => {},
        Tree::Node(n) => {
            let before = n.left.entries().len();
            if i < before {
                lemma_entries_held(n.left, i);
            } else if i > before {
                lemma_entries_held(n.right, i - before - 1);
            }
        },
    }
}

/// What a node of the tree holds is an entry of the listing.
pub proof fn lemma_held_in_entries<V>(t: Tree<V>, k: Seq<char>, v: V)
    requires
        t.holds(k, v),
    ensures
        t.entries().contains((k, v)),
    decreases t,
{
    match t {
        Tree::Empty => {},
        Tree::Node(n) => {
            let before = n.left.entries().len();
            if k == n.key && v == n.value {
                assert(t.entries()[before as int] == (k, v));
            } else if n.left.holds(k, v) {
                lemma_held_in_entries(n.left, k, v);
                let i = choose|i: int|
                    0 <= i < n.left.entries().len() && n.left.entries()[i] == (k, v);
                assert(t.entries()[i] == (k, v));
            } else {
                lemma_held_in_entries(n.right, k, v);
                let i = choose|i: int|
                    0 <= i < n.right.entries().len() && n.right.entries()[i] == (k, v);
                assert(t.entries()[before + 1 + i] == (k, v));
            }
        },
    }
}

/// The listing of a tree in search-tree order is strictly ascending by key.
pub proof fn lemma_entries_ascending<V>(t: Tree<V>)
    requires
        t.ordered(),
    ensures
        ascending(t.entries()),
    decreases t,
{
    match t {
        Tree::Empty => {},
        Tree::Node(n) => {
            lemma_entries_ascending(n.left);
            lemma_entries_ascending(n.right);
            let list = t.entries();
            let before = n.left.entries().len() as int;
            assert forall|i: int, j: int| 0 <= i < j < list.len() implies key_lt(
                list[i].0,
                list[j].0,
            ) by {
                if i < before {
                    lemma_entries_held(n.left, i);
                }
                if i > before {
                    lemma_entries_held(n.right, i - before - 1);
                }
                if j < before {
                    lemma_entries_held(n.left, j);
                }
                if j > before {
                    lemma_entries_held(n.right, j - before - 1);
                }
                if i < before && j > before {
                    lemma_key_lt_transitive(list[i].0, n.key, list[j].0);
                }
            }
        },
    }
}

} // verus!
