//! What a tree holds after a key was set or deleted.
//!
//! A rotation cuts the new root off from what it held on one side, so that
//! `add` may take entries out of a tree. The lemmas here say what is sure
//! for every tree, and what holds when nothing was cut off.

use vstd::prelude::*;
use crate::laws::{
    lemma_add_wf, lemma_delete_wf, lemma_empty, lemma_entries_held, lemma_shift_leftmost,
    lemma_shift_rightmost, lemma_wf_parts,
};
use crate::model::{listing_with, Balance, Node, Tree};
use crate::order::{
    key_lt, lemma_key_lt_asymmetric, lemma_key_lt_irreflexive, lemma_key_lt_total,
    lemma_key_lt_transitive,
};

verus! {

/// A key that is held with some value is a key of the tree.
pub proof fn lemma_held_key<V>(t: Tree<V>, k: Seq<char>, v: V)
    requires
        t.holds(k, v),
    ensures
        t.has_key(k),
    decreases t,
{
    match t {
        Tree::Empty => {},
        Tree::Node(n) => {
            if n.left.holds(k, v) {
                lemma_held_key(n.left, k, v);
            } else if n.right.holds(k, v) {
                lemma_held_key(n.right, k, v);
            }
        },
    }
}

/// In a tree in search-tree order, `lookup` finds for a key the value that
/// a node holds with it, and finds nothing for a key that no node holds.
pub proof fn lemma_lookup_held<V>(t: Tree<V>, k: Seq<char>)
    requires
        t.ordered(),
    ensures
        t.lookup(k) is Some <==> t.has_key(k),
        forall|v: V| #[trigger] t.holds(k, v) <==> t.lookup(k) == Some(v),
    decreases t,
{
    lemma_empty::<V>();
    match t {
        Tree::Empty => {},
        Tree::Node(n) => {
            lemma_lookup_held(n.left, k);
            lemma_lookup_held(n.right, k);
            lemma_key_lt_irreflexive(k);
            lemma_key_lt_total(k, n.key);
            if key_lt(k, n.key) {
                lemma_key_lt_asymmetric(k, n.key);
            }
            if key_lt(n.key, k) {
                lemma_key_lt_asymmetric(n.key, k);
            }
            assert forall|v: V| #[trigger] t.holds(k, v) <==> t.lookup(k) == Some(v) by {
                if n.left.holds(k, v) {
                    lemma_held_key(n.left, k, v);
                }
                if n.right.holds(k, v) {
                    lemma_held_key(n.right, k, v);
                }
            }
        },
    }
}

/// A key of the tree is the key of an entry of its listing, and the other
/// way round.
pub proof fn lemma_listed_key<V>(t: Tree<V>, k: Seq<char>)
    ensures
        t.has_key(k) <==> exists|i: int| 0 <= i < t.entries().len() && t.entries()[i].0 == k,
    decreases t,
{
    match t {
        Tree::Empty => {},
        Tree::Node(n) => {
            lemma_listed_key(n.left, k);
            lemma_listed_key(n.right, k);
            let list = t.entries();
            let before = n.left.entries().len() as int;
            if t.has_key(k) {
                if k == n.key {
                    assert(list[before].0 == k);
                } else if n.left.has_key(k) {
                    let i = choose|i: int|
                        0 <= i < n.left.entries().len() && n.left.entries()[i].0 == k;
                    assert(list[i].0 == k);
                } else {
                    let i = choose|i: int|
                        0 <= i < n.right.entries().len() && n.right.entries()[i].0 == k;
                    assert(list[before + 1 + i].0 == k);
                }
            }
            if exists|i: int| 0 <= i < list.len() && list[i].0 == k {
                let i = choose|i: int| 0 <= i < list.len() && list[i].0 == k;
                if i < before {
                    assert(n.left.entries()[i].0 == k);
                } else if i > before {
                    assert(n.right.entries()[i - before - 1].0 == k);
                }
            }
        },
    }
}

/// A rotation to the right brings nothing into the tree.
pub proof fn lemma_balance_left_holds<V>(n: Node<V>, k: Seq<char>, v: V)
    requires
        n.balance_left().tree().holds(k, v),
    ensures
        n.tree().holds(k, v),
{
    reveal_with_fuel(Tree::holds, 3);
}

/// A rotation to the left brings nothing into the tree.
pub proof fn lemma_balance_right_holds<V>(n: Node<V>, k: Seq<char>, v: V)
    requires
        n.balance_right().tree().holds(k, v),
    ensures
        n.tree().holds(k, v),
{
    reveal_with_fuel(Tree::holds, 3);
}

/// Rebalancing brings nothing into the tree.
pub proof fn lemma_rebalance_holds<V>(n: Node<V>, k: Seq<char>, v: V)
    requires
        n.rebalance().tree().holds(k, v),
    ensures
        n.tree().holds(k, v),
{
    match n.leaning() {
        Balance::Left => lemma_balance_left_holds(n, k, v),
        Balance::Right => lemma_balance_right_holds(n, k, v),
        Balance::Neither => {},
    }
}

/// What a tree holds after `k` was set to `v`: `k` with no value but `v`,
/// and any other key only with the value it was held with before.
pub proof fn lemma_add_holds<V>(t: Tree<V>, k: Seq<char>, v: V, j: Seq<char>, x: V)
    requires
        t.wf(),
        t.add(k, v).tree().holds(j, x),
    ensures
        j == k ==> x == v,
        j != k ==> t.holds(j, x),
    decreases t,
{
    reveal_with_fuel(Tree::holds, 2);
    match t {
        Tree::Empty => {},
        Tree::Node(n) => {
            lemma_wf_parts(*n);
            lemma_key_lt_irreflexive(k);
            if k == n.key {
                if n.left.holds(j, x) {
                    lemma_held_key(n.left, j, x);
                }
                if n.right.holds(j, x) {
                    lemma_held_key(n.right, j, x);
                }
            } else if key_lt(k, n.key) {
                let m = n.with_left(n.left.add(k, v).tree());
                lemma_rebalance_holds(m, j, x);
                if m.left.holds(j, x) {
                    lemma_add_holds(n.left, k, v, j, x);
                } else if n.right.holds(j, x) {
                    lemma_held_key(n.right, j, x);
                    lemma_key_lt_transitive(k, n.key, j);
                }
            } else {
                lemma_key_lt_total(k, n.key);
                let m = n.with_right(n.right.add(k, v).tree());
                lemma_rebalance_holds(m, j, x);
                if m.right.holds(j, x) {
                    lemma_add_holds(n.right, k, v, j, x);
                } else if n.left.holds(j, x) {
                    lemma_held_key(n.left, j, x);
                    lemma_key_lt_transitive(j, n.key, k);
                }
            }
        },
    }
}

/// What `lookup` finds after `k` was set to `v`: for `k` nothing but `v`,
/// and for any other key nothing but what it found before.
pub proof fn lemma_add_lookup<V>(t: Tree<V>, k: Seq<char>, v: V, j: Seq<char>)
    requires
        t.wf(),
    ensures
        j == k ==> t.add(k, v).lookup(j) is Some ==> t.add(k, v).lookup(j) == Some(v),
        j != k ==> t.add(k, v).lookup(j) is Some ==> t.add(k, v).lookup(j) == t.lookup(j),
{
    lemma_add_wf(t, k, v);
    let after = t.add(k, v).tree();
    lemma_lookup_held(after, j);
    lemma_lookup_held(t, j);
    if after.lookup(j) is Some {
        let x = after.lookup(j)->0;
        assert(after.holds(j, x));
        lemma_add_holds(t, k, v, j, x);
        if j != k {
            assert(t.holds(j, x));
        }
    }
}

/// Rebalancing takes out of the listing what it cuts off, and nothing else.
pub proof fn lemma_rebalance_count<V>(n: Node<V>)
    ensures
        n.rebalance().entries().len() + n.cut_off() == n.entries().len(),
{
    reveal_with_fuel(Tree::entries, 4);
}

/// A rebalancing that cuts nothing off leaves the listing of the tree as it
/// was.
pub proof fn lemma_rebalance_keeps<V>(n: Node<V>)
    requires
        n.cut_off() == 0,
    ensures
        n.rebalance().entries() == n.entries(),
{
    reveal_with_fuel(Tree::entries, 4);
    assert(n.rebalance().entries() =~= n.entries());
}

/// The number of entries after `k` was set: one more than before unless the
/// tree held `k`, less those that the rotations cut off.
pub proof fn lemma_add_count<V>(t: Tree<V>, k: Seq<char>, v: V)
    requires
        t.wf(),
    ensures
        t.add(k, v).entries().len() + t.add_cut_off(k, v) == t.entries().len() + (if t.has_key(
            k,
        ) {
            0int
        } else {
            1int
        }),
    decreases t,
{
    reveal_with_fuel(Tree::entries, 2);
    lemma_empty::<V>();
    match t {
        Tree::Empty => {},
        Tree::Node(n) => {
            lemma_wf_parts(*n);
            lemma_key_lt_irreflexive(k);
            if k == n.key {
                assert((Node { value: v, ..*n }).entries().len() == t.entries().len());
            } else if key_lt(k, n.key) {
                let m = n.with_left(n.left.add(k, v).tree());
                lemma_add_count(n.left, k, v);
                lemma_rebalance_count(m);
                if n.right.has_key(k) {
                    lemma_key_lt_asymmetric(k, n.key);
                }
            } else {
                lemma_key_lt_total(k, n.key);
                let m = n.with_right(n.right.add(k, v).tree());
                lemma_add_count(n.right, k, v);
                lemma_rebalance_count(m);
                if n.left.has_key(k) {
                    lemma_key_lt_asymmetric(n.key, k);
                }
            }
        },
    }
}

/// Putting an entry into a listing that is followed by later keys.
proof fn lemma_listing_with_front<V>(
    front: Seq<(Seq<char>, V)>,
    back: Seq<(Seq<char>, V)>,
    k: Seq<char>,
    v: V,
)
    requires
        back.len() > 0,
        key_lt(k, back[0].0),
        forall|i: int| 0 <= i < front.len() ==> key_lt(#[trigger] front[i].0, back[0].0),
    ensures
        listing_with(front + back, k, v) == listing_with(front, k, v) + back,
    decreases front.len(),
{
    if front.len() == 0 {
        lemma_key_lt_asymmetric(k, back[0].0);
        assert(front + back =~= back);
        assert(listing_with(back, k, v) =~= seq![(k, v)] + back);
        assert(listing_with(front, k, v) + back =~= seq![(k, v)] + back);
    } else {
        let whole = front + back;
        assert(whole[0] == front[0]);
        assert(whole.drop_first() =~= front.drop_first() + back);
        if front[0].0 == k {
            assert(listing_with(whole, k, v) =~= listing_with(front, k, v) + back);
        } else if key_lt(k, front[0].0) {
            assert(listing_with(whole, k, v) =~= listing_with(front, k, v) + back);
        } else {
            assert forall|i: int| 0 <= i < front.drop_first().len() implies key_lt(
                #[trigger] front.drop_first()[i].0,
                back[0].0,
            ) by {
                assert(front.drop_first()[i] == front[i + 1]);
            }
            lemma_listing_with_front(front.drop_first(), back, k, v);
            assert(listing_with(whole, k, v) =~= listing_with(front, k, v) + back);
        }
    }
}

/// Putting an entry into a listing that follows earlier keys.
proof fn lemma_listing_with_back<V>(
    front: Seq<(Seq<char>, V)>,
    back: Seq<(Seq<char>, V)>,
    k: Seq<char>,
    v: V,
)
    requires
        forall|i: int| 0 <= i < front.len() ==> key_lt(#[trigger] front[i].0, k),
    ensures
        listing_with(front + back, k, v) == front + listing_with(back, k, v),
    decreases front.len(),
{
    if front.len() == 0 {
        assert(front + back =~= back);
        assert(front + listing_with(back, k, v) =~= listing_with(back, k, v));
    } else {
        let whole = front + back;
        assert(whole[0] == front[0]);
        assert(whole.drop_first() =~= front.drop_first() + back);
        lemma_key_lt_asymmetric(front[0].0, k);
        assert forall|i: int| 0 <= i < front.drop_first().len() implies key_lt(
            #[trigger] front.drop_first()[i].0,
            k,
        ) by {
            assert(front.drop_first()[i] == front[i + 1]);
        }
        lemma_listing_with_back(front.drop_first(), back, k, v);
        assert(listing_with(whole, k, v) =~= front + listing_with(back, k, v));
    }
}

/// The keys of a listing after an entry was put into it.
proof fn lemma_listing_with_keys<V>(list: Seq<(Seq<char>, V)>, k: Seq<char>, v: V, j: Seq<char>)
    ensures
        (exists|i: int|
            0 <= i < listing_with(list, k, v).len() && listing_with(list, k, v)[i].0 == j) <==> (j
            == k || exists|i: int| 0 <= i < list.len() && list[i].0 == j),
    decreases list.len(),
{
    let after = listing_with(list, k, v);
    if list.len() == 0 {
        assert(after[0].0 == k);
    } else if list[0].0 == k {
        assert(after[0].0 == k);
        if exists|i: int| 0 <= i < list.len() && list[i].0 == j {
            let i = choose|i: int| 0 <= i < list.len() && list[i].0 == j;
            if i > 0 {
                assert(after[i].0 == j);
            }
        }
        if exists|i: int| 0 <= i < after.len() && after[i].0 == j {
            let i = choose|i: int| 0 <= i < after.len() && after[i].0 == j;
            if i > 0 {
                assert(list[i].0 == j);
            }
        }
    } else if key_lt(k, list[0].0) {
        assert(after[0].0 == k);
        if exists|i: int| 0 <= i < list.len() && list[i].0 == j {
            let i = choose|i: int| 0 <= i < list.len() && list[i].0 == j;
            assert(after[i + 1].0 == j);
        }
        if exists|i: int| 0 <= i < after.len() && after[i].0 == j {
            let i = choose|i: int| 0 <= i < after.len() && after[i].0 == j;
            if i > 0 {
                assert(list[i - 1].0 == j);
            }
        }
    } else {
        let tail = list.drop_first();
        let tail_after = listing_with(tail, k, v);
        lemma_listing_with_keys(tail, k, v, j);
        assert(after[0] == list[0]);
        if j == k || exists|i: int| 0 <= i < list.len() && list[i].0 == j {
            if j != k {
                let i = choose|i: int| 0 <= i < list.len() && list[i].0 == j;
                if i > 0 {
                    assert(tail[i - 1].0 == j);
                }
            }
            if j == list[0].0 {
                assert(after[0].0 == j);
            } else {
                let i = choose|i: int| 0 <= i < tail_after.len() && tail_after[i].0 == j;
                assert(after[i + 1].0 == j);
            }
        }
        if exists|i: int| 0 <= i < after.len() && after[i].0 == j {
            let i = choose|i: int| 0 <= i < after.len() && after[i].0 == j;
            if i > 0 {
                assert(tail_after[i - 1].0 == j);
                if j != k {
                    let i2 = choose|i: int| 0 <= i < tail.len() && tail[i].0 == j;
                    assert(list[i2 + 1].0 == j);
                }
            } else {
                assert(list[0].0 == j);
            }
        }
    }
}

/// The keys of the listing of a left subtree come before the key of the
/// node, and those of a right subtree after it.
proof fn lemma_listing_sides<V>(n: Node<V>)
    requires
        n.wf(),
    ensures
        forall|i: int|
            0 <= i < n.left.entries().len() ==> key_lt(#[trigger] n.left.entries()[i].0, n.key),
        forall|i: int|
            0 <= i < n.right.entries().len() ==> key_lt(n.key, #[trigger] n.right.entries()[i].0),
{
    lemma_wf_parts(n);
    assert forall|i: int| 0 <= i < n.left.entries().len() implies key_lt(
        #[trigger] n.left.entries()[i].0,
        n.key,
    ) by {
        lemma_entries_held(n.left, i);
    }
    assert forall|i: int| 0 <= i < n.right.entries().len() implies key_lt(
        n.key,
        #[trigger] n.right.entries()[i].0,
    ) by {
        lemma_entries_held(n.right, i);
    }
}

/// Setting a key in the empty tree gives the tree of that one entry.
pub proof fn lemma_empty_set<V>(k: Seq<char>, v: V)
    ensures
        Tree::<V>::Empty.add(k, v) == Node::leaf(k, v),
        Tree::<V>::Empty.add_cut_off(k, v) == 0,
        !Tree::<V>::Empty.has_key(k),
        Tree::<V>::Empty.entries().len() == 0,
        Node::leaf(k, v).entries() == seq![(k, v)],
        Node::leaf(k, v).entries() == listing_with(Tree::<V>::Empty.entries(), k, v),
        forall|j: Seq<char>| #[trigger]
            Node::leaf(k, v).tree().lookup(j) == (if j == k {
                Some(v)
            } else {
                Tree::<V>::Empty.lookup(j)
            }),
{
    reveal_with_fuel(Tree::entries, 2);
    reveal_with_fuel(Tree::lookup, 2);
    assert(Node::leaf(k, v).entries() =~= seq![(k, v)]);
    assert(listing_with(Tree::<V>::Empty.entries(), k, v) =~= seq![(k, v)]);
}

/// The listing after the value of the root was replaced.
proof fn lemma_add_shape_here<V>(n: Node<V>, v: V)
    requires
        n.wf(),
    ensures
        (Node { value: v, ..n }).entries() == listing_with(n.entries(), n.key, v),
{
    let k = n.key;
    let front = n.left.entries();
    let back = n.right.entries();
    let mid = seq![(n.key, n.value)];
    lemma_listing_sides(n);
    lemma_listing_with_back(front, mid + back, k, v);
    assert((mid + back).drop_first() =~= back);
    assert(listing_with(mid + back, k, v) =~= seq![(k, v)] + back);
    assert(n.entries() =~= front + (mid + back));
    assert((Node { value: v, ..n }).entries() =~= front + (seq![(k, v)] + back));
}

/// The listing after a key was put into the left subtree, where nothing
/// was cut off.
proof fn lemma_add_shape_left<V>(n: Node<V>, k: Seq<char>, v: V)
    requires
        n.wf(),
        key_lt(k, n.key),
        n.left.add(k, v).entries() == listing_with(n.left.entries(), k, v),
        n.with_left(n.left.add(k, v).tree()).cut_off() == 0,
    ensures
        n.with_left(n.left.add(k, v).tree()).rebalance().entries() == listing_with(
            n.entries(),
            k,
            v,
        ),
{
    let m = n.with_left(n.left.add(k, v).tree());
    let front = n.left.entries();
    let back = n.right.entries();
    let mid = seq![(n.key, n.value)];
    lemma_listing_sides(n);
    lemma_rebalance_keeps(m);
    assert(m.entries() =~= listing_with(front, k, v) + (mid + back));
    lemma_listing_with_front(front, mid + back, k, v);
    assert(n.entries() =~= front + (mid + back));
}

/// The listing after a key was put into the right subtree, where nothing
/// was cut off.
proof fn lemma_add_shape_right<V>(n: Node<V>, k: Seq<char>, v: V)
    requires
        n.wf(),
        key_lt(n.key, k),
        n.right.add(k, v).entries() == listing_with(n.right.entries(), k, v),
        n.with_right(n.right.add(k, v).tree()).cut_off() == 0,
    ensures
        n.with_right(n.right.add(k, v).tree()).rebalance().entries() == listing_with(
            n.entries(),
            k,
            v,
        ),
{
    let m = n.with_right(n.right.add(k, v).tree());
    let front = n.left.entries();
    let back = n.right.entries();
    let mid = seq![(n.key, n.value)];
    lemma_listing_sides(n);
    lemma_rebalance_keeps(m);
    assert(m.entries() =~= (front + mid) + listing_with(back, k, v));
    assert forall|i: int| 0 <= i < (front + mid).len() implies key_lt(
        #[trigger] (front + mid)[i].0,
        k,
    ) by {
        if i < front.len() {
            lemma_key_lt_transitive(front[i].0, n.key, k);
        }
    }
    lemma_listing_with_back(front + mid, back, k, v);
    assert(n.entries() =~= (front + mid) + back);
}

/// Where no rotation cuts anything off, the listing after `k` was set to
/// `v` is the listing before with the entry of `k` put at its place, or
/// replaced where the tree held `k`.
pub proof fn lemma_add_shape<V>(t: Tree<V>, k: Seq<char>, v: V)
    requires
        t.wf(),
        t.add_cut_off(k, v) == 0,
    ensures
        t.add(k, v).entries() == listing_with(t.entries(), k, v),
    decreases t,
{
    match t {
        Tree::Empty => {
            lemma_empty_set(k, v);
        },
        Tree::Node(n) => {
            lemma_wf_parts(*n);
            if k == n.key {
                lemma_add_shape_here(*n, v);
            } else if key_lt(k, n.key) {
                lemma_add_shape(n.left, k, v);
                lemma_add_shape_left(*n, k, v);
            } else {
                lemma_key_lt_total(k, n.key);
                lemma_add_shape(n.right, k, v);
                lemma_add_shape_right(*n, k, v);
            }
        },
    }
}

/// The keys of the listing after `k` was set, where no rotation cut
/// anything off.
proof fn lemma_add_listing<V>(t: Tree<V>, k: Seq<char>, v: V, j: Seq<char>)
    requires
        t.wf(),
        t.add_cut_off(k, v) == 0,
    ensures
        (exists|i: int|
            0 <= i < t.add(k, v).entries().len() && t.add(k, v).entries()[i].0 == j) <==> (j == k
            || exists|i: int| 0 <= i < t.entries().len() && t.entries()[i].0 == j),
{
    lemma_add_shape(t, k, v);
    lemma_listing_with_keys(t.entries(), k, v, j);
}

/// Where no rotation cuts anything off, setting `k` to `v` is what it is in
/// a map: the tree then holds `k` with `v`, and every other key as before.
pub proof fn lemma_add_keeps<V>(t: Tree<V>, k: Seq<char>, v: V)
    requires
        t.wf(),
        t.add_cut_off(k, v) == 0,
    ensures
        t.add(k, v).entries().len() == t.entries().len() + (if t.has_key(k) {
            0int
        } else {
            1int
        }),
        forall|j: Seq<char>| #[trigger]
            t.add(k, v).tree().has_key(j) <==> j == k || t.has_key(j),
        forall|j: Seq<char>| #[trigger]
            t.add(k, v).lookup(j) == (if j == k {
                Some(v)
            } else {
                t.lookup(j)
            }),
    decreases t,
{
    let after = t.add(k, v).tree();
    lemma_add_wf(t, k, v);
    lemma_add_count(t, k, v);
    assert forall|j: Seq<char>| #[trigger] after.has_key(j) <==> j == k || t.has_key(j) by {
        lemma_listed_key(after, j);
        lemma_listed_key(t, j);
        lemma_add_listing(t, k, v, j);
    }
    assert forall|j: Seq<char>| #[trigger]
        after.lookup(j) == (if j == k {
            Some(v)
        } else {
            t.lookup(j)
        }) by {
        lemma_lookup_held(after, j);
        lemma_lookup_held(t, j);
        lemma_add_lookup(t, k, v, j);
        assert(after.has_key(j) <==> j == k || t.has_key(j));
    }
}

/// Setting a key again, to `v2` after `v1`. The tree then holds `k` with
/// `v2` and as many entries as after the first time if and only if `k` is
/// in the tree at the end, and the second time cut off as many entries as
/// it put in: none where the first time left `k` in the tree, one where it
/// did not.
pub proof fn lemma_add_again<V>(t: Tree<V>, k: Seq<char>, v1: V, v2: V)
    requires
        t.wf(),
    ensures
        ({
            let once = t.add(k, v1);
            let twice = once.add(k, v2);
            (twice.lookup(k) == Some(v2) && twice.entries().len() == once.entries().len()) <==> (
            twice.tree().has_key(k) && once.tree().add_cut_off(k, v2) == (if once.tree().has_key(
                k,
            ) {
                0nat
            } else {
                1nat
            }))
        }),
{
    let once = t.add(k, v1);
    let twice = once.add(k, v2);
    lemma_add_wf(t, k, v1);
    lemma_add_wf(once.tree(), k, v2);
    lemma_add_count(once.tree(), k, v2);
    lemma_add_lookup(once.tree(), k, v2, k);
    lemma_lookup_held(twice.tree(), k);
}

/// Setting a key again where nothing is lost: if the tree holds `k` after
/// it was set to `v1`, and setting it to `v2` cuts nothing off, the tree
/// then holds `k` with `v2`, and as many entries as before.
pub proof fn lemma_add_again_kept<V>(t: Tree<V>, k: Seq<char>, v1: V, v2: V)
    requires
        t.wf(),
        t.add(k, v1).tree().has_key(k),
        t.add(k, v1).tree().add_cut_off(k, v2) == 0,
    ensures
        t.add(k, v1).add(k, v2).lookup(k) == Some(v2),
        t.add(k, v1).add(k, v2).entries().len() == t.add(k, v1).entries().len(),
{
    lemma_add_wf(t, k, v1);
    lemma_add_keeps(t.add(k, v1).tree(), k, v2);
}

/// Taking the last entry out of a tree takes nothing else out and brings
/// nothing in.
pub proof fn lemma_shift_rightmost_holds<V>(t: Tree<V>, k: Seq<char>, v: V)
    requires
        t is Node,
    ensures
        t.holds(k, v) <==> (k, v) == t.shift_rightmost().0 || t.shift_rightmost().1.holds(k, v),
    decreases t,
{
    reveal_with_fuel(Tree::holds, 2);
    let n = *t->0;
    if n.right is Node {
        lemma_shift_rightmost_holds(n.right, k, v);
    }
}

/// Taking the first entry out of a tree takes nothing else out and brings
/// nothing in.
pub proof fn lemma_shift_leftmost_holds<V>(t: Tree<V>, k: Seq<char>, v: V)
    requires
        t is Node,
    ensures
        t.holds(k, v) <==> (k, v) == t.shift_leftmost().0 || t.shift_leftmost().1.holds(k, v),
    decreases t,
{
    reveal_with_fuel(Tree::holds, 2);
    let n = *t->0;
    if n.left is Node {
        lemma_shift_leftmost_holds(n.left, k, v);
    }
}

/// What a tree holds after `k` was deleted: all that it held before but for
/// `k`.
pub proof fn lemma_delete_holds<V>(t: Tree<V>, k: Seq<char>, j: Seq<char>, x: V)
    requires
        t.wf(),
    ensures
        t.delete(k).holds(j, x) <==> j != k && t.holds(j, x),
    decreases t,
{
    lemma_empty::<V>();
    reveal_with_fuel(Tree::holds, 2);
    match t {
        Tree::Empty => {},
        Tree::Node(n) => {
            lemma_wf_parts(*n);
            lemma_key_lt_irreflexive(k);
            lemma_key_lt_total(k, n.key);
            if n.left.holds(j, x) {
                lemma_held_key(n.left, j, x);
                if j == k && key_lt(n.key, k) {
                    lemma_key_lt_asymmetric(n.key, k);
                }
            }
            if n.right.holds(j, x) {
                lemma_held_key(n.right, j, x);
                if j == k && key_lt(k, n.key) {
                    lemma_key_lt_asymmetric(k, n.key);
                }
            }
            if k == n.key {
                if n.left is Node {
                    lemma_shift_rightmost_holds(n.left, j, x);
                } else if n.right is Node {
                    lemma_shift_leftmost_holds(n.right, j, x);
                }
            } else if key_lt(k, n.key) {
                if n.left is Node {
                    lemma_delete_holds(n.left, k, j, x);
                }
            } else {
                if n.right is Node {
                    lemma_delete_holds(n.right, k, j, x);
                }
            }
        },
    }
}

/// What `lookup` finds after `k` was deleted: nothing for `k`, and for any
/// other key what it found before.
pub proof fn lemma_delete_lookup<V>(t: Tree<V>, k: Seq<char>, j: Seq<char>)
    requires
        t.wf(),
    ensures
        t.delete(k).lookup(j) == (if j == k {
            None
        } else {
            t.lookup(j)
        }),
{
    lemma_delete_wf(t, k);
    let after = t.delete(k);
    lemma_lookup_held(after, j);
    lemma_lookup_held(t, j);
    if after.lookup(j) is Some {
        let x = after.lookup(j)->0;
        assert(after.holds(j, x));
        lemma_delete_holds(t, k, j, x);
        assert(t.holds(j, x));
    } else if j != k && t.lookup(j) is Some {
        let x = t.lookup(j)->0;
        assert(t.holds(j, x));
        lemma_delete_holds(t, k, j, x);
        assert(after.holds(j, x));
    }
}

/// Deleting a key that the tree does not hold leaves the listing of the
/// tree as it was.
pub proof fn lemma_delete_absent<V>(t: Tree<V>, k: Seq<char>)
    requires
        !t.has_key(k),
    ensures
        t.delete(k).entries() == t.entries(),
    decreases t,
{
    match t {
        Tree::Empty => {},
        Tree::Node(n) => {
            if key_lt(k, n.key) {
                if n.left is Node {
                    lemma_delete_absent(n.left, k);
                }
            } else {
                if n.right is Node {
                    lemma_delete_absent(n.right, k);
                }
            }
        },
    }
}

/// The number of entries after `k` was deleted: one less than before if the
/// tree held `k`, else as many as before.
pub proof fn lemma_delete_count<V>(t: Tree<V>, k: Seq<char>)
    requires
        t.wf(),
    ensures
        t.delete(k).entries().len() + (if t.has_key(k) {
            1int
        } else {
            0int
        }) == t.entries().len(),
    decreases t,
{
    reveal_with_fuel(Tree::entries, 2);
    lemma_empty::<V>();
    match t {
        Tree::Empty => {},
        Tree::Node(n) => {
            lemma_wf_parts(*n);
            lemma_key_lt_irreflexive(k);
            lemma_key_lt_total(k, n.key);
            if n.left.has_key(k) && key_lt(n.key, k) {
                lemma_key_lt_asymmetric(n.key, k);
            }
            if n.right.has_key(k) && key_lt(k, n.key) {
                lemma_key_lt_asymmetric(k, n.key);
            }
            if k == n.key {
                if n.left is Node {
                    lemma_shift_rightmost(n.left);
                } else if n.right is Node {
                    lemma_shift_leftmost(n.right);
                }
            } else if key_lt(k, n.key) {
                if n.left is Node {
                    lemma_delete_count(n.left, k);
                }
            } else {
                if n.right is Node {
                    lemma_delete_count(n.right, k);
                }
            }
        },
    }
}

} // verus!
