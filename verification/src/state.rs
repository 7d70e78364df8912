//! A snapshot: one published root, and the snapshot that it replaced.

use vstd::prelude::*;
use std::sync::Arc;
use crate::avl::{entries_of, tree_of, AVL};
use crate::model::{ascending, Tree};
use crate::share::{same_allocation, share, share_opt};

verus! {

/// A published version of the map. A snapshot is never changed; the chain
/// of the snapshots before it only grows at its head.
#[derive(Debug)]
pub struct State<V> {
    previous: Option<Arc<State<V>>>,
    tree: Option<Arc<AVL<V>>>,
}

impl<V> View for State<V> {
    type V = Tree<V>;

    closed spec fn view(&self) -> Tree<V> {
        tree_of(self.tree)
    }
}

/// Whether two roots are one and the same: both absent, or both the same
/// allocation. Two roots that are the same stand for the same tree.
pub fn same_root<V>(a: &Option<Arc<AVL<V>>>, b: &Option<Arc<AVL<V>>>) -> (same: bool)
    ensures
        same ==> tree_of(*a) == tree_of(*b),
        *a is None && *b is None ==> same,
        (*a is None) != (*b is None) ==> !same,
{
    match a {
        Some(x) => match b {
            Some(y) => same_allocation(x, y),
            None => false,
        },
        None => b.is_none(),
    }
}

impl<V> Clone for State<V> {
    fn clone(&self) -> (c: State<V>)
        ensures
            c@ == self@,
            c@.wf(),
            c.history() == self.history(),
    {
        if let Some(ref root) = self.tree {
            root.wellFormed();
        }
        State { previous: share_opt(&self.previous), tree: share_opt(&self.tree) }
    }
}

impl<V> State<V> {
    /// The trees of this snapshot and of those before it, the oldest first.
    pub closed spec fn history(&self) -> Seq<Tree<V>>
        decreases self,
    {
        match self.previous {
            Some(p) => p.history().push(tree_of(self.tree)),
            None => seq![tree_of(self.tree)],
        }
    }

    /// The first snapshot of a ledger: no entries, and nothing before it.
    pub fn empty() -> (s: State<V>)
        ensures
            s@ == Tree::<V>::Empty,
            s.history() == seq![Tree::<V>::Empty],
    {
        State { previous: None, tree: None }
    }

    /// The snapshot of `tree` that comes after `previous`.
    pub fn new(tree: Option<Arc<AVL<V>>>, previous: Option<Arc<State<V>>>) -> (s: State<V>)
        ensures
            s@ == tree_of(tree),
            s.history() == (match previous {
                Some(p) => p.history().push(tree_of(tree)),
                None => seq![tree_of(tree)],
            }),
    {
        State { previous: previous, tree: tree }
    }

    /// The root of the snapshot. Its tree is well formed.
    pub fn map(&self) -> (root: Option<Arc<AVL<V>>>)
        ensures
            tree_of(root) == self@,
            self@.wf(),
    {
        if let Some(ref root) = self.tree {
            root.wellFormed();
        }
        share_opt(&self.tree)
    }

    /// The value that the snapshot holds with `key`; `None` where `key` is no
    /// key of it.
    pub fn get(&self, key: &str) -> (found: Option<Arc<V>>)
        ensures
            (match found {
                Some(v) => self@.lookup(key@) == Some(*v) && self@.holds(key@, *v),
                None => self@.lookup(key@) is None && !self@.has_key(key@),
            }),
    {
        match self.tree {
            Some(ref tree) => tree.get(&key.to_owned()),
            None => None,
        }
    }

    /// The entries of the snapshot in the order of their keys, which is
    /// strictly ascending.
    pub fn lineup(&self) -> (list: Vec<(Arc<String>, Arc<V>)>)
        ensures
            entries_of(list@) == self@.entries(),
            ascending(entries_of(list@)),
    {
        match self.tree {
            Some(ref tree) => tree.lineup(),
            None => {
                let list = Vec::new();
                assert(entries_of(list@) =~= Seq::empty());
                list
            },
        }
    }

    /// What a transaction that was opened on `observed` and ended with
    /// `root` is to publish: nothing where `root` is the very root that it
    /// was opened on, else the snapshot of `root` that comes after
    /// `observed`.
    pub fn successor(observed: &Arc<State<V>>, root: Option<Arc<AVL<V>>>) -> (next: Option<
        State<V>,
    >)
        ensures
            (match next {
                Some(s) => s@ == tree_of(root) && s.history() == observed.history().push(
                    tree_of(root),
                ),
                None => tree_of(root) == observed@,
            }),
            root is None && observed@ is Empty ==> next is None,
            (root is None) != (observed@ is Empty) ==> next is Some,
    {
        if same_root(&root, &observed.tree) {
            None
        } else {
            Some(State::new(root, Some(share(observed))))
        }
    }
}

} // verus!
