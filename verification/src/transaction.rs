//! A transaction: a root that is worked on before it is published.

use vstd::prelude::*;
use std::sync::Arc;
use crate::avl::{tree_of, AVL};
use crate::contents::lemma_empty_set;
use crate::model::{listing_with, Node, Tree};

verus! {

/// The working root of one attempt to commit. It starts as the root of a
/// snapshot; `set` and `delete` put another root in its place, and `get`
/// reads the root as it is then.
#[derive(Debug)]
pub struct LedgerTransaction<V> {
    root: Option<Arc<AVL<V>>>,
}

impl<V> View for LedgerTransaction<V> {
    type V = Tree<V>;

    closed spec fn view(&self) -> Tree<V> {
        tree_of(self.root)
    }
}

impl<V> LedgerTransaction<V> {
    /// A transaction on `tree`.
    pub fn new(tree: Option<Arc<AVL<V>>>) -> (t: LedgerTransaction<V>)
        ensures
            t@ == tree_of(tree),
            t@.wf(),
    {
        if let Some(ref root) = tree {
            root.wellFormed();
        }
        LedgerTransaction { root: tree }
    }

    /// Sets `key` to `value` in the working root.
    ///
    /// The new root holds `key` with no value but `value`, and any other key
    /// with no value but the one that the old root holds. A rotation may cut
    /// entries off: the new root has one entry more than the old one unless
    /// that held `key`, less those that were cut off. Where none was, the
    /// new root lists what the old one lists, with `key` and `value` put in
    /// their place.
    pub fn set(&mut self, key: &str, value: V)
        ensures
            final(self)@ == old(self)@.add(key@, value).tree(),
            final(self)@.wf(),
            old(self)@.balanced() ==> final(self)@.balanced(),
            forall|k: Seq<char>|
                (#[trigger] final(self)@.lookup(k)) is Some ==> final(self)@.lookup(k) == (if k
                    == key@ {
                    Some(value)
                } else {
                    old(self)@.lookup(k)
                }),
            final(self)@.entries().len() + old(self)@.add_cut_off(key@, value) == old(
                self,
            )@.entries().len() + (if old(self)@.has_key(key@) {
                0int
            } else {
                1int
            }),
            old(self)@.add_cut_off(key@, value) == 0 ==> final(self)@.entries() == listing_with(
                old(self)@.entries(),
                key@,
                value,
            ),
    {
        let next = match self.root {
            Some(ref tree) => tree.add(key.to_owned(), value),
            None => AVL::new(key.to_owned(), value),
        };
        proof {
            lemma_empty_set(key@, value);
            assert forall|k: Seq<char>|
                (#[trigger] next@.tree().lookup(k)) is Some implies next@.tree().lookup(k) == (if k
                == key@ {
                Some(value)
            } else {
                old(self)@.lookup(k)
            }) by {
                if old(self)@ is Empty {
                    assert(next@.tree().lookup(k) == Node::leaf(key@, value).tree().lookup(k));
                } else {
                    assert(next@.lookup(k) is Some);
                }
            }
        }
        self.root = Some(Arc::new(next));
    }

    /// The value that the working root holds with `key`; `None` where `key`
    /// is no key of it.
    pub fn get(&self, key: &str) -> (found: Option<Arc<V>>)
        ensures
            (match found {
                Some(v) => self@.lookup(key@) == Some(*v) && self@.holds(key@, *v),
                None => self@.lookup(key@) is None && !self@.has_key(key@),
            }),
    {
        if let Some(ref tree) = self.root {
            return tree.get(&key.to_owned());
        }
        None
    }

    /// Deletes `key` from the working root: the new root holds nothing for
    /// `key`, and for every other key what the old root holds. Where the old
    /// root does not hold `key`, the new root lists what the old one lists.
    pub fn delete(&mut self, key: &str)
        ensures
            final(self)@ == old(self)@.delete(key@),
            final(self)@.wf(),
            forall|k: Seq<char>| #[trigger]
                final(self)@.lookup(k) == (if k == key@ {
                    None
                } else {
                    old(self)@.lookup(k)
                }),
            !old(self)@.has_key(key@) ==> final(self)@.entries() == old(self)@.entries(),
    {
        self.root = match self.root {
            Some(ref tree) => tree.delete(&key.to_owned()),
            None => None,
        };
    }

    /// Ends the transaction and hands out its root.
    pub fn digest(self) -> (root: Option<Arc<AVL<V>>>)
        ensures
            tree_of(root) == self@,
            self@.wf(),
    {
        if let Some(ref root) = self.root {
            root.wellFormed();
        }
        self.root
    }
}

} // verus!
