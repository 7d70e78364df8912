//! A versioned key-value store that is built on a persistent search tree.
//!
//! Every update of the tree gives a new root and leaves the old one as it
//! was; the parts that did not change are shared between the two.
//! A [`Ledger`] publishes such roots one after another through a single
//! head that is swapped atomically: a commit runs on the snapshot it
//! found, and starts again if another commit was faster.
//!
//! The trees are described by a mathematical model, [`Tree`] and [`Node`],
//! and every executable function states which function of the model it
//! computes.
//!
//! - [`order`]: the order of the keys, and how two keys are compared.
//! - [`model`]: the model of the tree: what `add`, `lookup` and `delete`
//!   mean.
//! - [`laws`]: the search-tree order and the balance of the recorded
//!   heights, and that `add` and `delete` keep them.
//! - [`contents`]: what a tree holds after a key was set or deleted.
//! - [`avl`]: the executable tree.
//! - [`transaction`], [`state`], [`ledger`]: transactions, snapshots, and
//!   the commit protocol.

pub mod avl;
pub mod contents;
pub mod laws;
pub mod ledger;
pub mod model;
pub mod order;
mod share;
pub mod state;
pub mod transaction;

pub use crate::avl::AVL;
pub use crate::ledger::{Attempt, Course, Ledger};
pub use crate::model::{Balance, Node, Tree};
pub use crate::order::{compare_keys, KeyOrder};
pub use crate::state::State;
pub use crate::transaction::LedgerTransaction;
