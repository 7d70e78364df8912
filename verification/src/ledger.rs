//! The ledger: the head of the history, and the commit protocol.

use vstd::prelude::*;
use std::sync::Arc;
use arc_swap::ArcSwap;
use crate::model::Tree;
use crate::share::same_allocation;
use crate::state::State;
use crate::transaction::LedgerTransaction;

verus! {

/// The cell that holds the current snapshot. It is an `ArcSwap` of the
/// crate `arc_swap`: every thread may load it and try to swap it at any
/// time, so nothing is known of what it holds but that it is a snapshot.
#[verifier::external_body]
#[verifier::reject_recursive_types(V)]
struct Head<V> {
    cell: ArcSwap<State<V>>,
}

/// `ArcSwap::new`: a cell that holds `first`. A head starts from the empty
/// snapshot with nothing before it, so no other snapshot may be handed in.
#[verifier::external_body]
fn head_new<V>(first: Arc<State<V>>) -> Head<V>
    requires
        first@ == Tree::<V>::Empty,
        first.history() == seq![Tree::<V>::Empty],
{
    Head { cell: ArcSwap::new(first) }
}

/// `ArcSwapAny::load_full`: the snapshot that the cell holds at the moment
/// of the call. Another thread may swap it at once.
#[verifier::external_body]
fn head_load<V>(head: &Head<V>) -> Arc<State<V>> {
    head.cell.load_full()
}

/// `ArcSwapAny::compare_and_swap`: puts `next` into the cell if the cell
/// holds the allocation `current`, and in any case gives what the cell
/// held before the call. The swap was made if and only if that is the
/// allocation `current`.
#[verifier::external_body]
fn head_compare_and_swap<V>(head: &Head<V>, current: &Arc<State<V>>, next: Arc<State<V>>) -> Arc<
    State<V>,
> {
    arc_swap::Guard::into_inner(head.cell.compare_and_swap(current, next))
}

/// How one attempt to commit ended.
#[derive(Clone, Copy, Debug, PartialEq, Eq)]
pub enum Attempt {
    /// The transaction ended with the root it was opened on: there was
    /// nothing to publish.
    Unchanged,
    /// The head was swapped for the new snapshot.
    Published,
    /// Another commit had swapped the head in the meantime: nothing was
    /// published.
    Lost,
}

/// What a commit does after an attempt.
#[derive(Clone, Copy, Debug, PartialEq, Eq)]
pub enum Course {
    /// It ends, and gives whether it succeeded.
    Done(bool),
    /// It makes another attempt, with so many retries left after that one.
    Again(u32),
}

/// The rule of the retry budget: a commit ends with success after an
/// attempt that was not lost, ends with failure after a lost attempt when
/// no retry is left, and else makes another attempt with one retry less.
pub open spec fn course_after(attempt: Attempt, left: u32) -> Course {
    match attempt {
        Attempt::Lost => if left == 0 {
            Course::Done(false)
        } else {
            Course::Again((left - 1) as u32)
        },
        _ => Course::Done(true),
    }
}

/// What a commit with `left` retries left does after `attempt`.
pub fn proceed(attempt: Attempt, left: u32) -> (course: Course)
    ensures
        course == course_after(attempt, left),
{
    match attempt {
        Attempt::Lost => if left == 0 {
            Course::Done(false)
        } else {
            Course::Again(left - 1)
        },
        _ => Course::Done(true),
    }
}

/// A versioned map. Its head is the latest snapshot; a commit puts a new
/// snapshot in its place, unless another commit was faster.
#[verifier::reject_recursive_types(V)]
pub struct Ledger<V> {
    head: Head<V>,
}

#[allow(non_snake_case)]
impl<V> Ledger<V> {
    fn stateRef(value: State<V>) -> (r: Arc<State<V>>)
        ensures
            *r == value,
    {
        Arc::new(value)
    }

    /// One attempt to commit: loads the head, runs `f` on a transaction on
    /// its root, and tries to put the snapshot of what `f` gave in the
    /// head's place, unless `f` gave the root that it was given.
    fn runTransaction<F>(&self, f: &F) -> (attempt: Attempt) where
        F: Fn(LedgerTransaction<V>) -> LedgerTransaction<V>,

        requires
            forall|t: LedgerTransaction<V>| call_requires(*f, (t,)),
        ensures
            exists|t: LedgerTransaction<V>, r: LedgerTransaction<V>|
                call_ensures(*f, (t,), r) && (attempt is Unchanged ==> r@ == t@),
    {
        let observed = head_load(&self.head);
        let t = LedgerTransaction::new(observed.map());
        let r = f(t);
        assert(call_ensures(*f, (t,), r));
        let newtree = r.digest();
        match State::successor(&observed, newtree) {
            Some(newstate) => {
                let found = head_compare_and_swap(&self.head, &observed, Self::stateRef(newstate));
                if same_allocation(&found, &observed) {
                    Attempt::Published
                } else {
                    Attempt::Lost
                }
            },
            None => Attempt::Unchanged,
        }
    }

    /// A ledger with an empty map and no history.
    pub fn new() -> Ledger<V> {
        Ledger { head: head_new(Self::stateRef(State::<V>::empty())) }
    }

    /// The current snapshot.
    pub fn load(&self) -> (s: State<V>)
        ensures
            s@.wf(),
    {
        (*head_load(&self.head)).clone()
    }

    /// Commits `f`: runs it on a transaction on the current snapshot and
    /// publishes what it gives, again from the start whenever another
    /// commit was faster, up to `retry` more times. Gives whether an
    /// attempt succeeded.
    ///
    /// `f` may run several times, so it should do nothing but work on its
    /// transaction.
    pub fn attemptTransaction<F>(&self, retry: u32, f: F) -> (done: bool) where
        F: Fn(LedgerTransaction<V>) -> LedgerTransaction<V>,

        requires
            forall|t: LedgerTransaction<V>| call_requires(f, (t,)),
        ensures
            exists|t: LedgerTransaction<V>, r: LedgerTransaction<V>| call_ensures(f, (t,), r),
    {
        let mut left: u32 = retry;
        loop
            invariant
                forall|t: LedgerTransaction<V>| call_requires(f, (t,)),
            decreases left,
        {
            let attempt = self.runTransaction(&f);
            match proceed(attempt, left) {
                Course::Done(done) => {
                    return done;
                },
                Course::Again(fewer) => {
                    left = fewer;
                },
            }
        }
    }

    /// Commits `f` with three more attempts after the first.
    pub fn transaction<F>(&self, f: F) -> (done: bool) where
        F: Fn(LedgerTransaction<V>) -> LedgerTransaction<V>,

        requires
            forall|t: LedgerTransaction<V>| call_requires(f, (t,)),
        ensures
            exists|t: LedgerTransaction<V>, r: LedgerTransaction<V>| call_ensures(f, (t,), r),
    {
        return self.attemptTransaction(3, f);
    }
}

} // verus!
