//! A minimal "problem" capability interface: a driver perceives the current
//! state, enumerates legal actions, applies one, and tests for the goal.

use vstd::prelude::*;

verus! {

/// A game (or search problem) seen through percepts of type `P` and actions
/// of type `A`. `result` never mutates the receiver: it returns a fresh
/// snapshot, so a driver may retain history for free.
///
/// `inv` is the state's well-formedness: constructors of implementing types
/// establish it, and `result` preserves it, so a driver that starts from a
/// properly constructed state may call these methods forever.
pub trait Problem<A, P>: Sized {
    spec fn inv(&self) -> bool;

    fn percept(&self) -> P
        requires
            self.inv(),
    ;

    fn actions(&self) -> Vec<A>
        requires
            self.inv(),
    ;

    fn result(&self, act: A) -> (r: Self)
        requires
            self.inv(),
        ensures
            r.inv(),
    ;

    fn is_goal(&self) -> bool
        requires
            self.inv(),
    ;
}

} // verus!
