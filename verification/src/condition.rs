//! The non-local control signal that every executed statement yields.

use vstd::prelude::*;

verus! {

/// What a statement hands to the construct that encloses it.
#[derive(Clone, Copy, Debug, PartialEq, Eq, Structural)]
pub enum Condition {
    /// Skip the rest of the loop body and go on with the next iteration.
    Continue,
    /// Leave the nearest enclosing loop.
    Break,
    /// Nothing to propagate: go on with the next statement.
    NoOp,
    /// The user interrupted: unwind every enclosing construct.
    SigInt,
}

impl Condition {
    /// What a loop yields once its body has yielded `self`, or `None` where
    /// the loop goes on with its next iteration.
    pub open spec fn loop_exit(self) -> Option<Condition> {
        match self {
            Condition::Break => Some(Condition::NoOp),
            Condition::SigInt => Some(Condition::SigInt),
            Condition::Continue | Condition::NoOp => None,
        }
    }

    /// Whether a loop whose body yielded `self` stops, and with what.
    pub fn leaves_loop(self) -> (exit: Option<Condition>)
        ensures
            exit == self.loop_exit(),
    {
        match self {
            Condition::Break => Some(Condition::NoOp),
            Condition::SigInt => Some(Condition::SigInt),
            Condition::Continue => None,
            Condition::NoOp => None,
        }
    }

    /// Whether `self` is [`Condition::NoOp`].
    pub fn is_noop(self) -> (r: bool)
        ensures
            r == (self == Condition::NoOp),
    {
        match self {
            Condition::NoOp => true,
            _ => false,
        }
    }

    /// Whether `self` is [`Condition::SigInt`].
    pub fn is_sigint(self) -> (r: bool)
        ensures
            r == (self == Condition::SigInt),
    {
        match self {
            Condition::SigInt => true,
            _ => false,
        }
    }
}

} // verus!
