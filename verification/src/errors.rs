//! Error taxonomy of the engine.

use vstd::prelude::*;

verus! {

/// Everything that an engine call can fail with.
#[derive(Clone, Copy, Debug, PartialEq, Eq, Structural)]
pub enum Errors {
    /// The submitted action is unknown or illegal in the current state.  The
    /// action is rejected and the state is left unchanged.
    InvalidMove,
    /// The per-match context lacks a seed or an acting-player list that the
    /// call requires.
    MissingContext,
    /// The state machine itself is inconsistent (a stuck scheduler, or a draw
    /// request for more cards than the deck holds).  Fatal for the match.
    InternalInvariantViolation,
}

impl Errors {
    /// A short description of the error, for hosts that log rejected calls.
    pub fn message(&self) -> (r: &'static str)
        ensures
            self is InvalidMove ==> r@ == "This move cannot be made."@,
            self is MissingContext ==> r@ == "The match context is incomplete."@,
            self is InternalInvariantViolation ==> r@ == "The game state is inconsistent."@,
    {
        match self {
            Errors::InvalidMove => "This move cannot be made.",
            Errors::MissingContext => "The match context is incomplete.",
            Errors::InternalInvariantViolation => "The game state is inconsistent.",
        }
    }
}

} // verus!
