//! Errors of the command layer.

use vstd::prelude::*;

verus! {

/// The ways a line of command input can be invalid.
#[derive(Debug, PartialEq, Eq)]
pub enum CommandError {
    /// An invalid block identifier was supplied; holds the offending token.
    BadBlockId(String),
    /// An invalid command string was supplied.
    BadCommand(String),
    /// Tried to move a block onto or over itself.
    ImpossibleMove,
}

} // verus!
