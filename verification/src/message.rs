//! The order value that generals exchange.

use vstd::prelude::*;

verus! {

/// An oral message carrying a binary order: `attack == true` means attack,
/// `attack == false` means retreat. Immutable once created.
#[derive(Debug, Clone, Copy, PartialEq, Eq, Structural)]
pub struct Message {
    pub attack: bool,
}

} // verus!
