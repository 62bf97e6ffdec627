//! How a card is printed.
use vstd::prelude::*;

verus! {

/// Controls how a card is printed.
#[derive(Debug, Copy, Clone, PartialEq, Eq, Structural)]
pub enum PrintFormat {
    Plain,
    AnsiColour,
}

} // verus!
