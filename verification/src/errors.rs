//! Error types of the menu core.
//!
//! Configuration problems are fatal at build time and carry the offending
//! token; an invalid initial key sequence is fatal before first display.  A
//! key event that matches nothing is not an error anywhere in the crate.

use vstd::prelude::*;

verus! {

/// A fatal problem in the user-authored configuration.
#[derive(Debug)]
pub enum ConfigError {
    /// A menu level with no entries at all.
    EmptyPage,
    /// A key token whose base symbol does not resolve; holds the base token.
    InvalidKey(String),
    /// A modifier token that is not recognised; holds the modifier token.
    UnknownModifier(String),
}

/// A fatal problem in a pre-supplied initial key sequence.
#[derive(Debug)]
pub enum SequenceError {
    /// A token whose base symbol does not resolve; holds the base token.
    InvalidKey(String),
    /// A modifier token that is not recognised; holds the modifier token.
    UnknownModifier(String),
    /// A token that matches nothing on the current page, or a token that
    /// resolved to a terminal action while more tokens follow; holds the
    /// token at fault.
    InvalidSequence(String),
}

} // verus!
