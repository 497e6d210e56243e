//! The command surface: one store or retrieve request per run.

use vstd::prelude::*;

verus! {

/// A parsed invocation: exactly one command.
pub struct Opts {
    pub command: Command,
}

/// The two operations of the store: put a local file, or rebuild a named
/// object. The application parses its arguments into this shape and hands
/// the file path or object name on as a plain string.
pub enum Command {
    Store { file: String },
    Retrieve { word: String },
}

} // verus!
