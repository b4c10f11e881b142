//! The store's error type.
use vstd::prelude::*;

verus! {

/// What can go wrong in a call on the store.
#[derive(Debug)]
pub enum ShortDBErrors {
    /// Reading or writing the log or the table failed; the text says how.
    Io(String),
    /// No live value is stored under the key.
    KeyNotFound,
    /// A record of the log or the table could not be read where one should
    /// stand: a damaged store or a program bug.
    UnexpectedCommandType,
    /// A value that was just stored could not be read back.
    ValueNotSet,
}

/// The result of a call on the store.
pub type Result<T> = core::result::Result<T, ShortDBErrors>;

} // verus!
