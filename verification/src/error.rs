//! Why reading an alias file can fail.

use vstd::prelude::*;

verus! {

/// What is wrong with the bytes of an alias file.
#[derive(Debug, Clone, Copy, PartialEq, Eq, Structural)]
pub enum AliasError {
    /// The bytes are not UTF-8.
    InvalidEncoding,
    /// A line starts with `alias` but holds no quoted command.
    MalformedLine,
}

} // verus!
