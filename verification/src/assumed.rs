//! What this library takes on trust from the standard library.
//!
//! Nothing here is proved: each item states what the documentation of the
//! standard library says of a type or a function.

use std::path::PathBuf;
use vstd::prelude::*;
use vstd::utf8::{encode_utf8, valid_utf8};

verus! {

/// `std::path::PathBuf`: a path in the file system. The library keeps such
/// a path and hands it back, and never looks into it.
#[verifier::external_type_specification]
#[verifier::external_body]
pub struct ExPathBuf(PathBuf);

/// `std::str::Utf8Error`: why `std::str::from_utf8` refused its bytes.
#[verifier::external_type_specification]
#[verifier::external_body]
pub struct ExUtf8Error(core::str::Utf8Error);

/// `String::push` appends the character `c` to the end of the string `s`.
pub assume_specification[ String::push ](s: &mut String, c: char)
    ensures
        final(s)@ == old(s)@.push(c),
;

/// `std::str::from_utf8` succeeds on the byte sequences that are UTF-8 and
/// on no others, and the string slice that it hands out is made of the
/// bytes that it was given.
pub assume_specification[ core::str::from_utf8 ](v: &[u8]) -> (r: Result<
    &str,
    core::str::Utf8Error,
>)
    ensures
        r is Ok <==> valid_utf8(v@),
        r matches Ok(s) ==> encode_utf8(s@) == v@,
;

} // verus!
