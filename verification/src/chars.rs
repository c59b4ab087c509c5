//! Character classes and sizes, as the standard library decides them.

use vstd::prelude::*;
use vstd::utf8::encode_scalar;

verus! {

/// Whether `c` has the Unicode property `White_Space`.
pub uninterp spec fn is_whitespace_char(c: char) -> bool;

/// Whether `c` has the Unicode property `Alphabetic`.
pub uninterp spec fn is_alphabetic_char(c: char) -> bool;

/// `char::is_whitespace` looks `c` up in the Unicode tables that the standard
/// library carries. The answer depends on `c` alone; it is named here, not
/// spelled out.
pub assume_specification[ char::is_whitespace ](c: char) -> (r: bool)
    ensures
        r == is_whitespace_char(c),
;

/// `char::is_alphabetic` looks `c` up in the Unicode tables that the standard
/// library carries. The answer depends on `c` alone; it is named here, not
/// spelled out.
pub assume_specification[ char::is_alphabetic ](c: char) -> (r: bool)
    ensures
        r == is_alphabetic_char(c),
;

/// `char::len_utf8` returns the number of bytes that `c` takes in UTF-8,
/// which is the length of its encoding as `vstd` defines it: one to four.
pub assume_specification[ char::len_utf8 ](c: char) -> (r: usize)
    ensures
        r == encode_scalar(c as u32).len(),
;

} // verus!
