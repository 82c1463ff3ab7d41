//! Character classes.
use vstd::prelude::*;
use crate::scan::{is_ident_byte, is_ident_spec};

verus! {

/// Whether `c` may appear in an identifier: an ASCII letter or digit, `-`, `_`, `:`, `+`
/// or `/`.
pub fn is_ident(c: u8) -> (b: bool)
    ensures
        b == is_ident_spec(c),
{
    is_ident_byte(c)
}

} // verus!
