//! Byte searches used by the parsers.
use vstd::prelude::*;
use crate::scan;
use crate::scan::{ci_eq, is_ident_spec, GT, SLASH};

verus! {

/// Checks if the given byte is a "closing" byte (`/` or `>`).
pub fn is_closing(needle: u8) -> (b: bool)
    ensures
        b == (needle == SLASH || needle == GT),
{
    scan::is_closing(needle)
}

/// Searches for the first non-identifier byte in `haystack`.
pub fn search_non_ident(haystack: &[u8]) -> (res: Option<usize>)
    ensures
        match res {
            Some(i) => i < haystack@.len() && !is_ident_spec(haystack@[i as int]) && forall|k: int|
                0 <= k < i ==> is_ident_spec(#[trigger] haystack@[k]),
            None => forall|k: int| 0 <= k < haystack@.len() ==> is_ident_spec(#[trigger] haystack@[k]),
        },
{
    scan::search_non_ident(haystack)
}

/// Searches for the first occurrence of any of 3 bytes in `haystack`.
pub fn find3(haystack: &[u8], needle: [u8; 3]) -> (res: Option<usize>)
    ensures
        match res {
            Some(i) => i < haystack@.len() && needle@.contains(haystack@[i as int]) && forall|
                k: int,
            | 0 <= k < i ==> !needle@.contains(#[trigger] haystack@[k]),
            None => forall|k: int|
                0 <= k < haystack@.len() ==> !needle@.contains(#[trigger] haystack@[k]),
        },
{
    scan::find3(haystack, needle)
}

/// Searches for the first occurrence of `needle` in `haystack`.
pub fn find(haystack: &[u8], needle: u8) -> (res: Option<usize>)
    ensures
        match res {
            Some(i) => i < haystack@.len() && haystack@[i as int] == needle && forall|k: int|
                0 <= k < i ==> #[trigger] haystack@[k] != needle,
            None => forall|k: int| 0 <= k < haystack@.len() ==> #[trigger] haystack@[k] != needle,
        },
{
    scan::find(haystack, needle)
}

/// Checks if `haystack`, lowercased in ASCII, equals `needle` (so `needle` is expected in
/// lower case); inputs of different lengths never match.
pub fn matches_case_insensitive<const N: usize>(haystack: &[u8], needle: [u8; N]) -> (b: bool)
    ensures
        b == ci_eq(haystack@, needle@),
{
    if haystack.len() != N {
        return false;
    }
    scan::matches_case_insensitive(haystack, needle.as_slice())
}

} // verus!
