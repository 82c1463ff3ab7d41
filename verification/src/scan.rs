//! Byte-level scanning primitives shared by the HTML and selector parsers.
use vstd::prelude::*;

verus! {

/// `' '`
pub const SPACE: u8 = 32;
/// `'\n'`
pub const LF: u8 = 10;
/// `'<'`
pub const LT: u8 = 60;
/// `'>'`
pub const GT: u8 = 62;
/// `'/'`
pub const SLASH: u8 = 47;
/// `'!'`
pub const BANG: u8 = 33;
/// `'-'`
pub const DASH: u8 = 45;
/// `'='`
pub const EQ: u8 = 61;
/// `'"'`
pub const DQUOTE: u8 = 34;
/// `'\''`
pub const SQUOTE: u8 = 39;

/// A class of bytes; a "run" is a maximal stretch of bytes of one class.
#[derive(Clone, Copy, PartialEq, Eq, Structural)]
pub enum Run {
    /// Identifier bytes: ASCII letters and digits, `-`, `_`, `:`, `+`, `/`.
    Ident,
    /// A space or a line feed.
    Blank,
    /// A space.
    Space,
    /// Any byte other than the given one.
    Until(u8),
    /// Any byte that ends neither an unquoted attribute value (space, line feed, `>`).
    Unquoted,
    /// Either of two given bytes.
    Either(u8, u8),
    /// An ASCII whitespace byte (space, tab, line feed, form feed, carriage return).
    AsciiWhitespace,
    /// A byte that is not ASCII whitespace.
    NotAsciiWhitespace,
}

pub open spec fn is_ident_spec(b: u8) -> bool {
    ||| (48u8 <= b && b <= 57u8)
    ||| (65u8 <= b && b <= 90u8)
    ||| (97u8 <= b && b <= 122u8)
    ||| b == 45u8
    ||| b == 95u8
    ||| b == 58u8
    ||| b == 43u8
    ||| b == 47u8
}

pub open spec fn is_ascii_ws_spec(b: u8) -> bool {
    b == 32u8 || b == 9u8 || b == 10u8 || b == 12u8 || b == 13u8
}

pub open spec fn in_run(r: Run, b: u8) -> bool {
    match r {
        Run::Ident => is_ident_spec(b),
        Run::Blank => b == 32u8 || b == 10u8,
        Run::Space => b == 32u8,
        Run::Until(x) => b != x,
        Run::Unquoted => b != 32u8 && b != 10u8 && b != 62u8,
        Run::Either(x, y) => b == x || b == y,
        Run::AsciiWhitespace => is_ascii_ws_spec(b),
        Run::NotAsciiWhitespace => !is_ascii_ws_spec(b),
    }
}

/// The index where the run of class `r` that starts at `i` ends.
pub open spec fn run_end(s: Seq<u8>, i: int, r: Run) -> int
    decreases s.len() - i,
{
    if 0 <= i < s.len() && in_run(r, s[i]) {
        run_end(s, i + 1, r)
    } else {
        i
    }
}

/// What a run end is: every byte before it belongs to the class, the byte at it does not.
pub proof fn lemma_run_end(s: Seq<u8>, i: int, r: Run)
    requires
        0 <= i <= s.len(),
    ensures
        i <= run_end(s, i, r) <= s.len(),
        forall|k: int| i <= k < run_end(s, i, r) ==> in_run(r, #[trigger] s[k]),
        run_end(s, i, r) < s.len() ==> !in_run(r, s[run_end(s, i, r)]),
    decreases s.len() - i,
{
    if i < s.len() && in_run(r, s[i]) {
        lemma_run_end(s, i + 1, r);
    }
}

/// Whether byte `b` belongs to class `r`.
pub fn in_run_exec(r: Run, b: u8) -> (res: bool)
    ensures
        res == in_run(r, b),
{
    match r {
        Run::Ident => is_ident_byte(b),
        Run::Blank => b == SPACE || b == LF,
        Run::Space => b == SPACE,
        Run::Until(x) => b != x,
        Run::Unquoted => b != SPACE && b != LF && b != GT,
        Run::Either(x, y) => b == x || b == y,
        Run::AsciiWhitespace => is_ascii_ws(b),
        Run::NotAsciiWhitespace => !is_ascii_ws(b),
    }
}

/// The end of the run of class `r` that starts at `i` in `s`.
pub fn scan_run(s: &[u8], i: usize, r: Run) -> (e: usize)
    requires
        i <= s@.len(),
    ensures
        e == run_end(s@, i as int, r),
        i <= e <= s@.len(),
{
    let mut idx = i;
    while idx < s.len() && in_run_exec(r, s[idx])
        invariant
            i <= idx <= s@.len(),
            run_end(s@, i as int, r) == run_end(s@, idx as int, r),
        decreases s@.len() - idx,
    {
        idx = idx + 1;
    }
    idx
}

/// Whether `byte` is an identifier byte.
pub fn is_ident_byte(byte: u8) -> (res: bool)
    ensures
        res == is_ident_spec(byte),
{
    (byte >= 48 && byte <= 57) || (byte >= 65 && byte <= 90) || (byte >= 97 && byte <= 122)
        || byte == 45 || byte == 95 || byte == SLASH || byte == 58 || byte == 43
}

/// Whether `byte` is ASCII whitespace.
pub fn is_ascii_ws(byte: u8) -> (res: bool)
    ensures
        res == is_ascii_ws_spec(byte),
{
    byte == SPACE || byte == 9 || byte == LF || byte == 12 || byte == 13
}

} // verus!

verus! {

/// Whether two byte strings are equal.
pub fn bytes_eq(left: &[u8], right: &[u8]) -> (res: bool)
    ensures
        res == (left@ == right@),
{
    if left.len() != right.len() {
        return false;
    }
    let mut idx: usize = 0;
    while idx < left.len()
        invariant
            left@.len() == right@.len(),
            idx <= left@.len(),
            forall|k: int| 0 <= k < idx ==> left@[k] == right@[k],
        decreases left@.len() - idx,
    {
        if left[idx] != right[idx] {
            return false;
        }
        idx = idx + 1;
    }
    assert(left@ =~= right@);
    true
}

/// The HTML elements that never have content or a closing tag.
pub open spec fn is_void_tag_name(t: Seq<u8>) -> bool {
    ||| t == seq![97u8, 114, 101, 97]
    ||| t == seq![98u8, 97, 115, 101]
    ||| t == seq![98u8, 114]
    ||| t == seq![99u8, 111, 108]
    ||| t == seq![99u8, 111, 109, 109, 97, 110, 100]
    ||| t == seq![101u8, 109, 98, 101, 100]
    ||| t == seq![104u8, 114]
    ||| t == seq![105u8, 109, 103]
    ||| t == seq![105u8, 110, 112, 117, 116]
    ||| t == seq![107u8, 101, 121, 103, 101, 110]
    ||| t == seq![108u8, 105, 110, 107]
    ||| t == seq![109u8, 101, 116, 97]
    ||| t == seq![112u8, 97, 114, 97, 109]
    ||| t == seq![115u8, 111, 117, 114, 99, 101]
    ||| t == seq![116u8, 114, 97, 99, 107]
    ||| t == seq![119u8, 98, 114]
}

/// The HTML void elements: `area`, `base`, `br`, `col`, `command`, `embed`, `hr`, `img`,
/// `input`, `keygen`, `link`, `meta`, `param`, `source`, `track` and `wbr`.
pub open spec fn html_void_elements() -> Seq<Seq<u8>> {
    seq![
        seq![97u8, 114, 101, 97],
        seq![98u8, 97, 115, 101],
        seq![98u8, 114],
        seq![99u8, 111, 108],
        seq![99u8, 111, 109, 109, 97, 110, 100],
        seq![101u8, 109, 98, 101, 100],
        seq![104u8, 114],
        seq![105u8, 109, 103],
        seq![105u8, 110, 112, 117, 116],
        seq![107u8, 101, 121, 103, 101, 110],
        seq![108u8, 105, 110, 107],
        seq![109u8, 101, 116, 97],
        seq![112u8, 97, 114, 97, 109],
        seq![115u8, 111, 117, 114, 99, 101],
        seq![116u8, 114, 97, 99, 107],
        seq![119u8, 98, 114],
    ]
}

/// Every HTML void element name is recognised as void.
pub proof fn lemma_void_names(name: Seq<u8>)
    requires
        html_void_elements().contains(name),
    ensures
        is_void_tag_name(name),
{
    let v = html_void_elements();
    let i = choose|i: int| 0 <= i < v.len() && v[i] == name;
    assert(0 <= i < 16);
}

/// Whether `tag` names a void element (case sensitive).
pub fn is_void_tag(tag: &[u8]) -> (res: bool)
    ensures
        res == is_void_tag_name(tag@),
{
    let v0 = bytes_eq(tag, &[97u8, 114, 101, 97]); // area
    let v1 = bytes_eq(tag, &[98u8, 97, 115, 101]); // base
    let v2 = bytes_eq(tag, &[98u8, 114]); // br
    let v3 = bytes_eq(tag, &[99u8, 111, 108]); // col
    let v4 = bytes_eq(tag, &[99u8, 111, 109, 109, 97, 110, 100]); // command
    let v5 = bytes_eq(tag, &[101u8, 109, 98, 101, 100]); // embed
    let v6 = bytes_eq(tag, &[104u8, 114]); // hr
    let v7 = bytes_eq(tag, &[105u8, 109, 103]); // img
    let v8 = bytes_eq(tag, &[105u8, 110, 112, 117, 116]); // input
    let v9 = bytes_eq(tag, &[107u8, 101, 121, 103, 101, 110]); // keygen
    let v10 = bytes_eq(tag, &[108u8, 105, 110, 107]); // link
    let v11 = bytes_eq(tag, &[109u8, 101, 116, 97]); // meta
    let v12 = bytes_eq(tag, &[112u8, 97, 114, 97, 109]); // param
    let v13 = bytes_eq(tag, &[115u8, 111, 117, 114, 99, 101]); // source
    let v14 = bytes_eq(tag, &[116u8, 114, 97, 99, 107]); // track
    let v15 = bytes_eq(tag, &[119u8, 98, 114]); // wbr
    v0 || v1 || v2 || v3 || v4 || v5 || v6 || v7 || v8 || v9 || v10 || v11 || v12 || v13 || v14 || v15
}

} // verus!

verus! {

/// Whether `byte` closes a tag's attribute list (`/` or `>`).
pub fn is_closing(byte: u8) -> (res: bool)
    ensures
        res == (byte == SLASH || byte == GT),
{
    byte == SLASH || byte == GT
}

/// Whether `byte` is a quote (`"` or `'`).
pub fn is_quote(byte: u8) -> (res: bool)
    ensures
        res == (byte == DQUOTE || byte == SQUOTE),
{
    byte == DQUOTE || byte == SQUOTE
}

/// The position of the first byte of `haystack` that is not an identifier byte.
pub fn search_non_ident(haystack: &[u8]) -> (res: Option<usize>)
    ensures
        match res {
            Some(i) => i < haystack@.len() && !is_ident_spec(haystack@[i as int]) && forall|k: int|
                0 <= k < i ==> is_ident_spec(#[trigger] haystack@[k]),
            None => forall|k: int| 0 <= k < haystack@.len() ==> is_ident_spec(#[trigger] haystack@[k]),
        },
{
    let e = scan_run(haystack, 0, Run::Ident);
    proof {
        lemma_run_end(haystack@, 0, Run::Ident);
    }
    if e == haystack.len() {
        None
    } else {
        Some(e)
    }
}

/// Calls `memchr::memchr`, whose documentation promises the index of the first byte of
/// `haystack` equal to `needle`, or `None` where there is none.
#[verifier::external_body]
fn memchr_first(needle: u8, haystack: &[u8]) -> (res: Option<usize>)
    ensures
        match res {
            Some(i) => i < haystack@.len() && haystack@[i as int] == needle && forall|k: int|
                0 <= k < i ==> #[trigger] haystack@[k] != needle,
            None => forall|k: int| 0 <= k < haystack@.len() ==> #[trigger] haystack@[k] != needle,
        },
{
    memchr::memchr(needle, haystack)
}

/// Calls `memchr::memchr3`, whose documentation promises the index of the first byte of
/// `haystack` equal to one of the three needles, or `None` where there is none.
#[verifier::external_body]
fn memchr3_first(n0: u8, n1: u8, n2: u8, haystack: &[u8]) -> (res: Option<usize>)
    ensures
        match res {
            Some(i) => i < haystack@.len() && (haystack@[i as int] == n0 || haystack@[i as int]
                == n1 || haystack@[i as int] == n2) && forall|k: int|
                0 <= k < i ==> #[trigger] haystack@[k] != n0 && haystack@[k] != n1 && haystack@[k]
                    != n2,
            None => forall|k: int|
                0 <= k < haystack@.len() ==> #[trigger] haystack@[k] != n0 && haystack@[k] != n1
                    && haystack@[k] != n2,
        },
{
    memchr::memchr3(n0, n1, n2, haystack)
}

/// The position of the first occurrence of `needle` in `haystack`.
pub fn find(haystack: &[u8], needle: u8) -> (res: Option<usize>)
    ensures
        match res {
            Some(i) => i < haystack@.len() && haystack@[i as int] == needle && forall|k: int|
                0 <= k < i ==> #[trigger] haystack@[k] != needle,
            None => forall|k: int| 0 <= k < haystack@.len() ==> #[trigger] haystack@[k] != needle,
        },
{
    memchr_first(needle, haystack)
}

/// The position of the first occurrence of any of the three `needle` bytes in `haystack`.
pub fn find3(haystack: &[u8], needle: [u8; 3]) -> (res: Option<usize>)
    ensures
        match res {
            Some(i) => i < haystack@.len() && needle@.contains(haystack@[i as int]) && forall|
                k: int,
            | 0 <= k < i ==> !needle@.contains(#[trigger] haystack@[k]),
            None => forall|k: int|
                0 <= k < haystack@.len() ==> !needle@.contains(#[trigger] haystack@[k]),
        },
{
    let res = memchr3_first(needle[0], needle[1], needle[2], haystack);
    proof {
        assert(needle@.len() == 3);
        assert forall|b: u8| needle@.contains(b) <==> (b == needle@[0] || b == needle@[1] || b
            == needle@[2]) by {
            if needle@.contains(b) {
                let j = choose|j: int| 0 <= j < needle@.len() && needle@[j] == b;
                assert(j == 0 || j == 1 || j == 2);
            }
            if b == needle@[0] {
                assert(needle@[0] == b);
            }
            if b == needle@[1] {
                assert(needle@[1] == b);
            }
            if b == needle@[2] {
                assert(needle@[2] == b);
            }
        }
    }
    res
}

/// ASCII lowercasing of one byte.
pub open spec fn lower(b: u8) -> u8 {
    if 65u8 <= b && b <= 90u8 {
        (b + 32) as u8
    } else {
        b
    }
}

/// Whether `haystack`, lowercased in ASCII, equals `needle` (both of one length).
pub open spec fn ci_eq(haystack: Seq<u8>, needle: Seq<u8>) -> bool {
    &&& haystack.len() == needle.len()
    &&& forall|k: int| 0 <= k < haystack.len() ==> lower(#[trigger] haystack[k]) == needle[k]
}

/// Whether `haystack`, lowercased in ASCII, equals `needle`; the two have the same length.
pub fn matches_case_insensitive(haystack: &[u8], needle: &[u8]) -> (res: bool)
    requires
        haystack@.len() == needle@.len(),
    ensures
        res == ci_eq(haystack@, needle@),
{
    let mut idx: usize = 0;
    while idx < haystack.len()
        invariant
            haystack@.len() == needle@.len(),
            idx <= haystack@.len(),
            forall|k: int| 0 <= k < idx ==> lower(#[trigger] haystack@[k]) == needle@[k],
        decreases haystack@.len() - idx,
    {
        let b = haystack[idx];
        let l = if b >= 65 && b <= 90 {
            b + 32
        } else {
            b
        };
        if l != needle[idx] {
            return false;
        }
        idx = idx + 1;
    }
    true
}

/// How many bytes at the start of `haystack` equal `needle[0]` or `needle[1]`.
pub fn count_while2(haystack: &[u8], needle: [u8; 2]) -> (n: usize)
    ensures
        n == run_end(haystack@, 0, Run::Either(needle@[0], needle@[1])),
{
    scan_run(haystack, 0, Run::Either(needle[0], needle[1]))
}

/// How many spaces `haystack` starts with.
pub fn count_spaces(haystack: &[u8]) -> (n: usize)
    ensures
        n == run_end(haystack@, 0, Run::Space),
{
    scan_run(haystack, 0, Run::Space)
}

/// How many identifier bytes `haystack` starts with.
pub fn count_ident(haystack: &[u8]) -> (n: usize)
    ensures
        n == run_end(haystack@, 0, Run::Ident),
{
    scan_run(haystack, 0, Run::Ident)
}

/// Whether `needle` occurs in `haystack` at position `i`.
pub open spec fn occurs_at(haystack: Seq<u8>, needle: Seq<u8>, i: int) -> bool {
    0 <= i && i + needle.len() <= haystack.len() && haystack.subrange(i, i + needle.len())
        == needle
}

/// Whether `needle` occurs in `haystack` at position `i`.
pub fn matches_at(haystack: &[u8], needle: &[u8], i: usize) -> (res: bool)
    ensures
        res == occurs_at(haystack@, needle@, i as int),
{
    if i > haystack.len() || needle.len() > haystack.len() - i {
        return false;
    }
    let mut k: usize = 0;
    while k < needle.len()
        invariant
            i + needle@.len() <= haystack@.len(),
            haystack@.len() == haystack.len(),
            k <= needle@.len(),
            forall|j: int| 0 <= j < k ==> haystack@[i + j] == needle@[j],
        decreases needle@.len() - k,
    {
        if haystack[i + k] != needle[k] {
            assert(haystack@.subrange(i as int, i + needle@.len())[k as int] != needle@[k as int]);
            return false;
        }
        k = k + 1;
    }
    assert(haystack@.subrange(i as int, i + needle@.len()) =~= needle@);
    true
}

/// Whether `haystack` starts with `needle`.
pub fn starts_with(haystack: &[u8], needle: &[u8]) -> (res: bool)
    ensures
        res == occurs_at(haystack@, needle@, 0),
{
    matches_at(haystack, needle, 0)
}

/// Whether `haystack` ends with `needle`.
pub fn ends_with(haystack: &[u8], needle: &[u8]) -> (res: bool)
    ensures
        res == occurs_at(haystack@, needle@, haystack@.len() - needle@.len()),
{
    if needle.len() > haystack.len() {
        return false;
    }
    matches_at(haystack, needle, haystack.len() - needle.len())
}

/// `needle` occurs somewhere in `haystack`.
pub open spec fn contains_seq(haystack: Seq<u8>, needle: Seq<u8>) -> bool {
    exists|i: int| occurs_at(haystack, needle, i)
}

/// Whether `needle` occurs somewhere in `haystack` (the empty needle always does).
pub fn contains_bytes(haystack: &[u8], needle: &[u8]) -> (res: bool)
    ensures
        res == contains_seq(haystack@, needle@),
{
    if needle.len() > haystack.len() {
        return false;
    }
    let last = haystack.len() - needle.len();
    let mut i: usize = 0;
    loop
        invariant
            last + needle@.len() == haystack@.len(),
            i <= last,
            forall|j: int| 0 <= j < i ==> !occurs_at(haystack@, needle@, j),
        decreases last - i,
    {
        if matches_at(haystack, needle, i) {
            return true;
        }
        if i == last {
            assert forall|j: int| !occurs_at(haystack@, needle@, j) by {
                if 0 <= j < i {
                } else if j == i {
                }
            }
            return false;
        }
        i = i + 1;
    }
}

/// `needle` is a whole whitespace-separated word of `haystack` at position `i`.
pub open spec fn ws_token_at(haystack: Seq<u8>, needle: Seq<u8>, i: int) -> bool {
    &&& needle.len() > 0
    &&& forall|k: int| 0 <= k < needle.len() ==> !is_ascii_ws_spec(#[trigger] needle[k])
    &&& occurs_at(haystack, needle, i)
    &&& (i == 0 || is_ascii_ws_spec(haystack[i - 1]))
    &&& (i + needle.len() == haystack.len() || is_ascii_ws_spec(haystack[i + needle.len()]))
}

/// `needle` is one of the ASCII-whitespace separated words of `haystack`.
pub open spec fn has_ws_token(haystack: Seq<u8>, needle: Seq<u8>) -> bool {
    exists|i: int| ws_token_at(haystack, needle, i)
}

/// Whether `needle` is one of the ASCII-whitespace separated words of `haystack`.
pub fn contains_ascii_whitespace_token(haystack: &[u8], needle: &[u8]) -> (res: bool)
    ensures
        res == has_ws_token(haystack@, needle@),
{
    if needle.len() == 0 || needle.len() > haystack.len() {
        return false;
    }
    let clean = scan_run(needle, 0, Run::NotAsciiWhitespace);
    proof {
        lemma_run_end(needle@, 0, Run::NotAsciiWhitespace);
    }
    if clean != needle.len() {
        assert(is_ascii_ws_spec(needle@[clean as int]));
        return false;
    }
    let last = haystack.len() - needle.len();
    let mut i: usize = 0;
    loop
        invariant
            last + needle@.len() == haystack@.len(),
            needle@.len() > 0,
            forall|k: int| 0 <= k < needle@.len() ==> !is_ascii_ws_spec(#[trigger] needle@[k]),
            i <= last,
            forall|j: int| 0 <= j < i ==> !ws_token_at(haystack@, needle@, j),
        decreases last - i,
    {
        let before = i == 0 || is_ascii_ws(haystack[i - 1]);
        let after = i == last || is_ascii_ws(haystack[i + needle.len()]);
        if before && after && matches_at(haystack, needle, i) {
            assert(ws_token_at(haystack@, needle@, i as int));
            return true;
        }
        if i == last {
            assert forall|j: int| !ws_token_at(haystack@, needle@, j) by {
                if 0 <= j < i {
                } else if j == i {
                }
            }
            return false;
        }
        i = i + 1;
    }
}

} // verus!

verus! {

/// `-->`
pub open spec fn comment_close() -> Seq<u8> {
    seq![45u8, 45, 62]
}

/// The offset just past the first `-->` in `haystack`, if there is one.
pub fn find_comment_end(haystack: &[u8]) -> (res: Option<usize>)
    ensures
        match res {
            Some(e) => 3 <= e <= haystack@.len() && occurs_at(haystack@, comment_close(), e - 3)
                && forall|j: int| 0 <= j < e - 3 ==> !occurs_at(haystack@, comment_close(), j),
            None => forall|j: int| !occurs_at(haystack@, comment_close(), j),
        },
{
    let close: &[u8] = &[45u8, 45, 62];
    assert(close@ == comment_close());
    if haystack.len() < 3 {
        return None;
    }
    let last = haystack.len() - 3;
    let mut i: usize = 0;
    loop
        invariant
            last + 3 == haystack@.len(),
            haystack@.len() == haystack.len(),
            close@ == comment_close(),
            i <= last,
            forall|j: int| 0 <= j < i ==> !occurs_at(haystack@, comment_close(), j),
        decreases last - i,
    {
        if matches_at(haystack, close, i) {
            return Some(i + 3);
        }
        if i == last {
            assert forall|j: int| !occurs_at(haystack@, comment_close(), j) by {
                if 0 <= j < i {
                } else if j == i {
                }
            }
            return None;
        }
        i = i + 1;
    }
}

/// `id`
pub open spec fn id_name() -> Seq<u8> {
    seq![105u8, 100]
}

/// `class`
pub open spec fn class_name() -> Seq<u8> {
    seq![99u8, 108, 97, 115, 115]
}

/// 1 for the attribute name `id`, 2 for `class`, 0 for any other.
pub open spec fn attr_key_kind_spec(key: Seq<u8>) -> u32 {
    if key == id_name() {
        1
    } else if key == class_name() {
        2
    } else {
        0
    }
}

/// Which of the attributes with a field of their own `key` names: 1 `id`, 2 `class`, 0 none.
pub fn attr_key_kind(key: &[u8]) -> (res: u32)
    ensures
        res == attr_key_kind_spec(key@),
{
    if bytes_eq(key, &[105u8, 100]) {
        1
    } else if bytes_eq(key, &[99u8, 108, 97, 115, 115]) {
        2
    } else {
        0
    }
}

/// Whether a length fits in a `u32`.
pub fn len_fits_u32(len: usize) -> (res: bool)
    ensures
        res == (len <= u32::MAX),
{
    len <= 4294967295usize
}

/// Whether `haystack` has the byte `byte` at position `idx`.
pub fn byte_at_eq(haystack: &[u8], idx: usize, byte: u8) -> (res: bool)
    ensures
        res == (idx < haystack@.len() && haystack@[idx as int] == byte),
{
    idx < haystack.len() && haystack[idx] == byte
}

/// What a selector starting with `b` begins with: 1 `#` id, 2 `.` class, 3 `*` all,
/// 4 `[` attribute, 5 an identifier byte (tag), 0 nothing valid.
pub open spec fn selector_token_kind_spec(b: u8) -> u32 {
    if b == 35u8 {
        1
    } else if b == 46u8 {
        2
    } else if b == 42u8 {
        3
    } else if b == 91u8 {
        4
    } else if is_ident_spec(b) {
        5
    } else {
        0
    }
}

/// See [`selector_token_kind_spec`].
pub fn selector_token_kind(b: u8) -> (res: u32)
    ensures
        res == selector_token_kind_spec(b),
{
    if b == 35 {
        1
    } else if b == 46 {
        2
    } else if b == 42 {
        3
    } else if b == 91 {
        4
    } else if is_ident_byte(b) {
        5
    } else {
        0
    }
}

/// The operator after an attribute name in a selector: 1 `]`, 2 `=`, 3 `~`, 4 `^`, 5 `$`,
/// 6 `*`, 0 none.
pub open spec fn selector_attr_op_kind_spec(b: u8) -> u32 {
    if b == 93u8 {
        1
    } else if b == 61u8 {
        2
    } else if b == 126u8 {
        3
    } else if b == 94u8 {
        4
    } else if b == 36u8 {
        5
    } else if b == 42u8 {
        6
    } else {
        0
    }
}

/// See [`selector_attr_op_kind_spec`].
pub fn selector_attr_op_kind(b: u8) -> (res: u32)
    ensures
        res == selector_attr_op_kind_spec(b),
{
    if b == 93 {
        1
    } else if b == 61 {
        2
    } else if b == 126 {
        3
    } else if b == 94 {
        4
    } else if b == 36 {
        5
    } else if b == 42 {
        6
    } else {
        0
    }
}

/// The combinator that follows a selector: 1 `,` (or), 2 `>` (parent), 3 whitespace
/// (descendant), 4 anything else (and).
pub open spec fn selector_combinator_kind_spec(b: u8, has_whitespace: bool) -> u32 {
    if b == 44u8 {
        1
    } else if b == 62u8 {
        2
    } else if has_whitespace {
        3
    } else {
        4
    }
}

/// See [`selector_combinator_kind_spec`].
pub fn selector_combinator_kind(b: u8, has_whitespace: bool) -> (res: u32)
    ensures
        res == selector_combinator_kind_spec(b, has_whitespace),
{
    if b == 44 {
        1
    } else if b == GT {
        2
    } else if has_whitespace {
        3
    } else {
        4
    }
}

/// The next event of an HTML scan from `idx`: `(0, 0, 0)` at the end of input, `(2, idx, 0)`
/// at a `<`, and `(1, idx, n)` for the `n` bytes of text up to the next `<`.
pub open spec fn html_event(s: Seq<u8>, idx: int) -> (u32, int, int) {
    if idx >= s.len() {
        (0, 0, 0)
    } else if s[idx] == LT {
        (2, idx, 0)
    } else {
        (1, idx, run_end(s, idx, Run::Until(LT)) - idx)
    }
}

/// See [`html_event`].
pub fn scan_html_event(haystack: &[u8], idx: usize) -> (res: (u32, usize, usize))
    ensures
        (res.0, res.1 as int, res.2 as int) == html_event(haystack@, idx as int),
{
    if idx >= haystack.len() {
        (0, 0, 0)
    } else if haystack[idx] == LT {
        (2, idx, 0)
    } else {
        let e = scan_run(haystack, idx, Run::Until(LT));
        (1, idx, e - idx)
    }
}

/// The next ASCII-whitespace separated word of `s` at or after `idx`:
/// its start, its length and the position just past it.
pub open spec fn next_token(s: Seq<u8>, idx: int) -> Option<(int, int, int)> {
    let start = run_end(s, idx, Run::AsciiWhitespace);
    if start >= s.len() {
        None
    } else {
        let end = run_end(s, start, Run::NotAsciiWhitespace);
        Some((start, end - start, end))
    }
}

/// See [`next_token`].
pub fn next_ascii_token(haystack: &[u8], idx: usize) -> (res: Option<(usize, usize, usize)>)
    requires
        idx <= haystack@.len(),
    ensures
        match res {
            Some(t) => next_token(haystack@, idx as int) == Some(
                (t.0 as int, t.1 as int, t.2 as int),
            ),
            None => next_token(haystack@, idx as int) is None,
        },
{
    let start = scan_run(haystack, idx, Run::AsciiWhitespace);
    if start >= haystack.len() {
        return None;
    }
    let end = scan_run(haystack, start, Run::NotAsciiWhitespace);
    Some((start, end - start, end))
}

/// The kind of a selector that needs no general parsing: 1 `*`, 2 `tag`, 3 `#id`,
/// 4 `.class`, 5 `tag#id`, 6 `tag.class`, each name made of identifier bytes, with the
/// length of the tag for 5 and 6; `(0, 0)` for any other input.
pub open spec fn simple_selector_kind_spec(s: Seq<u8>) -> (u32, int) {
    let t = run_end(s, 0, Run::Ident);
    if s.len() == 1 && s[0] == 42u8 {
        (1, 0)
    } else if s.len() > 0 && t == s.len() {
        (2, 0)
    } else if s.len() > 0 && s[0] == 35u8 && run_end(s, 1, Run::Ident) == s.len() {
        (3, 0)
    } else if s.len() > 0 && s[0] == 46u8 && run_end(s, 1, Run::Ident) == s.len() {
        (4, 0)
    } else if 0 < t < s.len() && s[t] == 35u8 && run_end(s, t + 1, Run::Ident) == s.len() {
        (5, t)
    } else if 0 < t < s.len() && s[t] == 46u8 && run_end(s, t + 1, Run::Ident) == s.len() {
        (6, t)
    } else {
        (0, 0)
    }
}

/// See [`simple_selector_kind_spec`].
pub fn simple_selector_kind(input: &[u8]) -> (res: (u32, usize))
    ensures
        (res.0, res.1 as int) == simple_selector_kind_spec(input@),
{
    let n = input.len();
    let t = scan_run(input, 0, Run::Ident);
    if n == 1 && input[0] == 42 {
        (1, 0)
    } else if n > 0 && t == n {
        (2, 0)
    } else if n > 0 && input[0] == 35 && scan_run(input, 1, Run::Ident) == n {
        (3, 0)
    } else if n > 0 && input[0] == 46 && scan_run(input, 1, Run::Ident) == n {
        (4, 0)
    } else if 0 < t && t < n && input[t] == 35 && scan_run(input, t + 1, Run::Ident) == n {
        (5, t)
    } else if 0 < t && t < n && input[t] == 46 && scan_run(input, t + 1, Run::Ident) == n {
        (6, t)
    } else {
        (0, 0)
    }
}

/// The token kind of the first non-space byte of a selector, 0 where there is none.
pub open spec fn selector_kind_spec(s: Seq<u8>) -> u32 {
    let i = run_end(s, 0, Run::Space);
    if i < s.len() {
        selector_token_kind_spec(s[i])
    } else {
        0
    }
}

/// See [`selector_kind_spec`]; 0 means that the input cannot start a selector.
pub fn selector_kind(input: &[u8]) -> (res: u32)
    ensures
        res == selector_kind_spec(input@),
{
    let i = scan_run(input, 0, Run::Space);
    if i < input.len() {
        selector_token_kind(input[i])
    } else {
        0
    }
}

} // verus!

verus! {

/// A run measured in a suffix of `s` ends where it ends in `s`, shifted.
pub proof fn lemma_run_end_shift(s: Seq<u8>, i: int, r: Run)
    requires
        0 <= i <= s.len(),
    ensures
        run_end(s.subrange(i, s.len() as int), 0, r) + i == run_end(s, i, r),
{
    lemma_run_end_shift_from(s, i, 0, r);
}

proof fn lemma_run_end_shift_from(s: Seq<u8>, i: int, j: int, r: Run)
    requires
        0 <= i <= s.len(),
        0 <= j <= s.len() - i,
    ensures
        run_end(s.subrange(i, s.len() as int), j, r) + i == run_end(s, i + j, r),
    decreases s.len() - i - j,
{
    let t = s.subrange(i, s.len() as int);
    if j < t.len() {
        assert(t[j] == s[i + j]);
        if in_run(r, t[j]) {
            lemma_run_end_shift_from(s, i, j + 1, r);
        }
    }
}

/// A word found by [`next_token`] starts at or after `idx`, is not empty, and ends
/// within `s`.
pub proof fn lemma_next_token(s: Seq<u8>, idx: int)
    requires
        0 <= idx <= s.len(),
    ensures
        next_token(s, idx) matches Some(t) ==> idx <= t.0 && 0 < t.1 && t.2 == t.0 + t.1 && t.2
            <= s.len(),
{
    lemma_run_end(s, idx, Run::AsciiWhitespace);
    let start = run_end(s, idx, Run::AsciiWhitespace);
    if start < s.len() {
        lemma_run_end(s, start, Run::NotAsciiWhitespace);
    }
}

/// The position just past the first `-->` at or after `j`.
pub open spec fn close_search(s: Seq<u8>, j: int) -> Option<int>
    decreases s.len() - j,
{
    if j < 0 || j + 3 > s.len() {
        None
    } else if occurs_at(s, comment_close(), j) {
        Some(j + 3)
    } else {
        close_search(s, j + 1)
    }
}

/// An occurrence in a suffix of `s` is an occurrence in `s`, shifted.
pub proof fn lemma_occurs_shift(s: Seq<u8>, i: int, needle: Seq<u8>, m: int)
    requires
        0 <= i <= s.len(),
        0 <= m,
    ensures
        occurs_at(s.subrange(i, s.len() as int), needle, m) == occurs_at(s, needle, i + m),
{
    let t = s.subrange(i, s.len() as int);
    if m + needle.len() <= t.len() {
        assert(t.subrange(m, m + needle.len()) =~= s.subrange(i + m, i + m + needle.len()));
    }
}

/// What [`find_comment_end`] finds in the suffix of `s` from `i` is [`close_search`]`(s, i)`.
pub proof fn lemma_close_search(s: Seq<u8>, i: int, j: int)
    requires
        0 <= i <= j <= s.len(),
        forall|m: int| i <= m < j ==> !occurs_at(s, comment_close(), m),
    ensures
        close_search(s, i) == close_search(s, j),
    decreases j - i,
{
    if i < j {
        lemma_close_search(s, i + 1, j);
    }
}

/// With no occurrence from `j` on, nothing is found.
pub proof fn lemma_close_search_none(s: Seq<u8>, j: int)
    requires
        0 <= j,
        forall|m: int| j <= m ==> !occurs_at(s, comment_close(), m),
    ensures
        close_search(s, j) is None,
    decreases s.len() - j,
{
    if j + 3 <= s.len() {
        lemma_close_search_none(s, j + 1);
    }
}

} // verus!

verus! {

/// A position before which every byte is in the class, and at which the input ends or
/// the class does, is where the run ends.
pub proof fn lemma_run_end_unique(s: Seq<u8>, i: int, r: Run, e: int)
    requires
        0 <= i <= e <= s.len(),
        forall|k: int| i <= k < e ==> in_run(r, #[trigger] s[k]),
        e == s.len() || !in_run(r, s[e]),
    ensures
        run_end(s, i, r) == e,
    decreases e - i,
{
    if i < e {
        lemma_run_end_unique(s, i + 1, r, e);
    }
}

} // verus!
