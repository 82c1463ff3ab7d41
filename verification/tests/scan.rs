use asm_tl::simd::{find, find3, is_closing, matches_case_insensitive, search_non_ident};
use asm_tl::util::is_ident;

#[test]
fn find_first_byte() {
    assert_eq!(find(b"hello", b'l'), Some(2));
    assert_eq!(find(b"hello", b'z'), None);
    assert_eq!(find(b"", b'a'), None);
}

#[test]
fn find_any_of_three() {
    assert_eq!(find3(b"abc<d>", [b'<', b'>', b'/']), Some(3));
    assert_eq!(find3(b"ab/c<", [b'<', b'>', b'/']), Some(2));
    assert_eq!(find3(b"abc", [b'<', b'>', b'/']), None);
}

#[test]
fn non_ident_search() {
    assert_eq!(search_non_ident(b"abc def"), Some(3));
    assert_eq!(search_non_ident(b"a-b_c:d+e/f9"), None);
    assert_eq!(search_non_ident(b">"), Some(0));
}

#[test]
fn case_insensitive() {
    assert!(matches_case_insensitive(b"DocType", *b"doctype"));
    assert!(matches_case_insensitive(b"html", *b"html"));
    assert!(!matches_case_insensitive(b"doc", *b"doctype"));
    assert!(!matches_case_insensitive(b"htm1", *b"html"));
}

#[test]
fn byte_classes() {
    assert!(is_closing(b'/'));
    assert!(is_closing(b'>'));
    assert!(!is_closing(b'a'));
    assert!(is_ident(b'a'));
    assert!(is_ident(b'Z'));
    assert!(is_ident(b'7'));
    assert!(is_ident(b'/'));
    assert!(!is_ident(b' '));
    assert!(!is_ident(b'#'));
}

use asm_tl::scan::{
    attr_key_kind, bytes_eq, contains_ascii_whitespace_token, contains_bytes, count_ident,
    count_spaces, count_while2, ends_with, find_comment_end, is_void_tag, matches_at,
    next_ascii_token, scan_html_event, selector_kind, simple_selector_kind, starts_with,
};

#[test]
fn byte_string_comparisons() {
    assert!(bytes_eq(b"abc", b"abc"));
    assert!(!bytes_eq(b"abc", b"abd"));
    assert!(!bytes_eq(b"ab", b"abc"));
    assert!(starts_with(b"http://x", b"http"));
    assert!(!starts_with(b"ht", b"http"));
    assert!(ends_with(b"file.txt", b".txt"));
    assert!(!ends_with(b"txt", b".txt"));
    assert!(contains_bytes(b"hello world", b"o w"));
    assert!(contains_bytes(b"abc", b""));
    assert!(!contains_bytes(b"abc", b"cd"));
    assert!(matches_at(b"abcd", b"cd", 2));
    assert!(!matches_at(b"abcd", b"cd", 3));
}

#[test]
fn whitespace_words() {
    assert!(contains_ascii_whitespace_token(b"a  b\tc", b"b"));
    assert!(contains_ascii_whitespace_token(b"a b c", b"c"));
    assert!(!contains_ascii_whitespace_token(b"ab c", b"a"));
    assert!(!contains_ascii_whitespace_token(b"a b", b""));
    assert!(!contains_ascii_whitespace_token(b"a b", b"a b"));
    assert_eq!(next_ascii_token(b"  ab c", 0), Some((2, 2, 4)));
    assert_eq!(next_ascii_token(b"  ab c", 4), Some((5, 1, 6)));
    assert_eq!(next_ascii_token(b"ab  ", 2), None);
}

#[test]
fn counting_runs() {
    assert_eq!(count_while2(b" \n \nx", [b' ', b'\n']), 4);
    assert_eq!(count_spaces(b"  \nx"), 2);
    assert_eq!(count_ident(b"ab-c d"), 4);
}

#[test]
fn comment_ends() {
    assert_eq!(find_comment_end(b" x -->y"), Some(6));
    assert_eq!(find_comment_end(b"-->"), Some(3));
    assert_eq!(find_comment_end(b"--"), None);
    assert_eq!(find_comment_end(b"- ->"), None);
}

#[test]
fn tag_names_and_keys() {
    assert!(is_void_tag(b"br"));
    assert!(is_void_tag(b"input"));
    assert!(!is_void_tag(b"BR"));
    assert!(!is_void_tag(b"div"));
    assert_eq!(attr_key_kind(b"id"), 1);
    assert_eq!(attr_key_kind(b"class"), 2);
    assert_eq!(attr_key_kind(b"href"), 0);
}

#[test]
fn html_events() {
    assert_eq!(scan_html_event(b"ab<c", 0), (1, 0, 2));
    assert_eq!(scan_html_event(b"ab<c", 2), (2, 2, 0));
    assert_eq!(scan_html_event(b"ab<c", 4), (0, 0, 0));
}

#[test]
fn selector_kinds() {
    assert_eq!(simple_selector_kind(b"*"), (1, 0));
    assert_eq!(simple_selector_kind(b"div"), (2, 0));
    assert_eq!(simple_selector_kind(b"#a"), (3, 0));
    assert_eq!(simple_selector_kind(b".a"), (4, 0));
    assert_eq!(simple_selector_kind(b"div#a"), (5, 3));
    assert_eq!(simple_selector_kind(b"p.a"), (6, 1));
    assert_eq!(simple_selector_kind(b"a b"), (0, 0));
    assert_eq!(selector_kind(b"  #a"), 1);
    assert_eq!(selector_kind(b"   "), 0);
    assert_eq!(selector_kind(b"!"), 0);
}
