//! The static check on source text: does a program use a loop keyword
//! outside string literals and comments?

use vstd::prelude::*;

verus! {

/// String literals, escapes included.
pub const STRING_LITERALS: &'static str = r#""(\\.|[^"])*""#;

/// Block comments, from `/*` to the first `*/`, across lines.
pub const BLOCK_COMMENTS: &'static str = r#"(?s)/\*.*?\*/"#;

/// Line comments, up to and with the end of the line.
pub const LINE_COMMENTS: &'static str = r#"//[^\n]*(\n|$)"#;

/// A loop keyword as a whole word.
pub const LOOP_KEYWORD: &'static str = r#"\b(for|while)\b"#;

/// The patterns that this module hands to the regex engine.
pub open spec fn known_pattern(p: Seq<char>) -> bool {
    p == STRING_LITERALS@ || p == BLOCK_COMMENTS@ || p == LINE_COMMENTS@ || p == LOOP_KEYWORD@
}

/// `text` with every match of `pattern` removed.
pub uninterp spec fn regex_erased(pattern: Seq<char>, text: Seq<char>) -> Seq<char>;

/// Whether `pattern` matches somewhere in `text`.
pub uninterp spec fn regex_found(pattern: Seq<char>, text: Seq<char>) -> bool;

/// Relies on `regex::Regex::new`, which accepts each pattern of this module,
/// and on `regex::Regex::replace_all` with an empty replacement, which
/// removes every match; the result depends on the pattern and text alone.
#[verifier::external_body]
fn erase_matches(pattern: &str, text: &str) -> (r: String)
    requires
        known_pattern(pattern@),
    ensures
        r@ == regex_erased(pattern@, text@),
{
    regex::Regex::new(pattern).unwrap().replace_all(text, "").into_owned()
}

/// Relies on `regex::Regex::new`, which accepts each pattern of this module,
/// and on `regex::Regex::is_match`, whose answer depends on the pattern and
/// text alone.
#[verifier::external_body]
fn matches_somewhere(pattern: &str, text: &str) -> (r: bool)
    requires
        known_pattern(pattern@),
    ensures
        r == regex_found(pattern@, text@),
{
    regex::Regex::new(pattern).unwrap().is_match(text)
}

/// The code with string literals, then block comments, then line comments
/// removed, in that order.
pub open spec fn code_only(code: Seq<char>) -> Seq<char> {
    regex_erased(
        LINE_COMMENTS@,
        regex_erased(BLOCK_COMMENTS@, regex_erased(STRING_LITERALS@, code)),
    )
}

/// Whether the code uses a loop keyword outside literals and comments.
pub open spec fn has_loop(code: Seq<char>) -> bool {
    regex_found(LOOP_KEYWORD@, code_only(code))
}

/// Removes string literals, block comments and line comments from `code`, in
/// that order.
pub fn strip_literals_and_comments(code: &str) -> (r: String)
    ensures
        r@ == code_only(code@),
{
    let a = erase_matches(STRING_LITERALS, code);
    let b = erase_matches(BLOCK_COMMENTS, a.as_str());
    erase_matches(LINE_COMMENTS, b.as_str())
}

/// Whether what is left of `stripped` (code with literals and comments
/// removed) holds a loop keyword as a whole word.
pub fn mentions_loop(stripped: &str) -> (r: bool)
    ensures
        r == regex_found(LOOP_KEYWORD@, stripped@),
{
    matches_somewhere(LOOP_KEYWORD, stripped)
}

/// Whether `code` contains a loop: a `for` or `while` keyword outside string
/// literals and comments.
pub fn check_for_loops(code: &str) -> (r: bool)
    ensures
        r == has_loop(code@),
{
    let stripped = strip_literals_and_comments(code);
    mentions_loop(stripped.as_str())
}

} // verus!
