//! The regular-expression engine behind compiled character runs.
//!
//! The engine is the `regex` crate. What this file says of it is believed, not
//! proved: the contracts below restate the crate's documentation, and the names
//! without a body stand for what the engine computes.

use regex::bytes::Regex;
use vstd::prelude::*;

verus! {

/// `regex::bytes::Regex`: a compiled regular expression of the engine. Nothing inside
/// it is visible here.
#[verifier::external_type_specification]
#[verifier::external_body]
pub struct ExRegex(regex::bytes::Regex);

/// `regex::Error`: the reason for which the engine refused an expression. Nothing
/// inside it is visible here.
#[verifier::external_type_specification]
#[verifier::external_body]
pub struct ExRegexError(regex::Error);

/// What `Regex::new` makes of the expression written as `source`, where it accepts
/// it: the byte strings in which that expression finds a match. This depends on the
/// text of the expression alone.
pub uninterp spec fn source_language(source: Seq<char>) -> Set<Seq<u8>>;

/// Whether `Regex::new` accepts the expression written as `source`, in a build of
/// the engine for a target whose words have `word_bits` bits. The engine refuses an
/// expression that it cannot read or that is nested too deeply, and one whose
/// compiled states take more bytes than its limit. It counts each state by its size
/// in memory, which the size of a word fixes. It asks no clock, no environment and
/// no chance, so the text and the size of a word decide.
pub uninterp spec fn source_accepted(source: Seq<char>, word_bits: nat) -> bool;

/// Whether the engine accepts the expression written as `source` in this build.
pub open spec fn engine_accepts(source: Seq<char>) -> bool {
    source_accepted(source, usize::BITS as nat)
}

/// What a compiled expression holds: the byte strings in which `re` finds a match,
/// which are those on which `Regex::is_match` returns `true`.
pub uninterp spec fn regex_language(re: Regex) -> Set<Seq<u8>>;

/// Whether the engine gives `c` a meaning of its own inside an expression: the
/// characters that `regex::escape` puts a backslash before.
pub open spec fn is_meta_character(c: char) -> bool {
    c == '\\' || c == '.' || c == '+' || c == '*' || c == '?' || c == '(' || c == ')' || c == '|'
        || c == '[' || c == ']' || c == '{' || c == '}' || c == '^' || c == '$' || c == '#'
        || c == '&' || c == '-' || c == '~'
}

/// `text` with a backslash put before each meta character.
pub open spec fn escaped(text: Seq<char>) -> Seq<char>
    decreases text.len(),
{
    if text.len() == 0 {
        Seq::empty()
    } else if is_meta_character(text.last()) {
        escaped(text.drop_last()).push('\\').push(text.last())
    } else {
        escaped(text.drop_last()).push(text.last())
    }
}

/// `Regex::new`: compiles `source` with the engine's default options. It succeeds
/// exactly on the expressions that the engine accepts, and an expression that it
/// accepts finds a match in exactly the byte strings of `source_language(source)`.
#[verifier::external_body]
pub(crate) fn regex_new(source: &str) -> (r: Result<Regex, regex::Error>)
    ensures
        r is Ok <==> source_accepted(source@, usize::BITS as nat),
        r matches Ok(re) ==> regex_language(re) == source_language(source@),
{
    Regex::new(source)
}

/// `Regex::is_match`: whether `re` finds a match anywhere in `haystack`.
#[verifier::external_body]
pub(crate) fn regex_is_match(re: &Regex, haystack: &[u8]) -> (b: bool)
    ensures
        b == regex_language(*re).contains(haystack@),
{
    re.is_match(haystack)
}

/// `Regex::clone`: the clone finds a match in the same byte strings as `re`.
pub assume_specification[ <regex::bytes::Regex as Clone>::clone ](re: &regex::bytes::Regex) -> (r:
    regex::bytes::Regex)
    ensures
        regex_language(r) == regex_language(*re),
;

/// `regex::escape`: `text` with a backslash before each of its meta characters.
#[verifier::external_body]
pub(crate) fn regex_escape(text: &str) -> (r: String)
    ensures
        r@ == escaped(text@),
{
    regex::escape(text)
}

} // verus!
