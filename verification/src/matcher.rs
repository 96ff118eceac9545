//! Regular-expression matching through the `regex` crate.
use vstd::prelude::*;
use crate::expand::Environment;

verus! {

#[verifier::external_type_specification]
#[verifier::external_body]
pub struct ExRegex(regex::Regex);

/// Whether `regex::Regex::new` accepts `pattern`.
pub uninterp spec fn regex_compiles(pattern: Seq<char>) -> bool;

/// Whether the regex compiled from `pattern` matches somewhere in `text` (`Regex::is_match`).
pub uninterp spec fn regex_finds(pattern: Seq<char>, text: Seq<char>) -> bool;

/// `Regex::replace`: the first match of `pattern` in `text` replaced by `rep`
/// (with `$name` / `$n` capture references expanded).
pub uninterp spec fn regex_replace_first(pattern: Seq<char>, text: Seq<char>, rep: Seq<char>) -> Seq<char>;

/// `Regex::replace_all`: every non-overlapping match replaced by `rep`.
pub uninterp spec fn regex_replace_every(pattern: Seq<char>, text: Seq<char>, rep: Seq<char>) -> Seq<char>;

/// A regex together with the pattern text it was compiled from.
pub struct CompiledRegex {
    source: String,
    re: regex::Regex,
}

impl View for CompiledRegex {
    type V = Seq<char>;

    closed spec fn view(&self) -> Seq<char> {
        self.source@
    }
}

/// Compiles `pattern` with `regex::Regex::new`; `None` when the crate rejects it.
/// Claims only that success is exactly `regex_compiles(pattern)`; what the
/// compiled regex does is left to `regex_finds` and the replace names.
#[verifier::external_body]
pub fn compile(pattern: &str) -> (r: Option<CompiledRegex>)
    ensures
        r is Some <==> regex_compiles(pattern@),
        r matches Some(c) ==> c@ == pattern@,
{
    match regex::Regex::new(pattern) {
        Ok(re) => Some(CompiledRegex { source: pattern.to_string(), re }),
        Err(_) => None,
    }
}

/// `Regex::is_match` on `text`; the result is named by `regex_finds`.
#[verifier::external_body]
pub fn is_match(re: &CompiledRegex, text: &str) -> (b: bool)
    ensures
        b == regex_finds(re@, text@),
{
    re.re.is_match(text)
}

/// `Regex::replace` (first match) with a replacement string; the result is
/// named by `regex_replace_first`.
#[verifier::external_body]
pub fn replace_first(re: &CompiledRegex, text: &str, rep: &str) -> (r: String)
    ensures
        r@ == regex_replace_first(re@, text@, rep@),
{
    re.re.replace(text, rep).into_owned()
}

/// `Regex::replace_all` with a replacement string; the result is named by
/// `regex_replace_every`.
#[verifier::external_body]
pub fn replace_all(re: &CompiledRegex, text: &str, rep: &str) -> (r: String)
    ensures
        r@ == regex_replace_every(re@, text@, rep@),
{
    re.re.replace_all(text, rep).into_owned()
}

/// `Regex::replace_all` where each match is replaced by the value, in `env`, of
/// the variable named by capture group 1 (nothing when it is unset).
pub uninterp spec fn regex_replace_by_env(pattern: Seq<char>, text: Seq<char>, env: Seq<(Seq<char>, Seq<char>)>) -> Seq<char>;

/// The pattern of a `${NAME}` reference with a word-character name.
pub open spec fn braced_reference_pattern() -> Seq<char> {
    "\\$\\{(\\w+)\\}"@
}

/// `Regex::replace_all` with a replacer that looks capture group 1 up in `env`;
/// only for the `${NAME}` pattern, whose group 1 always takes part in a match.
/// The result is named by `regex_replace_by_env`.
#[verifier::external_body]
pub fn replace_all_from_env(re: &CompiledRegex, text: &str, env: &Environment) -> (r: String)
    requires
        re@ == braced_reference_pattern(),
    ensures
        r@ == regex_replace_by_env(re@, text@, env@),
{
    re.re.replace_all(text, |caps: &regex::Captures| env.value_or_empty(&caps[1])).into_owned()
}

/// Whether `pattern` compiles and matches `text`.
pub open spec fn pattern_finds(pattern: Seq<char>, text: Seq<char>) -> bool {
    regex_compiles(pattern) && regex_finds(pattern, text)
}

/// Compiles `pattern` and tests it against `text`; an invalid pattern never matches.
pub fn find(pattern: &str, text: &str) -> (b: bool)
    ensures
        b == pattern_finds(pattern@, text@),
{
    match compile(pattern) {
        Some(re) => is_match(&re, text),
        None => false,
    }
}

} // verus!
