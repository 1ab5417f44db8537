//! The extractor: the import statements that a file holds.
//!
//! Three patterns are run over the whole text of a file, one after the
//! other, by the `regex` crate. Each match becomes one statement: its runs of
//! whitespace are replaced by single spaces, again by `regex`, and the
//! result is trimmed.

use vstd::prelude::*;
use crate::text::{trim, trimmed};

verus! {

/// `import a.b.c`, with or without `as x`.
pub const PLAIN_IMPORT_PATTERN: &'static str = r"import\s[a-z]+(\.[a-z]+)*(?:\sas\s[a-z]+)?";

/// `from a.b import c`, with or without `as x`.
pub const FROM_IMPORT_PATTERN: &'static str =
    r"from\s[a-z]+(\.[a-z]+)*\simport\s[a-z]+(?:\sas\s[a-z]+)?";

/// `from a.b import { .. }`, over any number of lines, up to the first
/// closing brace.
pub const LISTED_IMPORT_PATTERN: &'static str = r"from\s+[a-z]+(?:\.[a-z]+)*\s+import\s+\{[^}]*\}";

/// A run of whitespace.
pub const WHITESPACE_PATTERN: &'static str = r"\s+";

/// What a run of whitespace is replaced by.
pub const SINGLE_SPACE: &'static str = " ";

/// The regex engine did not accept one of the library's patterns.
#[derive(Clone, Copy, Debug, PartialEq, Eq, Structural)]
pub struct PatternRefused;

/// The error of the `regex` crate, which says why a pattern was refused. It
/// is carried as it is and not looked into.
#[verifier::external_type_specification]
#[verifier::external_body]
pub struct ExRegexError(regex::Error);

/// The successive non-overlapping matches of `pattern` in `text`, as the
/// `regex` crate finds them: what `Regex::captures_iter` yields, each match
/// by the text of its group 0.
pub uninterp spec fn regex_matches(pattern: Seq<char>, text: Seq<char>) -> Seq<Seq<char>>;

/// `text` with every match of `pattern` replaced by `replacement`, as the
/// `regex` crate does it: what `Regex::replace_all` returns.
pub uninterp spec fn regex_replaced(
    pattern: Seq<char>,
    text: Seq<char>,
    replacement: Seq<char>,
) -> Seq<char>;

/// The patterns of the three kinds of import statement, in the order in
/// which they are run.
pub open spec fn import_patterns() -> Seq<Seq<char>> {
    seq![PLAIN_IMPORT_PATTERN@, FROM_IMPORT_PATTERN@, LISTED_IMPORT_PATTERN@]
}

/// The statement that a match stands for: its whitespace collapsed, and
/// trimmed.
pub open spec fn statement_of(found: Seq<char>) -> Seq<char> {
    trim(regex_replaced(WHITESPACE_PATTERN@, found, SINGLE_SPACE@))
}

/// The statements that the matches `found` stand for, in their order.
pub open spec fn statements_of(found: Seq<Seq<char>>) -> Seq<Seq<char>> {
    found.map_values(|m: Seq<char>| statement_of(m))
}

/// The statements that `patterns` find in `text`: all those of the first
/// pattern, then all those of the second, and so on.
pub open spec fn statements_over(patterns: Seq<Seq<char>>, text: Seq<char>) -> Seq<Seq<char>>
    decreases patterns.len(),
{
    if patterns.len() == 0 {
        Seq::empty()
    } else {
        statements_over(patterns.drop_last(), text) + statements_of(
            regex_matches(patterns.last(), text),
        )
    }
}

/// The import statements of a file with the text `text`.
pub open spec fn import_statements(text: Seq<char>) -> Seq<Seq<char>> {
    statements_over(import_patterns(), text)
}

/// Compiles `pattern` with `regex::Regex::new` and collects what
/// `Regex::captures_iter` yields on `text`, each match by the text of its
/// group 0 (`Captures::get_match`, `Match::as_str`).
///
/// Trusted: where the pattern compiles, the result is what the engine finds,
/// which depends on the pattern and the text alone. Nothing is claimed of
/// which patterns compile: the engine also refuses a pattern whose compiled
/// form is too large, and measures that in bytes, which differ between
/// targets.
#[verifier::external_body]
fn find_matches(pattern: &str, text: &str) -> (r: Result<Vec<String>, regex::Error>)
    ensures
        r matches Ok(found) ==> found.deep_view() == regex_matches(pattern@, text@),
{
    match regex::Regex::new(pattern) {
        Ok(re) => {
            let mut found = Vec::new();
            for captures in re.captures_iter(text) {
                found.push(captures.get_match().as_str().to_string());
            }
            Ok(found)
        },
        Err(e) => Err(e),
    }
}

/// Compiles `pattern` with `regex::Regex::new` and calls `Regex::replace_all`
/// on `text` with the replacement `replacement`.
///
/// Trusted: where the pattern compiles, the result is what the engine
/// returns, which depends on the three arguments alone. Nothing is claimed of
/// which patterns compile, as for [`find_matches`].
#[verifier::external_body]
fn replace_matches(pattern: &str, text: &str, replacement: &str) -> (r: Result<
    String,
    regex::Error,
>)
    ensures
        r matches Ok(replaced) ==> replaced@ == regex_replaced(pattern@, text@, replacement@),
{
    match regex::Regex::new(pattern) {
        Ok(re) => Ok(re.replace_all(text, replacement).into_owned()),
        Err(e) => Err(e),
    }
}

/// The patterns of the three kinds of import statement, in the order in
/// which they are run.
pub fn import_pattern_list() -> (patterns: Vec<&'static str>)
    ensures
        patterns.deep_view() == import_patterns(),
{
    let mut patterns: Vec<&'static str> = Vec::new();
    patterns.push(PLAIN_IMPORT_PATTERN);
    patterns.push(FROM_IMPORT_PATTERN);
    patterns.push(LISTED_IMPORT_PATTERN);
    assert(patterns.deep_view() =~= import_patterns());
    patterns
}

/// What the library makes of an answer of the regex engine: a value that the
/// engine returned is handed on as it is, and a refusal of the pattern
/// becomes [`PatternRefused`].
pub fn accepted<T>(answer: Result<T, regex::Error>) -> (r: Result<T, PatternRefused>)
    ensures
        match answer {
            Ok(value) => r == Ok::<T, PatternRefused>(value),
            Err(_) => r is Err,
        },
{
    match answer {
        Ok(value) => Ok(value),
        Err(_) => Err(PatternRefused),
    }
}

/// The statement that a match stands for, given what the engine answered
/// when asked to collapse the whitespace of the match: the collapsed text,
/// trimmed, or [`PatternRefused`] where the engine refused the pattern.
pub fn statement_from(collapsed: Result<String, regex::Error>) -> (r: Result<
    String,
    PatternRefused,
>)
    ensures
        match collapsed {
            Ok(text) => r matches Ok(statement) && statement@ == trim(text@),
            Err(_) => r is Err,
        },
{
    match accepted(collapsed) {
        Ok(text) => Ok(trimmed(text.as_str())),
        Err(e) => Err(e),
    }
}

/// The statement that the match `found` stands for.
///
/// The regex engine is asked to replace every match of
/// [`WHITESPACE_PATTERN`] in `found` by [`SINGLE_SPACE`], and
/// [`statement_from`] makes the result of its answer. Whether the engine
/// accepts the pattern is the engine's to decide, so success is not promised.
pub fn normalize_match(found: &str) -> (r: Result<String, PatternRefused>)
    ensures
        r matches Ok(statement) ==> statement@ == statement_of(found@),
{
    statement_from(replace_matches(WHITESPACE_PATTERN, found, SINGLE_SPACE))
}

/// The import statements of a file with the text `text`: for each of the
/// three patterns in turn, its matches in the order of the text, each as one
/// statement.
///
/// The regex engine is asked for the matches of each pattern of
/// [`import_patterns`] in `text`, and [`normalize_match`] makes a statement of
/// each match. The result is an error only where the engine refuses a
/// pattern, which is the engine's to decide, so success is not promised.
pub fn prepare_import_list(text: &str) -> (r: Result<Vec<String>, PatternRefused>)
    ensures
        r matches Ok(imports) ==> imports.deep_view() == import_statements(text@),
{
    let patterns = import_pattern_list();
    let mut imports: Vec<String> = Vec::new();
    let mut p: usize = 0;
    assert(imports.deep_view() =~= statements_over(import_patterns().take(0), text@));
    while p < patterns.len()
        invariant
            p <= patterns.len(),
            patterns.deep_view() == import_patterns(),
            imports.deep_view() == statements_over(import_patterns().take(p as int), text@),
        decreases patterns.len() - p,
    {
        let ghost earlier = imports.deep_view();
        let found = match accepted(find_matches(patterns[p], text)) {
            Ok(found) => found,
            Err(e) => {
                return Err(e);
            },
        };
        let ghost all = found.deep_view();
        let mut k: usize = 0;
        assert(imports.deep_view() =~= earlier + statements_of(all.take(0)));
        while k < found.len()
            invariant
                k <= found.len(),
                all == found.deep_view(),
                imports.deep_view() == earlier + statements_of(all.take(k as int)),
            decreases found.len() - k,
        {
            let ghost before = imports.deep_view();
            let statement = match normalize_match(found[k].as_str()) {
                Ok(statement) => statement,
                Err(e) => {
                    return Err(e);
                },
            };
            imports.push(statement);
            proof {
                assert(all.take(k + 1) =~= all.take(k as int).push(found[k as int]@));
                assert(statements_of(all.take(k + 1)) =~= statements_of(all.take(k as int)).push(
                    statement_of(found[k as int]@),
                ));
                assert(imports.deep_view() =~= before.push(statement@));
            }
            k += 1;
        }
        proof {
            assert(all.take(found.len() as int) =~= all);
            assert(import_patterns().take(p + 1).drop_last() =~= import_patterns().take(p as int));
            assert(import_patterns().take(p + 1).last() == patterns[p as int]@);
        }
        p += 1;
    }
    assert(import_patterns().take(patterns.len() as int) =~= import_patterns());
    Ok(imports)
}

} // verus!
