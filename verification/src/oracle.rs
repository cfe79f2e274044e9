use vstd::prelude::*;

verus! {

/// Declares `regex::Regex`, a compiled pattern. Nothing inside it is
/// seen: a value is kept and handed back to the calls.
#[verifier::external_type_specification]
#[verifier::external_body]
pub struct ExRegex(regex::Regex);

/// Declares `regex::Error`, the reason why a pattern did not compile.
/// Nothing inside it is seen.
#[verifier::external_type_specification]
#[verifier::external_body]
pub struct ExRegexError(regex::Error);

/// Whether `regex::Regex::new` accepts the pattern: it is well formed and
/// its program stays under the size limit. Within one build of the crate
/// this depends on the pattern alone. The limit counts bytes, and a state
/// of the program takes more of them on a 64-bit target than on a 32-bit
/// one, so that a pattern close to the limit may compile in one build and
/// not in another.
pub uninterp spec fn pattern_compiles(pattern: Seq<char>) -> bool;

/// What `regex::Regex::is_match` answers for a compiled pattern and a word:
/// whether the pattern matches somewhere in the word. This depends on the
/// compiled pattern and the word alone.
pub uninterp spec fn regex_matches(re: regex::Regex, word: Seq<char>) -> bool;

/// Why a pattern gave no oracle.
#[derive(Debug)]
pub enum OracleError {
    /// The pattern is malformed; the text says where.
    Syntax(String),
    /// The compiled pattern would exceed the size limit, which is given.
    TooBig(usize),
    /// Any other failure to compile.
    Other,
}

/// Calls `regex::Regex::new`. Whether a pattern compiles depends on the
/// pattern alone; nothing is claimed of the compiled value.
#[verifier::external_body]
fn compile(pattern: &str) -> (r: Result<regex::Regex, regex::Error>)
    ensures
        r is Ok <==> pattern_compiles(pattern@),
{
    regex::Regex::new(pattern)
}

/// Calls `regex::Regex::is_match`, which tells whether the pattern matches
/// somewhere in the word. The answer is the one that the compiled pattern
/// gives for this word, whenever it is asked; what the answer is, is not
/// claimed.
#[verifier::external_body]
fn is_match(re: &regex::Regex, word: &str) -> (r: bool)
    ensures
        r == regex_matches(*re, word@),
{
    re.is_match(word)
}

/// Tells the variants of `regex::Error` apart. Nothing is claimed of the
/// result.
#[verifier::external_body]
fn describe(error: regex::Error) -> OracleError {
    match error {
        regex::Error::Syntax(text) => OracleError::Syntax(text),
        regex::Error::CompiledTooBig(limit) => OracleError::TooBig(limit),
        _ => OracleError::Other,
    }
}

/// The text of the pattern of the reference language.
pub open spec fn reference_pattern_text() -> Seq<char> {
    "^(aba|bab|aabb)*(a|b)(a|b)bba(aba|bab|aabb)*$"@
}

/// The pattern of the reference language, anchored at both ends so that it
/// must match the whole word.
pub fn reference_pattern() -> (pattern: &'static str)
    ensures
        pattern@ == reference_pattern_text(),
{
    "^(aba|bab|aabb)*(a|b)(a|b)bba(aba|bab|aabb)*$"
}

/// The ground truth of a differential test: a compiled pattern that is
/// asked, word by word, for its verdict.
pub struct Oracle {
    re: regex::Regex,
}

impl Oracle {
    /// Compiles `pattern`. Fails exactly when the pattern does not
    /// compile.
    pub fn new(pattern: &str) -> (r: Result<Oracle, OracleError>)
        ensures
            r is Ok <==> pattern_compiles(pattern@),
    {
        match compile(pattern) {
            Ok(re) => Ok(Oracle { re }),
            Err(error) => Err(describe(error)),
        }
    }

    /// The oracle of the reference language.
    pub fn reference() -> (r: Result<Oracle, OracleError>)
        ensures
            r is Ok <==> pattern_compiles(reference_pattern_text()),
    {
        Oracle::new(reference_pattern())
    }

    /// What the oracle says of `word`: the answer of its compiled pattern.
    pub closed spec fn says(&self, word: Seq<char>) -> bool {
        regex_matches(self.re, word)
    }

    /// The oracle's verdict on `word`.
    pub fn matches(&self, word: &str) -> (r: bool)
        ensures
            r == self.says(word@),
    {
        is_match(&self.re, word)
    }
}

} // verus!
