//! A compiled regular expression over bytes, kept together with its source.

use vstd::prelude::*;

verus! {

/// `regex::bytes::Regex`, a compiled regular expression. It is carried
/// around and handed back to the `regex` crate; nothing inside it is read.
#[verifier::external_type_specification]
#[verifier::external_body]
pub struct ExRegex(regex::bytes::Regex);

/// `regex::Error`, the reason why a pattern did not compile. It is carried to
/// the caller as it came.
#[verifier::external_type_specification]
#[verifier::external_body]
pub struct ExRegexError(regex::Error);

/// `Clone` of `regex::bytes::Regex`, so that a `LineRegex` can be cloned.
/// Nothing is claimed about the copy.
pub assume_specification[ <regex::bytes::Regex as Clone>::clone ](
    re: &regex::bytes::Regex,
) -> regex::bytes::Regex;

/// Whether the regular expression written as `pattern` has a match anywhere in
/// `haystack`, in the byte-oriented dialect of the `regex` crate.
pub uninterp spec fn regex_is_match(pattern: Seq<char>, haystack: Seq<u8>) -> bool;

/// A regular expression ready to be applied to lines.
///
/// A value is only ever made by compiling `source`, or by cloning such a
/// value, so the two fields always belong together; the view of the value is
/// its source text.
#[derive(Clone, Debug)]
pub struct LineRegex {
    source: String,
    compiled: regex::bytes::Regex,
}

impl View for LineRegex {
    type V = Seq<char>;

    closed spec fn view(&self) -> Seq<char> {
        self.source@
    }
}

impl LineRegex {
    /// Calls `regex::bytes::Regex::new` on `pattern`.
    ///
    /// Nothing is claimed about which patterns compile. When one does, the
    /// value returned remembers the text it was compiled from.
    #[verifier::external_body]
    pub(crate) fn compile(pattern: &str) -> (r: Result<LineRegex, regex::Error>)
        ensures
            r matches Ok(re) ==> re@ == pattern@,
    {
        match regex::bytes::Regex::new(pattern) {
            Ok(compiled) => Ok(LineRegex { source: pattern.to_owned(), compiled }),
            Err(e) => Err(e),
        }
    }

    /// Calls `regex::bytes::Regex::is_match` on `line`.
    ///
    /// The expression applied is the one that `compile` made from the source
    /// text, so the answer is the one that the crate's matching semantics give
    /// for that text and the line; it depends on nothing else.
    #[verifier::external_body]
    pub(crate) fn is_match(&self, line: &[u8]) -> (b: bool)
        ensures
            b == regex_is_match(self@, line@),
    {
        self.compiled.is_match(line)
    }

    /// The text this expression was compiled from.
    pub fn as_str(&self) -> (s: &str)
        ensures
            s@ == self@,
    {
        self.source.as_str()
    }
}

} // verus!
