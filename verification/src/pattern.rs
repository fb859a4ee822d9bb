//! The matcher: exact, substring and regular-expression tests of one line.

use crate::compiled::regex_is_match;
use crate::compiled::LineRegex;
use vstd::prelude::*;
use vstd::string::StrSliceExecFns;
use vstd::string::StringSliceAdditionalSpecFns;

verus! {

/// A literal pattern with its two prefilter tables.
///
/// `start` marks the first byte of `value`, `second` marks its second byte
/// when there is one. A candidate whose leading bytes are not marked cannot
/// equal `value`, and is rejected without a full comparison.
#[derive(Clone, Debug)]
pub struct ToFind {
    pub value: Vec<u8>,
    pub start: [bool; 256],
    pub second: [bool; 256],
}

/// Why a pattern could not be built.
#[derive(Debug)]
pub enum PatternError {
    /// A literal pattern must hold at least one byte.
    Empty,
    /// The text did not compile as a regular expression.
    Regex(regex::Error),
}

/// How lines are tested: whole-line equality, a literal anywhere in the line,
/// or a regular expression.
#[derive(Clone, Debug)]
pub enum Pattern {
    ExactEqual(ToFind),
    Substring(ToFind),
    Regex(LineRegex),
}

impl ToFind {
    /// The tables say exactly which bytes open `value`.
    pub open spec fn wf(&self) -> bool {
        &&& self.value@.len() > 0
        &&& forall|b: int| 0 <= b < 256 ==> #[trigger] self.start@[b] == (b == self.value@[0])
        &&& forall|b: int|
            0 <= b < 256 ==> #[trigger] self.second@[b] == (self.value@.len() > 1 && b
                == self.value@[1])
    }

    /// The cheap test on the leading bytes of a candidate.
    pub open spec fn prefilter(&self, line: Seq<u8>) -> bool {
        &&& line.len() > 0
        &&& self.start@[line[0] as int]
        &&& (self.value@.len() > 1 && line.len() > 1) ==> self.second@[line[1] as int]
    }

    /// What `find` answers: the prefilter lets the candidate through and the
    /// candidate equals `value` byte for byte.
    pub open spec fn accepts(&self, line: Seq<u8>) -> bool {
        self.prefilter(line) && line == self.value@
    }

    /// Some window of `line`, as long as `value`, is accepted.
    pub open spec fn accepts_within(&self, line: Seq<u8>) -> bool {
        exists|i: int| #[trigger] self.accepts_window(line, i)
    }

    /// The window of `line` that starts at `i` is accepted.
    pub open spec fn accepts_window(&self, line: Seq<u8>, i: int) -> bool {
        &&& 0 <= i
        &&& i + self.value@.len() <= line.len()
        &&& self.accepts(line.subrange(i, i + self.value@.len()))
    }

    /// With well-formed tables the prefilter never rejects the value itself,
    /// so acceptance is plain equality.
    pub proof fn lemma_accepts_is_equality(&self, line: Seq<u8>)
        requires
            self.wf(),
        ensures
            self.accepts(line) == (line == self.value@),
    {
    }

    /// With well-formed tables a window is accepted exactly where the value
    /// occurs.
    pub proof fn lemma_within_is_occurrence(&self, line: Seq<u8>)
        requires
            self.wf(),
        ensures
            self.accepts_within(line) == occurs_in(self.value@, line),
    {
        if self.accepts_within(line) {
            let i = choose|i: int| #[trigger] self.accepts_window(line, i);
            assert(occurs_at(self.value@, line, i));
        }
        if occurs_in(self.value@, line) {
            let i = choose|i: int| occurs_at(self.value@, line, i);
            assert(self.accepts_window(line, i));
        }
    }
}

/// Builds the literal pattern for `tofind`: its bytes and both prefilter tables.
///
/// The empty string is the only input that is refused.
pub fn parse_tofind(tofind: &str) -> (r: Result<ToFind, PatternError>)
    ensures
        tofind.spec_bytes().len() == 0 <==> r is Err,
        r matches Ok(t) ==> t.wf() && t.value@ == tofind.spec_bytes(),
        r matches Err(e) ==> e is Empty,
{
    let value: Vec<u8> = tofind.as_bytes_vec();
    if value.len() == 0 {
        return Err(PatternError::Empty);
    }
    let mut start: [bool; 256] = [false; 256];
    let mut second: [bool; 256] = [false; 256];
    start[value[0] as usize] = true;
    if value.len() > 1 {
        second[value[1] as usize] = true;
    }
    Ok(ToFind { value, start, second })
}

/// Tests whether `clear` is the pattern, looking at the prefilter tables first.
pub fn find(tofind: &ToFind, clear: &[u8]) -> (b: bool)
    ensures
        b == tofind.accepts(clear@),
        tofind.wf() ==> b == (clear@ == tofind.value@),
{
    if clear.len() == 0 {
        return false;
    }
    if !tofind.start[clear[0] as usize] {
        return false;
    }
    if tofind.value.len() > 1 && clear.len() > 1 && !tofind.second[clear[1] as usize] {
        return false;
    }
    bytes_equal(tofind.value.as_slice(), clear)
}

/// Slides a window as long as the pattern over `line` and tests each position
/// with `find`, stopping at the first hit.
pub fn find_within(tofind: &ToFind, line: &[u8]) -> (b: bool)
    ensures
        b == tofind.accepts_within(line@),
        tofind.wf() ==> b == occurs_in(tofind.value@, line@),
{
    proof {
        if tofind.wf() {
            tofind.lemma_within_is_occurrence(line@);
        }
    }
    let n = tofind.value.len();
    if n == 0 || n > line.len() {
        assert(forall|i: int| !tofind.accepts_window(line@, i));
        return false;
    }
    let last = line.len() - n;
    let mut i: usize = 0;
    while i <= last
        invariant
            0 < n == tofind.value@.len(),
            n <= line@.len(),
            last == line@.len() - n,
            last + n <= usize::MAX,
            i <= last + 1,
            tofind.wf() ==> tofind.accepts_within(line@) == occurs_in(tofind.value@, line@),
            forall|k: int| 0 <= k < i ==> !tofind.accepts_window(line@, k),
        decreases last + 1 - i,
    {
        if find(tofind, &line[i..i + n]) {
            assert(tofind.accepts_window(line@, i as int));
            return true;
        }
        i += 1;
    }
    assert(forall|k: int| !tofind.accepts_window(line@, k));
    false
}

/// `value` stands in `line` at position `i`.
pub open spec fn occurs_at(value: Seq<u8>, line: Seq<u8>, i: int) -> bool {
    0 <= i && i + value.len() <= line.len() && line.subrange(i, i + value.len()) == value
}

/// `value` stands somewhere in `line`.
pub open spec fn occurs_in(value: Seq<u8>, line: Seq<u8>) -> bool {
    exists|i: int| occurs_at(value, line, i)
}

impl Pattern {
    /// Every literal inside the pattern has well-formed tables.
    pub open spec fn wf(&self) -> bool {
        match self {
            Pattern::ExactEqual(t) => t.wf(),
            Pattern::Substring(t) => t.wf(),
            Pattern::Regex(_) => true,
        }
    }

    /// What `matches` answers for `line`.
    pub open spec fn accepts(&self, line: Seq<u8>) -> bool {
        match self {
            Pattern::ExactEqual(t) => t.accepts(line),
            Pattern::Substring(t) => t.accepts_within(line),
            Pattern::Regex(re) => regex_is_match(re@, line),
        }
    }

    /// What the pattern means, with the prefilter out of the picture.
    pub open spec fn meaning(&self, line: Seq<u8>) -> bool {
        match self {
            Pattern::ExactEqual(t) => line == t.value@,
            Pattern::Substring(t) => occurs_in(t.value@, line),
            Pattern::Regex(re) => regex_is_match(re@, line),
        }
    }

    /// The prefilter is only a shortcut: a well-formed pattern accepts exactly
    /// the lines that its meaning names.
    pub proof fn lemma_accepts_is_meaning(&self, line: Seq<u8>)
        requires
            self.wf(),
        ensures
            self.accepts(line) == self.meaning(line),
    {
        match self {
            Pattern::Substring(t) => {
                t.lemma_within_is_occurrence(line);
            },
            _ => {},
        }
    }

    /// Chooses the matching mode from the two switches and builds the pattern.
    ///
    /// `regex` wins over `exact`; with neither, the text is searched for as a
    /// substring. A literal must not be empty. Whether a regular expression
    /// compiles is for the `regex` crate to say.
    pub fn build(text: &str, exact: bool, regex: bool) -> (r: Result<Pattern, PatternError>)
        ensures
            r matches Ok(p) ==> p.wf(),
            regex ==> match r {
                Ok(p) => p matches Pattern::Regex(re) && re@ == text@,
                Err(e) => e is Regex,
            },
            !regex ==> (r is Err <==> text.spec_bytes().len() == 0),
            !regex ==> match r {
                Ok(Pattern::ExactEqual(t)) => exact && t.value@ == text.spec_bytes(),
                Ok(Pattern::Substring(t)) => !exact && t.value@ == text.spec_bytes(),
                Ok(Pattern::Regex(_)) => false,
                Err(e) => e is Empty,
            },
    {
        if regex {
            Pattern::from_compiled(LineRegex::compile(text))
        } else {
            match parse_tofind(text) {
                Ok(t) => if exact {
                    Ok(Pattern::ExactEqual(t))
                } else {
                    Ok(Pattern::Substring(t))
                },
                Err(e) => Err(e),
            }
        }
    }

    /// Turns the outcome of a compilation into a pattern or an error.
    pub fn from_compiled(outcome: Result<LineRegex, regex::Error>) -> (r: Result<
        Pattern,
        PatternError,
    >)
        ensures
            match outcome {
                Ok(re) => r == Ok::<Pattern, PatternError>(Pattern::Regex(re)),
                Err(e) => r == Err::<Pattern, PatternError>(PatternError::Regex(e)),
            },
    {
        match outcome {
            Ok(re) => Ok(Pattern::Regex(re)),
            Err(e) => Err(PatternError::Regex(e)),
        }
    }

    /// Tests one line against the pattern.
    pub fn matches(&self, line: &[u8]) -> (b: bool)
        ensures
            b == self.accepts(line@),
            self.wf() ==> b == self.meaning(line@),
    {
        proof {
            if self.wf() {
                self.lemma_accepts_is_meaning(line@);
            }
        }
        match self {
            Pattern::ExactEqual(t) => find(t, line),
            Pattern::Substring(t) => find_within(t, line),
            Pattern::Regex(re) => re.is_match(line),
        }
    }
}

/// Byte-for-byte comparison of two slices.
fn bytes_equal(a: &[u8], b: &[u8]) -> (same: bool)
    ensures
        same == (a@ == b@),
{
    if a.len() != b.len() {
        return false;
    }
    let mut i: usize = 0;
    while i < a.len()
        invariant
            a@.len() == b@.len(),
            i <= a@.len(),
            forall|k: int| 0 <= k < i ==> a@[k] == b@[k],
        decreases a@.len() - i,
    {
        if a[i] != b[i] {
            return false;
        }
        i += 1;
    }
    assert(a@ =~= b@);
    true
}

} // verus!
