use vstd::prelude::*;

verus! {

/// An invalid pattern, with the engine's rendered message.
#[derive(Debug)]
pub struct CompileError {
    pub message: String,
}

/// An engine fault while matching, with its rendered message.
#[derive(Debug)]
pub struct SearchError {
    pub message: String,
}

#[verifier::external_type_specification]
#[verifier::external_body]
pub struct ExRegex(pcre2::bytes::Regex);

/// Relies on pcre2's `Clone` for `Regex` (a shared handle to the
/// same compiled program); nothing is claimed of the copy.
pub assume_specification[ <pcre2::bytes::Regex as Clone>::clone ](
    r: &pcre2::bytes::Regex,
) -> pcre2::bytes::Regex;

/// Every non-overlapping match of the pattern over the subject, as
/// half-open byte ranges, leftmost first: a function of the pattern
/// and subject alone.
pub uninterp spec fn match_seq(pattern: Seq<char>, subject: Seq<u8>) -> Seq<(usize, usize)>;

/// The capture ranges of the leftmost match of the pattern over the
/// subject (`None` when nothing matches): position 0 the whole match,
/// a non-participating group `None`.  A function of pattern and
/// subject alone.
pub uninterp spec fn captures_of(pattern: Seq<char>, subject: Seq<u8>) -> Option<
    Seq<Option<(usize, usize)>>,
>;

/// The name of each capture group of the pattern, as UTF-8 bytes, by
/// group index; unnamed groups `None`.  A function of the pattern
/// alone.
pub uninterp spec fn capture_names_of(pattern: Seq<char>) -> Seq<Option<Seq<u8>>>;

/// Whether the engine accepts the pattern under the adapter's fixed
/// options: a function of the pattern text alone.
pub uninterp spec fn pattern_wf(pattern: Seq<char>) -> bool;

/// A compiled pattern together with its text.
#[derive(Clone)]
pub struct Query {
    re: pcre2::bytes::Regex,
    pattern: String,
}

impl Query {
    /// The text the query was compiled from.
    pub closed spec fn pat(&self) -> Seq<char> {
        self.pattern@
    }

    /// The pattern text, as handed to `compile`.
    pub fn pattern_text(&self) -> (r: &str)
        ensures
            r@ == self.pat(),
    {
        self.pattern.as_str()
    }

    /// Relies on pcre2's `RegexBuilder`: compiles the pattern with JIT
    /// when available and CRLF line-terminator handling, as the engine
    /// adapter does for every caller.  Compilation succeeds exactly on
    /// the patterns the engine accepts, a function of the text alone.
    #[verifier::external_body]
    pub fn compile(pattern: &str) -> (r: Result<Query, CompileError>)
        ensures
            r is Ok <==> pattern_wf(pattern@),
            r matches Ok(q) ==> q.pat() == pattern@,
    {
        pcre2::bytes::RegexBuilder::new().jit_if_available(true).crlf(true).build(pattern).map(
            |re| Query { re, pattern: pattern.to_string() },
        ).map_err(|e| CompileError { message: e.to_string() })
    }

    /// Relies on pcre2's `find_iter`: yields every non-overlapping
    /// match over the subject bytes in leftmost order, with start and
    /// end offsets into the subject.
    #[verifier::external_body]
    pub fn find_matches(&self, subject: &[u8]) -> (r: Result<Vec<(usize, usize)>, SearchError>)
        ensures
            r matches Ok(ms) ==> ms@ == match_seq(self.pat(), subject@),
    {
        let mut out = Vec::new();
        for m in self.re.find_iter(subject) {
            match m {
                Ok(m) => out.push((m.start(), m.end())),
                Err(e) => return Err(SearchError { message: e.to_string() }),
            }
        }
        Ok(out)
    }

    /// Relies on pcre2's `captures_read` and `CaptureLocations`: on a
    /// match, group `i`'s byte range in the subject stands at position
    /// `i` (0 the whole match), each range within the subject's
    /// bounds; `None` when nothing matches.
    #[verifier::external_body]
    pub fn read_captures(&self, subject: &[u8]) -> (r: Result<
        Option<Vec<Option<(usize, usize)>>>,
        SearchError,
    >)
        ensures
            r matches Ok(c) ==> (c is Some <==> captures_of(self.pat(), subject@) is Some),
            r matches Ok(c) ==> (c matches Some(v) ==> captures_of(self.pat(), subject@)
                == Some(v@)),
            r matches Ok(c) ==> (c matches Some(v) ==> forall|i: int|
                0 <= i < v@.len() ==> (#[trigger] v@[i] matches Some(se) ==> se.0 <= se.1
                    <= subject@.len())),
    {
        let mut locs = self.re.capture_locations();
        match self.re.captures_read(&mut locs, subject) {
            Err(e) => Err(SearchError { message: e.to_string() }),
            Ok(None) => Ok(None),
            Ok(Some(_)) => {
                let mut v = Vec::new();
                for i in 0..locs.len() {
                    v.push(locs.get(i));
                }
                Ok(Some(v))
            },
        }
    }

    /// Relies on pcre2's `capture_names`: the name of each group of
    /// the pattern by index, as UTF-8 bytes, unnamed groups `None`.
    #[verifier::external_body]
    pub fn capture_names(&self) -> (r: Vec<Option<Vec<u8>>>)
        ensures
            r.deep_view() == capture_names_of(self.pat()),
    {
        self.re.capture_names().iter().map(
            |n| n.as_ref().map(|s| s.as_bytes().to_vec()),
        ).collect()
    }
}

} // verus!
