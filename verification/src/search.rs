//! Line searches over the dump: the lines that a regular expression matches,
//! each with the offset at which it starts.
use grep_regex::RegexMatcher;
use grep_searcher::{BinaryDetection, Searcher, SearcherBuilder, Sink, SinkMatch};
use vstd::prelude::*;

verus! {

/// Declares `grep_searcher::Searcher`, which hands matched lines to a sink.
#[verifier::external_type_specification]
#[verifier::external_body]
pub struct ExSearcher(Searcher);

/// Declares `grep_searcher::SinkMatch`, one matched line.
#[verifier::external_type_specification]
#[verifier::external_body]
pub struct ExSinkMatch<'b>(SinkMatch<'b>);

/// Why a search gave no lines.
pub enum SearchError {
    /// The pattern is not a regular expression that `grep_regex` accepts.
    Pattern(grep_regex::Error),
    /// The search itself failed.
    Search(std::io::Error),
}

/// The lines of `data` that `pattern` matches, as a line-oriented search of
/// `grep_searcher` (binary detection quitting at a NUL byte, no line numbers)
/// reports them: each line's bytes, terminator included, and its offset in
/// `data`, in order.
pub uninterp spec fn matched_lines(pattern: Seq<char>, data: Seq<u8>) -> Seq<(Seq<u8>, u64)>;

/// `grep_regex::RegexMatcher::new` accepts `pattern`.
pub uninterp spec fn pattern_accepted(pattern: Seq<char>) -> bool;

/// The lines of a search result as plain values.
pub open spec fn line_views(v: Seq<(Vec<u8>, u64)>) -> Seq<(Seq<u8>, u64)> {
    v.map_values(|l: (Vec<u8>, u64)| (l.0@, l.1))
}

/// Collects the lines that a search matches.
struct LineCollector {
    lines: Vec<(Vec<u8>, u64)>,
}

impl Sink for LineCollector {
    type Error = std::io::Error;

    /// Keeps the matched line's bytes and the offset at which it starts.
    #[verifier::external_body]
    fn matched(&mut self, _searcher: &Searcher, mat: &SinkMatch<'_>) -> Result<
        bool,
        std::io::Error,
    > {
        self.lines.push((mat.bytes().to_vec(), mat.absolute_byte_offset()));
        Ok(true)
    }
}

/// Compiles `pattern` with `grep_regex::RegexMatcher::new` and runs
/// `grep_searcher::Searcher::search_slice` over `data`, with binary detection
/// quitting at a NUL byte and without line numbers. Claimed:
/// - it fails exactly when the pattern is not accepted, and then with the
///   pattern's error: the search itself fails only on a configuration check
///   (which the default heap limit and a matcher without a line terminator
///   pass) or through the sink (whose `matched` never fails);
/// - the lines it reports are `matched_lines` of the pattern and the data;
/// - each is non-empty (the `Sink::matched` documentation: without multi-line
///   search, a match spans exactly one non-empty line).
#[verifier::external_body]
pub fn search_lines(pattern: &str, data: &[u8]) -> (r: Result<Vec<(Vec<u8>, u64)>, SearchError>)
    ensures
        r is Ok <==> pattern_accepted(pattern@),
        r matches Err(e) ==> e is Pattern,
        r matches Ok(v) ==> line_views(v@) == matched_lines(pattern@, data@),
        r matches Ok(v) ==> forall|k: int| 0 <= k < v@.len() ==> (#[trigger] v@[k]).0@.len() > 0,
{
    let matcher = match RegexMatcher::new(pattern) {
        Ok(m) => m,
        Err(e) => return Err(SearchError::Pattern(e)),
    };
    let mut searcher = SearcherBuilder::new().binary_detection(BinaryDetection::quit(b'\x00')).line_number(false).build();
    let mut collector = LineCollector { lines: Vec::new() };
    match searcher.search_slice(matcher, data, &mut collector) {
        Ok(()) => Ok(collector.lines),
        Err(e) => Err(SearchError::Search(e)),
    }
}

} // verus!
