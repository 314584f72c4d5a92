//! The process-heap pass: the first heap window whose content entries spell
//! any message gives the messages to write out.
use crate::indices::binary::{window_count, BinaryRef};
use crate::indices::content::{content_messages, messages_in, text_windows_in, text_windows_of, texts};
use crate::indices::global::{has_empty_line, lemma_sink_offsets, IndexSink};
use crate::search::{line_views, matched_lines, pattern_accepted, search_lines};
use vstd::hash_map::StringHashMap;
use vstd::prelude::*;

verus! {

pub struct ProcHeapRef {
    ref_name: String,
    pub data: String,
}

pub struct ProcHeapIndex {
    heap_refs: StringHashMap<ProcHeapRef>,
}

/// Why the heap windows could not be read.
pub enum ProcHeapError {
    /// A heap window's search reported an empty line, or a content window in
    /// it is not valid UTF-8.
    Unreadable,
    /// A heap window's search failed.
    SearchFailed,
}

/// The start offsets of a list of matched lines.
pub open spec fn match_offsets(matches: Seq<(Option<String>, u64)>) -> Seq<u64> {
    matches.map_values(|m: (Option<String>, u64)| m.1)
}

/// The offsets of a search's lines.
pub open spec fn line_offsets(lines: Seq<(Seq<u8>, u64)>) -> Seq<u64> {
    lines.map_values(|l: (Seq<u8>, u64)| l.1)
}

/// Every heap window between consecutive offsets lies in `file`.
pub open spec fn heap_windows_in(file: Seq<u8>, offs: Seq<u64>) -> bool {
    forall|i: int|
        0 <= i < window_count(offs) ==> #[trigger] offs[i] <= offs[i + 1] <= file.len()
}

/// The content entries that the search finds in the heap window `file[lo..hi)`,
/// with offsets into the window: lines starting with twelve ASCII letters or
/// digits and `:t6:A7:conten`.
pub open spec fn heap_hits(file: Seq<u8>, lo: int, hi: int) -> Seq<(Seq<u8>, u64)> {
    matched_lines("^[A-Za-z0-9]{12}:t6:A7:content*"@, file.subrange(lo, hi))
}

/// What the heap windows from the `i`-th on give: the messages of the first
/// window that spells any (`Some(Some(..))`), or no messages at all
/// (`Some(None)`); `None` when a window before that cannot be read (its
/// search reports an empty line, or a content window in it is not text).
pub open spec fn heap_outcome<'a>(
    file: Seq<u8>,
    offs: Seq<u64>,
    refs: Map<Seq<char>, BinaryRef<'a>>,
    i: int,
) -> Option<Option<Seq<Seq<char>>>>
    decreases window_count(offs) - i,
{
    if i < 0 || i >= window_count(offs) {
        Some(None)
    } else {
        let window = file.subrange(offs[i] as int, offs[i + 1] as int);
        let hits = heap_hits(file, offs[i] as int, offs[i + 1] as int);
        if has_empty_line(hits) || !text_windows_of(window, line_offsets(hits)) {
            None
        } else {
            let m = content_messages(window, line_offsets(hits), refs);
            if m.len() > 0 {
                Some(Some(m))
            } else {
                heap_outcome(file, offs, refs, i + 1)
            }
        }
    }
}

/// The `i`-th heap window can be read: its search reports no empty line and
/// every content window in it is text.
pub open spec fn heap_window_readable(file: Seq<u8>, offs: Seq<u64>, i: int) -> bool {
    let hits = heap_hits(file, offs[i] as int, offs[i + 1] as int);
    !has_empty_line(hits) && text_windows_of(
        file.subrange(offs[i] as int, offs[i + 1] as int),
        line_offsets(hits),
    )
}

/// All the messages that the content entries of the `i`-th heap window spell.
pub open spec fn heap_window_messages<'a>(
    file: Seq<u8>,
    offs: Seq<u64>,
    refs: Map<Seq<char>, BinaryRef<'a>>,
    i: int,
) -> Seq<Seq<char>> {
    let hits = heap_hits(file, offs[i] as int, offs[i + 1] as int);
    content_messages(file.subrange(offs[i] as int, offs[i + 1] as int), line_offsets(hits), refs)
}

/// The heap windows from the `i`-th up to (not including) the `k`-th can all
/// be read and spell no message.
pub open spec fn heap_quiet<'a>(
    file: Seq<u8>,
    offs: Seq<u64>,
    refs: Map<Seq<char>, BinaryRef<'a>>,
    i: int,
    k: int,
) -> bool {
    forall|j: int|
        i <= j < k ==> #[trigger] heap_window_readable(file, offs, j) && heap_window_messages(
            file,
            offs,
            refs,
            j,
        ).len() == 0
}

/// What the heap windows from the `i`-th on give, window by window: when
/// messages come out, there is a window `k` such that every window before it
/// reads and spells nothing, and the messages are all those of window `k`;
/// when nothing comes out, every window reads and spells nothing; when the
/// windows cannot be read, there is a window `k` that cannot, and every window
/// before it reads and spells nothing.
pub proof fn lemma_heap_outcome_windows<'a>(
    file: Seq<u8>,
    offs: Seq<u64>,
    refs: Map<Seq<char>, BinaryRef<'a>>,
    i: int,
)
    requires
        0 <= i,
    ensures
        heap_outcome(file, offs, refs, i) matches Some(Some(m)) ==> exists|k: int|
            i <= k < window_count(offs) && heap_quiet(file, offs, refs, i, k)
                && #[trigger] heap_window_readable(file, offs, k) && m == heap_window_messages(
                file,
                offs,
                refs,
                k,
            ) && m.len() > 0,
        heap_outcome(file, offs, refs, i) == Some(None::<Seq<Seq<char>>>) ==> heap_quiet(
            file,
            offs,
            refs,
            i,
            window_count(offs),
        ),
        heap_outcome(file, offs, refs, i) is None ==> exists|k: int|
            i <= k < window_count(offs) && heap_quiet(file, offs, refs, i, k)
                && !#[trigger] heap_window_readable(file, offs, k),
    decreases window_count(offs) - i,
{
    if i < window_count(offs) {
        if !heap_window_readable(file, offs, i) {
            assert(heap_quiet(file, offs, refs, i, i));
        } else if heap_window_messages(file, offs, refs, i).len() > 0 {
            assert(heap_quiet(file, offs, refs, i, i));
            assert(heap_window_readable(file, offs, i));
        } else {
            lemma_heap_outcome_windows(file, offs, refs, i + 1);
            assert(heap_outcome(file, offs, refs, i) == heap_outcome(file, offs, refs, i + 1));
            match heap_outcome(file, offs, refs, i + 1) {
                Some(Some(m)) => {
                    let k = choose|k: int|
                        i + 1 <= k < window_count(offs) && heap_quiet(file, offs, refs, i + 1, k)
                            && #[trigger] heap_window_readable(file, offs, k)
                            && m == heap_window_messages(file, offs, refs, k) && m.len() > 0;
                    assert(heap_quiet(file, offs, refs, i, k));
                    assert(heap_window_readable(file, offs, k));
                },
                Some(None) => {
                    assert(heap_quiet(file, offs, refs, i, window_count(offs)));
                },
                None => {
                    let k = choose|k: int|
                        i + 1 <= k < window_count(offs) && heap_quiet(file, offs, refs, i + 1, k)
                            && !#[trigger] heap_window_readable(file, offs, k);
                    assert(heap_quiet(file, offs, refs, i, k));
                    assert(!heap_window_readable(file, offs, k));
                },
            }
        }
    }
}

impl ProcHeapIndex {
    /// The names under which heap records are kept.
    pub closed spec fn ref_names(&self) -> Set<Seq<char>> {
        self.heap_refs@.dom()
    }

    pub fn new() -> (r: Self)
        ensures
            r.ref_names() == Set::<Seq<char>>::empty(),
    {
        Self { heap_refs: StringHashMap::new() }
    }

    /// Whether `index_proc_heap` can run on these windows (`heap_windows_in`).
    pub fn can_index_proc_heap(&self, matches: &Vec<(Option<String>, u64)>, file_data: &[u8]) -> (ok:
        bool)
        ensures
            ok == heap_windows_in(file_data@, match_offsets(matches@)),
    {
        let ghost offs = match_offsets(matches@);
        let count = matches.len();
        let n = file_data.len();
        let mut k: usize = 0;
        while k + 1 < count
            invariant
                count == offs.len(),
                count >= 1 ==> k + 1 <= count,
                count == 0 ==> k == 0,
                offs == match_offsets(matches@),
                n == file_data@.len(),
                forall|i: int| 0 <= i < k ==> #[trigger] offs[i] <= offs[i + 1] <= file_data@.len(),
            decreases count - k,
        {
            let lo = matches[k].1;
            let hi = matches[k + 1].1;
            assert(lo == offs[k as int] && hi == offs[k + 1]);
            if lo > hi || hi > n as u64 {
                return false;
            }
            k = k + 1;
        }
        true
    }

    /// Goes through the heap windows between consecutive `matches` in
    /// `file_data`, finds the content entries of each, and returns the
    /// messages of the first window that spells any.
    pub fn index_proc_heap<'a>(
        &mut self,
        matches: &Vec<(Option<String>, u64)>,
        file_data: &'a [u8],
        binary_refs: &StringHashMap<BinaryRef<'a>>,
    ) -> (res: Result<Option<Vec<String>>, ProcHeapError>)
        requires
            heap_windows_in(file_data@, match_offsets(matches@)),
        ensures
            *final(self) == *old(self),
            res matches Ok(found) ==> heap_outcome(
                file_data@,
                match_offsets(matches@),
                binary_refs@,
                0,
            ) == Some(
                match found {
                    Some(m) => Some(texts(m@)),
                    None => None,
                },
            ),
            res matches Err(ProcHeapError::SearchFailed) ==> !pattern_accepted(
                "^[A-Za-z0-9]{12}:t6:A7:content*"@,
            ),
            pattern_accepted("^[A-Za-z0-9]{12}:t6:A7:content*"@) ==> (res is Ok <==> heap_outcome(
                file_data@,
                match_offsets(matches@),
                binary_refs@,
                0,
            ) is Some),
            res matches Ok(Some(m)) ==> exists|k: int|
                0 <= k < window_count(match_offsets(matches@)) && heap_quiet(
                    file_data@,
                    match_offsets(matches@),
                    binary_refs@,
                    0,
                    k,
                ) && #[trigger] heap_window_readable(file_data@, match_offsets(matches@), k)
                    && texts(m@) == heap_window_messages(
                    file_data@,
                    match_offsets(matches@),
                    binary_refs@,
                    k,
                ),
            res matches Ok(None) ==> heap_quiet(
                file_data@,
                match_offsets(matches@),
                binary_refs@,
                0,
                window_count(match_offsets(matches@)),
            ),
            res matches Err(ProcHeapError::Unreadable) ==> heap_outcome(
                file_data@,
                match_offsets(matches@),
                binary_refs@,
                0,
            ) is None,
    {
        let ghost offs = match_offsets(matches@);
        let ghost b = file_data@;
        let count = matches.len();
        let n = file_data.len();
        let mut k: usize = 0;
        while k + 1 < count
            invariant
                count == offs.len(),
                count >= 1 ==> k + 1 <= count,
                count == 0 ==> k == 0,
                offs == match_offsets(matches@),
                b == file_data@,
                n == b.len(),
                heap_windows_in(b, offs),
                heap_outcome(b, offs, binary_refs@, 0) == heap_outcome(
                    b,
                    offs,
                    binary_refs@,
                    k as int,
                ),
            decreases count - k,
        {
            let lo = matches[k].1;
            let hi = matches[k + 1].1;
            assert(lo == offs[k as int] && hi == offs[k + 1]);
            assert(offs[k as int] <= offs[k + 1] <= b.len());
            let window = &file_data[lo as usize..hi as usize];
            let ghost hits = heap_hits(b, lo as int, hi as int);
            match search_lines("^[A-Za-z0-9]{12}:t6:A7:content*", window) {
                Err(_) => {
                    return Err(ProcHeapError::SearchFailed);
                },
                Ok(lines) => {
                    assert(line_views(lines@) == hits);
                    let mut found = IndexSink::new();
                    if !found.record_lines(&lines) {
                        return Err(ProcHeapError::Unreadable);
                    }
                    proof {
                        lemma_sink_offsets(found);
                        assert(found.offsets() =~= line_offsets(hits));
                    }
                    if !text_windows_in(window, &found) {
                        return Err(ProcHeapError::Unreadable);
                    }
                    let messages = messages_in(window, &found, binary_refs);
                    if messages.len() > 0 {
                        proof {
                            lemma_heap_outcome_windows(b, offs, binary_refs@, 0);
                        }
                        return Ok(Some(messages));
                    }
                },
            }
            k = k + 1;
        }
        proof {
            lemma_heap_outcome_windows(b, offs, binary_refs@, 0);
        }
        Ok(None)
    }
}

} // verus!
