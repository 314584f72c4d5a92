//! The sink that collects the lines a search of the dump matched.
use crate::text::{
    find_byte, find_byte_in, lemma_find_byte, lemma_find_byte_at, lossy_text, trim_chars, trim_text,
    utf8_lossy, COLON,
};
use crate::search::line_views;
use vstd::prelude::*;

verus! {

/// The lines that a search matched: for each, its tag and the absolute byte
/// offset at which it starts in the searched data.
pub struct IndexSink {
    pub matches: Vec<(Option<String>, u64)>,
}

/// A tag as text.
pub open spec fn tag_view(t: Option<String>) -> Option<Seq<char>> {
    match t {
        Some(s) => Some(s@),
        None => None,
    }
}

impl View for IndexSink {
    type V = Seq<(Option<Seq<char>>, u64)>;

    open spec fn view(&self) -> Seq<(Option<Seq<char>>, u64)> {
        self.matches@.map_values(|m: (Option<String>, u64)| (tag_view(m.0), m.1))
    }
}

impl IndexSink {
    /// The start offsets of the matched lines, in the order they were found.
    pub open spec fn offsets(&self) -> Seq<u64> {
        self.matches@.map_values(|m: (Option<String>, u64)| m.1)
    }
}

/// The tag of a matched line: the text after its first `:`, decoded lossily
/// and trimmed; none when the line has no `:` or ends with it. (A line without
/// `:` is cut before its last byte, which leaves nothing after the cut.)
pub open spec fn match_tag(line: Seq<u8>) -> Option<Seq<char>> {
    let c = find_byte(line, COLON, 0, line.len() as int);
    let tag_end = if c < line.len() {
        c
    } else {
        line.len() - 1
    };
    if line.len() > tag_end + 1 {
        Some(trim_chars(utf8_lossy(line.subrange(tag_end + 1, line.len() as int))))
    } else {
        None
    }
}

/// A line whose first `:` is at `c` has as tag the rest of the line after
/// that `:`, decoded lossily and trimmed, when anything follows the `:`, and
/// no tag when the `:` is its last byte.
pub proof fn lemma_match_tag_after_colon(line: Seq<u8>, c: int)
    requires
        0 <= c < line.len(),
        line[c] == COLON,
        forall|k: int| 0 <= k < c ==> line[k] != COLON,
    ensures
        match_tag(line) == if c + 1 < line.len() {
            Some(trim_chars(utf8_lossy(line.subrange(c + 1, line.len() as int))))
        } else {
            None
        },
{
    lemma_find_byte_at(line, COLON, 0, line.len() as int, c);
}

/// A line without `:` has no tag.
pub proof fn lemma_match_tag_no_colon(line: Seq<u8>)
    requires
        forall|k: int| 0 <= k < line.len() ==> line[k] != COLON,
    ensures
        match_tag(line) is None,
{
    lemma_find_byte_at(line, COLON, 0, line.len() as int, line.len() as int);
}

/// The offsets of a sink are the offsets of its entries.
pub proof fn lemma_sink_offsets(s: IndexSink)
    ensures
        s.offsets() == s@.map_values(|e: (Option<Seq<char>>, u64)| e.1),
{
    assert(s.offsets() =~= s@.map_values(|e: (Option<Seq<char>>, u64)| e.1));
}

/// The entries that matched lines give: each line's tag and its offset.
pub open spec fn line_entries(lines: Seq<(Seq<u8>, u64)>) -> Seq<(Option<Seq<char>>, u64)> {
    lines.map_values(|l: (Seq<u8>, u64)| (match_tag(l.0), l.1))
}

/// Some line in `lines` is empty.
pub open spec fn has_empty_line(lines: Seq<(Seq<u8>, u64)>) -> bool {
    exists|k: int| 0 <= k < lines.len() && (#[trigger] lines[k]).0.len() == 0
}

impl IndexSink {
    pub fn new() -> (s: Self)
        ensures
            s@ == Seq::<(Option<Seq<char>>, u64)>::empty(),
    {
        IndexSink { matches: Vec::new() }
    }

    /// Records the matched lines of a search, each with the offset at which
    /// it starts, in order; records none, and fails, when one of them is empty.
    pub fn record_lines(&mut self, lines: &Vec<(Vec<u8>, u64)>) -> (ok: bool)
        ensures
            ok == !has_empty_line(line_views(lines@)),
            ok ==> final(self)@ == old(self)@ + line_entries(line_views(lines@)),
            !ok ==> *final(self) == *old(self),
    {
        let ghost views = line_views(lines@);
        let n = lines.len();
        let mut i: usize = 0;
        while i < n
            invariant
                n == lines@.len(),
                views == line_views(lines@),
                i <= n,
                forall|k: int| 0 <= k < i ==> (#[trigger] views[k]).0.len() > 0,
            decreases n - i,
        {
            if lines[i].0.len() == 0 {
                assert(views[i as int].0.len() == 0);
                return false;
            }
            i = i + 1;
        }
        let mut j: usize = 0;
        while j < n
            invariant
                n == lines@.len(),
                views == line_views(lines@),
                j <= n,
                forall|k: int| 0 <= k < n ==> (#[trigger] views[k]).0.len() > 0,
                self@ == old(self)@ + line_entries(views.take(j as int)),
            decreases n - j,
        {
            assert(views[j as int].0.len() > 0);
            self.record_match(&lines[j].0, lines[j].1);
            assert(line_entries(views.take(j + 1)) =~= line_entries(views.take(j as int)).push(
                (match_tag(views[j as int].0), views[j as int].1),
            ));
            j = j + 1;
        }
        assert(views.take(n as int) =~= views);
        true
    }

    /// Records one matched line (its bytes, terminator included) that starts
    /// at `byte_offset`.
    pub fn record_match(&mut self, line: &[u8], byte_offset: u64)
        requires
            line@.len() > 0,
        ensures
            final(self)@ == old(self)@.push((match_tag(line@), byte_offset)),
    {
        let tag = line_tag(line);
        self.matches.push((tag, byte_offset));
        assert(self@ =~= old(self)@.push((match_tag(line@), byte_offset)));
    }
}

/// The tag of a matched line (`match_tag`).
pub fn line_tag(line: &[u8]) -> (tag: Option<String>)
    requires
        line@.len() > 0,
    ensures
        tag_view(tag) == match_tag(line@),
{
    let n = line.len();
    let colon = find_byte_in(line, COLON, 0, n);
    let tag_end = if colon < n {
        colon
    } else {
        n - 1
    };
    proof {
        lemma_find_byte(line@, COLON, 0, n as int);
    }
    if n > tag_end + 1 {
        let lossy = lossy_text(&line[tag_end + 1..n]);
        let trimmed = trim_text(lossy.as_str());
        Some(trimmed.to_owned())
    } else {
        None
    }
}

} // verus!
