//! An index that keeps the binary records of a dump in a list: each window of
//! the dump between matched `=binary:` lines is read as text, its record is
//! kept with a placeholder payload, and the base64 data of the records of one
//! particular size is decoded into JSON dumps for the caller to write out.
use crate::indices::binary::{binary_record, binary_window_readable, read_binary_window, WindowRead};
use crate::indices::global::{line_entries, line_tag, match_tag, tag_view};
use crate::search::{line_views, matched_lines, pattern_accepted, search_lines};
use crate::text::utf8_lossy;
use crate::text::lossy_text;
use base64::prelude::BASE64_STANDARD;
use base64::Engine;
use vstd::prelude::*;
use vstd::string::*;
use vstd::utf8::*;

verus! {

/// Declares `base64::DecodeError`, what decoding base64 text can fail with.
#[verifier::external_type_specification]
#[verifier::external_body]
pub struct ExDecodeError(base64::DecodeError);

/// What the standard base64 engine (`base64::prelude::BASE64_STANDARD`, with
/// padding) decodes the text to; none when it rejects the text.
pub uninterp spec fn base64_standard_decode(input: Seq<u8>) -> Option<Seq<u8>>;

/// Calls `Engine::decode` of `BASE64_STANDARD`. Claimed: the result is
/// `base64_standard_decode` of the input; what it decodes or rejects is left
/// to that name.
#[verifier::external_body]
fn decode_base64(input: &[u8]) -> (r: Result<Vec<u8>, base64::DecodeError>)
    ensures
        match r {
            Ok(v) => base64_standard_decode(input@) == Some(v@),
            Err(_) => base64_standard_decode(input@) is None,
        },
{
    BASE64_STANDARD.decode(input)
}

pub const EQUALS_SIGN: u8 = 0x3d;

/// The size of the records whose data is decoded into a JSON dump.
pub const DUMP_SIZE: usize = 131064;

/// A record is dumped only while the count of earlier dumps is at most this.
pub const DUMP_LIMIT: usize = 10;

pub struct BinaryData {
    pub size: usize,
    pub data: Vec<u8>,
}

pub struct RabbitFraming {
    pub ref_name: String,
    pub message_parts: String,
}

pub struct BinaryRef {
    pub ref_name: String,
    pub binary_data: BinaryData,
}

impl BinaryRef {
    /// The record's name.
    pub open spec fn name(&self) -> Seq<char> {
        self.ref_name@
    }

    /// The record's size.
    pub open spec fn size(&self) -> usize {
        self.binary_data.size
    }

    /// The record's payload.
    pub open spec fn payload(&self) -> Seq<u8> {
        self.binary_data.data@
    }
}

pub struct IndexSink {
    pub matches: Vec<(Option<String>, u64)>,
}

impl View for IndexSink {
    type V = Seq<(Option<Seq<char>>, u64)>;

    open spec fn view(&self) -> Seq<(Option<Seq<char>>, u64)> {
        self.matches@.map_values(|m: (Option<String>, u64)| (tag_view(m.0), m.1))
    }
}

/// The entries that matched lines give when only lines starting with `=`
/// are kept: each kept line's tag and its offset, in order.
pub open spec fn list_entries(lines: Seq<(Seq<u8>, u64)>) -> Seq<(Option<Seq<char>>, u64)>
    decreases lines.len(),
{
    if lines.len() == 0 {
        Seq::empty()
    } else {
        let prev = list_entries(lines.drop_last());
        let l = lines.last();
        if l.0.len() > 0 && l.0[0] == EQUALS_SIGN {
            prev.push((match_tag(l.0), l.1))
        } else {
            prev
        }
    }
}

/// Whether a matched line starts with `=`.
pub open spec fn starts_with_equals() -> spec_fn((Seq<u8>, u64)) -> bool {
    |l: (Seq<u8>, u64)| l.0.len() > 0 && l.0[0] == EQUALS_SIGN
}

/// The entries kept from matched lines are the entries (tag and offset) of
/// exactly the lines that start with `=`, all of them, in order.
pub proof fn lemma_list_entries_filter(lines: Seq<(Seq<u8>, u64)>)
    ensures
        list_entries(lines) == line_entries(lines.filter(starts_with_equals())),
    decreases lines.len(),
{
    reveal(Seq::filter);
    if lines.len() > 0 {
        let d = lines.drop_last();
        let l = lines.last();
        lemma_list_entries_filter(d);
        let f = d.filter(starts_with_equals());
        if l.0.len() > 0 && l.0[0] == EQUALS_SIGN {
            assert(line_entries(f.push(l)) =~= line_entries(f).push((match_tag(l.0), l.1)));
        }
    } else {
        assert(line_entries(lines.filter(starts_with_equals())) =~= Seq::empty());
    }
}

impl IndexSink {
    fn new() -> (s: Self)
        ensures
            s@ == Seq::<(Option<Seq<char>>, u64)>::empty(),
    {
        Self { matches: Vec::new() }
    }

    /// Records the matched lines of a search that start with `=`, in order.
    pub fn record_lines(&mut self, lines: &Vec<(Vec<u8>, u64)>)
        ensures
            final(self)@ == old(self)@ + list_entries(line_views(lines@)),
    {
        let ghost views = line_views(lines@);
        let n = lines.len();
        let mut j: usize = 0;
        assert(old(self)@ + list_entries(views.take(0)) =~= old(self)@);
        while j < n
            invariant
                n == lines@.len(),
                views == line_views(lines@),
                j <= n,
                self@ == old(self)@ + list_entries(views.take(j as int)),
            decreases n - j,
        {
            assert(views.take(j + 1).drop_last() =~= views.take(j as int));
            assert(views.take(j + 1).last() == views[j as int]);
            let ghost before = self@;
            self.record_match(&lines[j].0, lines[j].1);
            assert(self@ =~= old(self)@ + list_entries(views.take(j + 1)));
            j = j + 1;
        }
        assert(views.take(n as int) =~= views);
    }

    /// Records a matched line that starts at `byte_offset`, if the line
    /// starts with `=`; other lines are passed over.
    pub fn record_match(&mut self, line: &[u8], byte_offset: u64)
        ensures
            line@.len() > 0 && line@[0] == EQUALS_SIGN ==> final(self)@ == old(self)@.push(
                (match_tag(line@), byte_offset),
            ),
            !(line@.len() > 0 && line@[0] == EQUALS_SIGN) ==> final(self)@ == old(self)@,
    {
        if line.len() > 0 && line[0] == EQUALS_SIGN {
            let tag = line_tag(line);
            self.matches.push((tag, byte_offset));
            assert(self@ =~= old(self)@.push((match_tag(line@), byte_offset)));
        }
    }
}

pub struct BinaryIndex {
    pub index_sink: IndexSink,
    pub total_size: usize,
    pub records: Vec<BinaryRef>,
}

/// A JSON dump to write: the file's name and its bytes.
pub struct JsonDump {
    pub file_name: String,
    pub json: Vec<u8>,
}

/// Why a window could not be indexed.
#[derive(Debug)]
pub enum IndexError {
    /// The window's text is not a readable record (see
    /// `binary_window_readable`).
    Malformed,
    /// The data of a record to dump is not base64.
    BadBase64(base64::DecodeError),
}

/// The placeholder payload that each kept record carries: the bytes of
/// `sample`.
pub open spec fn placeholder() -> Seq<u8> {
    seq![0x73u8, 0x61, 0x6d, 0x70, 0x6c, 0x65]
}

/// The text that a window's bytes are read as: decoded lossily.
pub open spec fn window_bytes(buffer: Seq<u8>) -> Seq<u8> {
    encode_utf8(utf8_lossy(buffer))
}

/// The JSON dump's file name for a record name: the name and `.json`.
pub open spec fn dump_name(name: Seq<char>) -> Seq<char> {
    name + seq!['.', 'j', 's', 'o', 'n']
}

/// A dump's file name is the record's whole name followed by `.json`.
pub proof fn lemma_dump_name(name: Seq<char>)
    ensures
        dump_name(name).len() == name.len() + 5,
        dump_name(name).subrange(0, name.len() as int) == name,
        dump_name(name).subrange(name.len() as int, name.len() + 5int) == seq!['.', 'j', 's', 'o', 'n'],
{
    assert(dump_name(name).subrange(0, name.len() as int) =~= name);
    assert(dump_name(name).subrange(name.len() as int, name.len() + 5int) =~= seq![
        '.',
        'j',
        's',
        'o',
        'n',
    ]);
}

/// `new` is `old` with its records reordered by size, largest first, and
/// records of equal size in the reverse of their order in `old`; `p` gives
/// the position in `old` of each record of `new`.
pub open spec fn sorted_by_size(old: Seq<BinaryRef>, new: Seq<BinaryRef>, p: Seq<int>) -> bool {
    &&& new.len() == old.len()
    &&& p.len() == new.len()
    &&& forall|i: int| 0 <= i < p.len() ==> 0 <= #[trigger] p[i] < old.len() && new[i] == old[p[i]]
    &&& forall|i: int, j: int| 0 <= i < j < p.len() ==> #[trigger] p[i] != #[trigger] p[j]
    &&& forall|i: int, j: int|
        0 <= i < j < new.len() ==> #[trigger] new[i].size() > #[trigger] new[j].size()
            || (new[i].size() == new[j].size() && p[i] > p[j])
}

/// Sorting by size twice keeps the records largest first and puts records of
/// equal size back in their order before the first sort: the `i`-th record
/// after both sorts is the `p[q[i]]`-th one before them.
pub proof fn lemma_sort_twice(
    r0: Seq<BinaryRef>,
    r1: Seq<BinaryRef>,
    r2: Seq<BinaryRef>,
    p: Seq<int>,
    q: Seq<int>,
)
    requires
        sorted_by_size(r0, r1, p),
        sorted_by_size(r1, r2, q),
    ensures
        r2.len() == r0.len(),
        forall|i: int| 0 <= i < r2.len() ==> 0 <= #[trigger] q[i] < r1.len() && r2[i] == r0[p[q[i]]],
        forall|i: int, j: int|
            0 <= i < j < r2.len() ==> #[trigger] r2[i].size() >= #[trigger] r2[j].size() && (
            r2[i].size() == r2[j].size() ==> p[q[i]] < p[q[j]]),
{
    assert forall|i: int| 0 <= i < r2.len() implies 0 <= #[trigger] q[i] < r1.len() && r2[i]
        == r0[p[q[i]]] by {
        assert(r1[q[i]] == r0[p[q[i]]]);
    }
    assert forall|i: int, j: int| 0 <= i < j < r2.len() implies #[trigger] r2[i].size()
        >= #[trigger] r2[j].size() && (r2[i].size() == r2[j].size() ==> p[q[i]] < p[q[j]]) by {
        if r2[i].size() == r2[j].size() {
            assert(q[i] > q[j]);
            assert(r1[q[i]] == r2[i] && r1[q[j]] == r2[j]);
            assert(r1[q[j]].size() > r1[q[i]].size() || (r1[q[j]].size() == r1[q[i]].size() && p[q[j]]
                > p[q[i]]));
        }
    }
}

impl BinaryIndex {
    /// The number of records kept so far.
    pub open spec fn kept_count(&self) -> usize {
        self.total_size
    }

    /// The number of records kept so far.
    pub fn total_size(&self) -> (r: usize)
        ensures
            r == self.kept_count(),
    {
        self.total_size
    }

    /// The matched lines.
    pub open spec fn sink(&self) -> Seq<(Option<Seq<char>>, u64)> {
        self.index_sink@
    }

    /// The kept records, in order.
    pub open spec fn record_list(&self) -> Seq<BinaryRef> {
        self.records@
    }

    pub fn new() -> (r: Self)
        ensures
            r.sink().len() == 0,
            r.kept_count() == 0,
            r.record_list().len() == 0,
    {
        Self { total_size: 0, index_sink: IndexSink::new(), records: Vec::new() }
    }

    /// Finds the lines of `data` (the dump) that hold `=binary:` and a word
    /// character, and records those that start with `=`, with their tags,
    /// after those already recorded. Succeeds exactly when the search's
    /// pattern is accepted; otherwise records nothing.
    pub fn build(&mut self, data: &[u8]) -> (ok: bool)
        ensures
            ok == pattern_accepted("=binary:\\w+"@),
            final(self).kept_count() == old(self).kept_count(),
            final(self).record_list() == old(self).record_list(),
            ok ==> final(self).sink() == old(self).sink() + list_entries(
                matched_lines("=binary:\\w+"@, data@),
            ),
            !ok ==> final(self).sink() == old(self).sink(),
    {
        match search_lines("=binary:\\w+", data) {
            Ok(lines) => {
                self.index_sink.record_lines(&lines);
                true
            },
            Err(_) => false,
        }
    }

    /// Indexes one window, whose bytes are `buffer`, when `dumped` dumps have
    /// been made before it; counts the dump it makes, if any. The window's text is read as a record (see
    /// `binary_record`); a record is kept with the placeholder payload, and
    /// when its size is `DUMP_SIZE` and `dumped` is at most `DUMP_LIMIT`,
    /// its data is decoded from base64 into the dump that is returned.
    pub fn index_window(&mut self, buffer: &[u8], dumped: &mut usize) -> (res: Result<
        Option<JsonDump>,
        IndexError,
    >)
        requires
            old(self).kept_count() < usize::MAX,
        ensures
            ({
                let t = window_bytes(buffer@);
                let n = t.len() as int;
                &&& !binary_window_readable(t, 0, n) <==> (res matches Err(IndexError::Malformed))
                &&& !(res matches Ok(Some(_))) ==> *final(dumped) == *old(dumped)
                &&& !binary_window_readable(t, 0, n) || binary_record(t, 0, n) is None
                    ==> *final(self) == *old(self)
                &&& binary_window_readable(t, 0, n) && binary_record(t, 0, n) is None ==> (res
                    matches Ok(None))
                &&& binary_window_readable(t, 0, n) ==> (binary_record(t, 0, n) matches Some(r) ==> {
                    &&& final(self).sink() == old(self).sink()
                    &&& final(self).kept_count() == old(self).kept_count() + 1
                    &&& final(self).record_list().len() == old(self).record_list().len() + 1
                    &&& final(self).record_list().drop_last() == old(self).record_list()
                    &&& final(self).record_list().last().name() == r.ref_name
                    &&& final(self).record_list().last().size() == r.size
                    &&& final(self).record_list().last().payload() == placeholder()
                    &&& if r.size == DUMP_SIZE && *old(dumped) <= DUMP_LIMIT {
                        match base64_standard_decode(encode_utf8(r.data)) {
                            Some(json) => (res matches Ok(Some(d)) && d.json@ == json
                                && d.file_name@ == dump_name(r.ref_name)) && *final(dumped) == *old(
                                dumped,
                            ) + 1,
                            None => res matches Err(IndexError::BadBase64(_)),
                        }
                    } else {
                        res matches Ok(None)
                    }
                })
            }),
    {
        let text = lossy_text(buffer);
        let s = text.as_str();
        let t = s.as_bytes();
        match read_binary_window(t, 0, t.len() as u64) {
            WindowRead::Unreadable => Err(IndexError::Malformed),
            WindowRead::NoRecord => Ok(None),
            WindowRead::Record(r) => {
                let size = r.binary_data.size;
                let data = r.binary_data.data;
                let name = r.ref_name;
                let ghost rv = binary_record(t@, 0, t@.len() as int).unwrap();
                self.records.push(
                    BinaryRef {
                        ref_name: name.clone(),
                        binary_data: BinaryData {
                            size,
                            data: vec![0x73u8, 0x61, 0x6d, 0x70, 0x6c, 0x65],
                        },
                    },
                );
                self.total_size = self.total_size + 1;
                assert(self.records@.drop_last() =~= old(self).records@);
                if size == DUMP_SIZE && *dumped <= DUMP_LIMIT {
                    match decode_base64(data.as_bytes()) {
                        Ok(json) => {
                            let mut file_name = name;
                            file_name.append(".json");
                            proof {
                                reveal_strlit(".json");
                                assert(file_name@ =~= dump_name(rv.ref_name));
                            }
                            *dumped = *dumped + 1;
                            Ok(Some(JsonDump { file_name, json }))
                        },
                        Err(e) => Err(IndexError::BadBase64(e)),
                    }
                } else {
                    Ok(None)
                }
            },
        }
    }

    /// Orders the records by size, largest first; records of equal size end
    /// up in the reverse of their earlier order.
    pub fn sort_by_size(&mut self)
        ensures
            exists|p: Seq<int>| sorted_by_size(old(self).record_list(), final(self).record_list(), p),
            final(self).sink() == old(self).sink(),
            final(self).kept_count() == old(self).kept_count(),
    {
        let ghost orig = self.records@;
        let mut sorted: Vec<BinaryRef> = Vec::new();
        let ghost mut p: Seq<int> = Seq::empty();
        while self.records.len() > 0
            invariant
                self.records@ == orig.take(self.records@.len() as int),
                self.records@.len() <= orig.len(),
                self.index_sink == old(self).index_sink,
                self.total_size == old(self).total_size,
                sorted@.len() + self.records@.len() == orig.len(),
                p.len() == sorted@.len(),
                forall|i: int|
                    0 <= i < p.len() ==> self.records@.len() <= #[trigger] p[i] < orig.len()
                        && sorted@[i] == orig[p[i]],
                forall|i: int, j: int| 0 <= i < j < p.len() ==> #[trigger] p[i] != #[trigger] p[j],
                forall|i: int, j: int|
                    0 <= i < j < sorted@.len() ==> #[trigger] sorted@[i].size()
                        > #[trigger] sorted@[j].size() || (sorted@[i].size()
                        == sorted@[j].size() && p[i] > p[j]),
            decreases self.records@.len(),
        {
            let ghost q = self.records@.len() - 1;
            let x = match self.records.pop() {
                Some(x) => x,
                None => {
                    proof {
                        assert(false);
                    }
                    return;
                },
            };
            assert(x == orig[q]);
            assert(self.records@ =~= orig.take(q));
            let size = x.binary_data.size;
            let mut pos: usize = 0;
            while pos < sorted.len() && sorted[pos].binary_data.size >= size
                invariant
                    pos <= sorted@.len(),
                    forall|k: int| 0 <= k < pos ==> sorted@[k].size() >= size,
                decreases sorted@.len() - pos,
            {
                pos = pos + 1;
            }
            let ghost before = sorted@;
            let ghost pb = p;
            sorted.insert(pos, x);
            proof {
                p = pb.insert(pos as int, q);
                assert forall|i: int, j: int| 0 <= i < j < sorted@.len() implies #[trigger] sorted@[i].size()
                    > #[trigger] sorted@[j].size() || (sorted@[i].size()
                    == sorted@[j].size() && p[i] > p[j]) by {
                    if i < pos && j == pos {
                        assert(sorted@[i] == before[i]);
                    } else if i == pos && j > pos {
                        assert(sorted@[j] == before[j - 1]);
                        if pos < before.len() {
                            assert(before[pos as int].size() < size);
                            if j - 1 > pos {
                                assert(before[pos as int].size() >= before[j - 1].size());
                            }
                        }
                    } else if i < pos && j > pos {
                        assert(sorted@[i] == before[i]);
                        assert(sorted@[j] == before[j - 1]);
                    } else if j < pos {
                        assert(sorted@[i] == before[i]);
                        assert(sorted@[j] == before[j]);
                    } else {
                        assert(sorted@[i] == before[i - 1]);
                        assert(sorted@[j] == before[j - 1]);
                    }
                }
            }
        }
        self.records = sorted;
        assert(sorted_by_size(old(self).record_list(), self.record_list(), p));
    }
}

} // verus!
