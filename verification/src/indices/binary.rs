//! The index of the dump's binary records. Each record is a window of the
//! dump that starts at a matched `=binary:NAME` line and runs to the next
//! matched line; its second line is `SIZE:DATA`, with the size in hexadecimal.
use crate::indices::global::{has_empty_line, line_entries, IndexSink};
use crate::search::{line_views, matched_lines, pattern_accepted, search_lines};
use crate::text::{
    chars_of, find_byte, find_byte_in, first_line, lemma_find_byte, lemma_find_byte_at,
    lemma_line_end_at, lemma_line_ends, lemma_starts_char_after_ascii, line_end, line_ends_at,
    parse_hex, parse_hex_usize, starts_char, sub_text, utf8_text, CARRIAGE_RETURN, COLON, NEWLINE,
};
use vstd::hash_map::StringHashMap;
use vstd::prelude::*;
use vstd::utf8::*;

verus! {

/// Declares `std::io::Error`, the error type of `BinaryIndex::index`.
#[verifier::external_type_specification]
#[verifier::external_body]
pub struct ExIoError(std::io::Error);

pub struct BinaryData<'a> {
    pub size: usize,
    pub data: &'a str,
}

pub struct RabbitFraming {
    pub ref_name: String,
    pub message_parts: String,
}

pub struct BinaryRef<'a> {
    pub ref_name: String,
    pub binary_data: BinaryData<'a>,
}

/// A binary record as plain values.
pub struct BinaryRefView {
    pub ref_name: Seq<char>,
    pub size: usize,
    pub data: Seq<char>,
}

impl<'a> View for BinaryRef<'a> {
    type V = BinaryRefView;

    open spec fn view(&self) -> BinaryRefView {
        BinaryRefView {
            ref_name: self.ref_name@,
            size: self.binary_data.size,
            data: self.binary_data.data@,
        }
    }
}

pub struct BinaryIndex<'a> {
    pub total_size: usize,
    pub index_sink: IndexSink,
    pub binary_refs: StringHashMap<BinaryRef<'a>>,
    pub mmap: &'a [u8],
}

/// The record that the window `b[lo..hi)` holds. Its first line gives the
/// name, after the line's first `:`; its second line gives the size, in
/// hexadecimal before the line's first `:`, and the data after it. There is
/// none when either line has no `:`.
pub open spec fn binary_record(b: Seq<u8>, lo: int, hi: int) -> Option<BinaryRefView> {
    let e0 = line_end(b, lo, hi);
    let c0 = find_byte(b, COLON, lo, e0);
    let n0 = find_byte(b, NEWLINE, lo, hi) + 1;
    let e1 = line_end(b, n0, hi);
    let c1 = find_byte(b, COLON, n0, e1);
    if c0 < e0 && c1 < e1 {
        Some(
            BinaryRefView {
                ref_name: chars_of(b, c0 + 1, e0),
                size: parse_hex_usize(b, n0, c1).unwrap(),
                data: chars_of(b, c1 + 1, e1),
            },
        )
    } else {
        None
    }
}

/// The window `b[lo..hi)` can be read as a record: it is a non-empty part of
/// `b` and valid UTF-8; when its first line has a `:`, a second line follows;
/// and when that line has a `:`, the text before it is a hexadecimal number
/// that fits a `usize`.
pub open spec fn binary_window_readable(b: Seq<u8>, lo: int, hi: int) -> bool {
    let e0 = line_end(b, lo, hi);
    let c0 = find_byte(b, COLON, lo, e0);
    let n0 = find_byte(b, NEWLINE, lo, hi) + 1;
    let e1 = line_end(b, n0, hi);
    let c1 = find_byte(b, COLON, n0, e1);
    &&& 0 <= lo < hi <= b.len()
    &&& valid_utf8(b.subrange(lo, hi))
    &&& c0 < e0 ==> n0 < hi
    &&& c0 < e0 && c1 < e1 ==> parse_hex_usize(b, n0, c1) is Some
}

/// `c` is the first `:` of `b[lo..e)`.
pub open spec fn first_colon_at(b: Seq<u8>, lo: int, e: int, c: int) -> bool {
    &&& lo <= c < e
    &&& b[c] == COLON
    &&& forall|k: int| lo <= k < c ==> b[k] != COLON
}

/// The second line of `b[lo..hi)` starts at `n`, just after the window's
/// first newline.
pub open spec fn second_line_at(b: Seq<u8>, lo: int, hi: int, n: int) -> bool {
    &&& lo < n <= hi
    &&& b[n - 1] == NEWLINE
    &&& forall|k: int| lo <= k < n - 1 ==> b[k] != NEWLINE
}

/// The window `b[lo..hi)` is laid out as a record: its first line ends at
/// `e0` and has its first `:` at `c0`; its second line starts at `n1`, ends
/// at `e1` and has its first `:` at `c1`.
pub open spec fn record_layout(
    b: Seq<u8>,
    lo: int,
    hi: int,
    c0: int,
    e0: int,
    n1: int,
    c1: int,
    e1: int,
) -> bool {
    &&& line_ends_at(b, lo, hi, e0)
    &&& first_colon_at(b, lo, e0, c0)
    &&& second_line_at(b, lo, hi, n1)
    &&& line_ends_at(b, n1, hi, e1)
    &&& first_colon_at(b, n1, e1, c1)
}

/// A window laid out as a record holds the record whose name is the whole
/// text of the first line after its first `:`, whose size is the hexadecimal
/// number that the second line spells before its first `:`, and whose data is
/// the whole text of the second line after that `:`.
pub proof fn lemma_binary_record_fields(
    b: Seq<u8>,
    lo: int,
    hi: int,
    c0: int,
    e0: int,
    n1: int,
    c1: int,
    e1: int,
)
    requires
        record_layout(b, lo, hi, c0, e0, n1, c1, e1),
    ensures
        binary_record(b, lo, hi) == Some(
            BinaryRefView {
                ref_name: chars_of(b, c0 + 1, e0),
                size: parse_hex_usize(b, n1, c1).unwrap(),
                data: chars_of(b, c1 + 1, e1),
            },
        ),
{
    lemma_line_end_at(b, lo, hi, e0);
    lemma_find_byte_at(b, COLON, lo, e0, c0);
    lemma_find_byte_at(b, NEWLINE, lo, hi, n1 - 1);
    lemma_line_end_at(b, n1, hi, e1);
    lemma_find_byte_at(b, COLON, n1, e1, c1);
}

/// A window holds a record exactly when it is laid out as one: both of its
/// first two lines have a `:`.
pub proof fn lemma_binary_record_layout(b: Seq<u8>, lo: int, hi: int)
    requires
        lo <= hi,
    ensures
        binary_record(b, lo, hi) is Some <==> exists|c0: int, e0: int, n1: int, c1: int, e1: int|
            #[trigger] record_layout(b, lo, hi, c0, e0, n1, c1, e1),
{
    let e0 = line_end(b, lo, hi);
    let c0 = find_byte(b, COLON, lo, e0);
    let p = find_byte(b, NEWLINE, lo, hi);
    let n1 = p + 1;
    let e1 = line_end(b, n1, hi);
    let c1 = find_byte(b, COLON, n1, e1);
    lemma_line_ends(b, lo, hi);
    lemma_find_byte(b, COLON, lo, e0);
    lemma_find_byte(b, NEWLINE, lo, hi);
    if binary_record(b, lo, hi) is Some {
        if p == hi {
            assert(e1 == hi);
            assert(c1 == hi);
        }
        assert(p < hi);
        lemma_line_ends(b, n1, hi);
        lemma_find_byte(b, COLON, n1, e1);
        assert(record_layout(b, lo, hi, c0, e0, n1, c1, e1));
    }
    if exists|c0: int, e0: int, n1: int, c1: int, e1: int|
        #[trigger] record_layout(b, lo, hi, c0, e0, n1, c1, e1) {
        let (c0, e0, n1, c1, e1) = choose|c0: int, e0: int, n1: int, c1: int, e1: int|
            #[trigger] record_layout(b, lo, hi, c0, e0, n1, c1, e1);
        lemma_binary_record_fields(b, lo, hi, c0, e0, n1, c1, e1);
    }
}

/// The number of windows between consecutive offsets.
pub open spec fn window_count(offs: Seq<u64>) -> int {
    if offs.len() == 0 {
        0
    } else {
        offs.len() - 1
    }
}

/// The records of the first `k` windows entered into `refs`, each under its
/// name, in window order (a later record replaces an earlier one of the same
/// name).
pub open spec fn indexed_refs(
    refs: Map<Seq<char>, BinaryRefView>,
    b: Seq<u8>,
    offs: Seq<u64>,
    k: int,
) -> Map<Seq<char>, BinaryRefView>
    decreases k,
{
    if k <= 0 {
        refs
    } else {
        let prev = indexed_refs(refs, b, offs, k - 1);
        match binary_record(b, offs[k - 1] as int, offs[k] as int) {
            Some(r) => prev.insert(r.ref_name, r),
            None => prev,
        }
    }
}

/// The sum of the sizes of the records in the first `k` windows.
pub open spec fn indexed_size(b: Seq<u8>, offs: Seq<u64>, k: int) -> nat
    decreases k,
{
    if k <= 0 {
        0
    } else {
        let prev = indexed_size(b, offs, k - 1);
        match binary_record(b, offs[k - 1] as int, offs[k] as int) {
            Some(r) => prev + r.size as nat,
            None => prev,
        }
    }
}

proof fn lemma_indexed_size_grows(b: Seq<u8>, offs: Seq<u64>, j: int, k: int)
    requires
        j <= k,
    ensures
        indexed_size(b, offs, j) <= indexed_size(b, offs, k),
    decreases k - j,
{
    if j < k {
        lemma_indexed_size_grows(b, offs, j, k - 1);
    }
}

/// Indexing keeps every record under its own name: when each entry of `refs`
/// is stored under its record's name, so is each entry after the first `k`
/// windows are entered.
pub proof fn lemma_index_names_match_keys(
    refs: Map<Seq<char>, BinaryRefView>,
    b: Seq<u8>,
    offs: Seq<u64>,
    k: int,
)
    requires
        forall|n: Seq<char>| #[trigger] refs.contains_key(n) ==> refs[n].ref_name == n,
    ensures
        forall|n: Seq<char>| #[trigger] indexed_refs(refs, b, offs, k).contains_key(n)
            ==> indexed_refs(refs, b, offs, k)[n].ref_name == n,
    decreases k,
{
    if k > 0 {
        lemma_index_names_match_keys(refs, b, offs, k - 1);
        let prev = indexed_refs(refs, b, offs, k - 1);
        assert forall|n: Seq<char>| #[trigger] indexed_refs(refs, b, offs, k).contains_key(n) implies indexed_refs(
            refs,
            b,
            offs,
            k,
        )[n].ref_name == n by {
            if let Some(r) = binary_record(b, offs[k - 1] as int, offs[k] as int) {
                if n != r.ref_name {
                    assert(prev.contains_key(n));
                }
            } else {
                assert(prev.contains_key(n));
            }
        }
    }
}

/// A look-up after indexing gives back the record of the last window, among
/// the first `k`, that bears the name; a name that none of them bears keeps
/// what `refs` had for it.
pub proof fn lemma_index_keeps_last_record(
    refs: Map<Seq<char>, BinaryRefView>,
    b: Seq<u8>,
    offs: Seq<u64>,
    k: int,
    name: Seq<char>,
)
    ensures
        (forall|i: int|
            0 <= i < k ==> !(#[trigger] binary_record(b, offs[i] as int, offs[i + 1] as int) matches Some(
                r,
            ) && r.ref_name == name)) ==> {
            &&& indexed_refs(refs, b, offs, k).contains_key(name) == refs.contains_key(name)
            &&& refs.contains_key(name) ==> indexed_refs(refs, b, offs, k)[name] == refs[name]
        },
        forall|i: int|
            0 <= i < k && (#[trigger] binary_record(b, offs[i] as int, offs[i + 1] as int) matches Some(
                r,
            ) && r.ref_name == name) && (forall|j: int|
                i < j < k ==> !(#[trigger] binary_record(b, offs[j] as int, offs[j + 1] as int) matches Some(
                    s,
                ) && s.ref_name == name)) ==> {
                &&& indexed_refs(refs, b, offs, k).contains_key(name)
                &&& Some(indexed_refs(refs, b, offs, k)[name]) == binary_record(
                    b,
                    offs[i] as int,
                    offs[i + 1] as int,
                )
            },
    decreases k,
{
    if k > 0 {
        lemma_index_keeps_last_record(refs, b, offs, k - 1, name);
        let last = binary_record(b, offs[k - 1] as int, offs[k] as int);
        assert forall|i: int|
            0 <= i < k && (#[trigger] binary_record(b, offs[i] as int, offs[i + 1] as int) matches Some(
                r,
            ) && r.ref_name == name) && (forall|j: int|
                i < j < k ==> !(#[trigger] binary_record(b, offs[j] as int, offs[j + 1] as int) matches Some(
                    s,
                ) && s.ref_name == name)) implies {
                &&& indexed_refs(refs, b, offs, k).contains_key(name)
                &&& Some(indexed_refs(refs, b, offs, k)[name]) == binary_record(
                    b,
                    offs[i] as int,
                    offs[i + 1] as int,
                )
            } by {
            if i < k - 1 {
                assert(!(binary_record(b, offs[k - 1] as int, offs[k - 1 + 1] as int) matches Some(
                    s,
                ) && s.ref_name == name));
            }
        }
    }
}

proof fn lemma_indexed_refs_union(
    refs: Map<Seq<char>, BinaryRefView>,
    b: Seq<u8>,
    offs: Seq<u64>,
    k: int,
)
    ensures
        indexed_refs(refs, b, offs, k) == refs.union_prefer_right(
            indexed_refs(Map::empty(), b, offs, k),
        ),
    decreases k,
{
    if k > 0 {
        lemma_indexed_refs_union(refs, b, offs, k - 1);
        assert(indexed_refs(refs, b, offs, k) =~= refs.union_prefer_right(
            indexed_refs(Map::empty(), b, offs, k),
        ));
    } else {
        assert(refs.union_prefer_right(Map::empty()) =~= refs);
    }
}

/// Indexing the same windows again enters the same records over them, so the
/// map stays what the first indexing left. (`index` adds the records' sizes
/// to `total_size` each time: see its `ensures`.)
pub proof fn lemma_index_twice(
    refs: Map<Seq<char>, BinaryRefView>,
    b: Seq<u8>,
    offs: Seq<u64>,
    k: int,
)
    ensures
        indexed_refs(indexed_refs(refs, b, offs, k), b, offs, k) == indexed_refs(refs, b, offs, k),
{
    let w = indexed_refs(Map::empty(), b, offs, k);
    lemma_indexed_refs_union(refs, b, offs, k);
    lemma_indexed_refs_union(indexed_refs(refs, b, offs, k), b, offs, k);
    assert(refs.union_prefer_right(w).union_prefer_right(w) =~= refs.union_prefer_right(w));
}

/// What reading one window gives.
pub enum WindowRead<'a> {
    /// The window cannot be read as a record (see `binary_window_readable`).
    Unreadable,
    /// The window can be read but holds no record.
    NoRecord,
    /// The window holds this record.
    Record(BinaryRef<'a>),
}

/// A field that runs from just after a `:` at `c` to a line terminator (or
/// the window's end) at `e` lies on character boundaries of the window's text.
proof fn lemma_field_bounds(b: Seq<u8>, lo: int, hi: int, c: int, e: int)
    requires
        0 <= lo <= c < e <= hi <= b.len(),
        valid_utf8(b.subrange(lo, hi)),
        b[c] == COLON,
        e < hi ==> b[e] == NEWLINE || b[e] == CARRIAGE_RETURN,
    ensures
        starts_char(b.subrange(lo, hi), c + 1 - lo),
        starts_char(b.subrange(lo, hi), e - lo),
        b.subrange(lo, hi).subrange(c + 1 - lo, e - lo) == b.subrange(c + 1, e),
{
    let t = b.subrange(lo, hi);
    assert(t[c - lo] == COLON);
    lemma_starts_char_after_ascii(t, c + 1 - lo);
    if e < hi {
        assert(t[e - lo] == b[e]);
    }
    assert(t.subrange(c + 1 - lo, e - lo) =~= b.subrange(c + 1, e));
}

/// Reads the window `b[lo..hi)`.
pub fn read_binary_window<'a>(b: &'a [u8], lo: u64, hi: u64) -> (r: WindowRead<'a>)
    ensures
        r is Unreadable <==> !binary_window_readable(b@, lo as int, hi as int),
        r is NoRecord <==> binary_window_readable(b@, lo as int, hi as int) && binary_record(
            b@,
            lo as int,
            hi as int,
        ) is None,
        r matches WindowRead::Record(x) ==> binary_window_readable(b@, lo as int, hi as int)
            && binary_record(b@, lo as int, hi as int) == Some(x@),
{
    if lo >= hi || hi > b.len() as u64 {
        return WindowRead::Unreadable;
    }
    let lo = lo as usize;
    let hi = hi as usize;
    let text = match utf8_text(&b[lo..hi]) {
        Some(t) => t,
        None => {
            return WindowRead::Unreadable;
        },
    };
    let ghost t = b@.subrange(lo as int, hi as int);
    proof {
        encode_utf8_valid_utf8(text@);
        lemma_find_byte(b@, NEWLINE, lo as int, hi as int);
    }
    let (e0, nl0) = first_line(b, lo, hi);
    let c0 = find_byte_in(b, COLON, lo, e0);
    proof {
        lemma_find_byte(b@, COLON, lo as int, e0 as int);
    }
    if c0 == e0 {
        return WindowRead::NoRecord;
    }
    if nl0 >= hi - 1 {
        return WindowRead::Unreadable;
    }
    let n0 = nl0 + 1;
    let (e1, nl1) = first_line(b, n0, hi);
    let c1 = find_byte_in(b, COLON, n0, e1);
    proof {
        lemma_find_byte(b@, COLON, n0 as int, e1 as int);
        lemma_find_byte(b@, NEWLINE, n0 as int, hi as int);
    }
    if c1 == e1 {
        return WindowRead::NoRecord;
    }
    let size = match parse_hex(b, n0, c1) {
        Some(v) => v,
        None => {
            return WindowRead::Unreadable;
        },
    };
    proof {
        lemma_field_bounds(b@, lo as int, hi as int, c0 as int, e0 as int);
        lemma_field_bounds(b@, lo as int, hi as int, c1 as int, e1 as int);
    }
    let name = sub_text(text, c0 + 1 - lo, e0 - lo);
    let data = sub_text(text, c1 + 1 - lo, e1 - lo);
    WindowRead::Record(
        BinaryRef { ref_name: name.to_owned(), binary_data: BinaryData { size, data } },
    )
}

impl<'a> BinaryIndex<'a> {
    /// The records by name, as plain values.
    pub open spec fn refs(&self) -> Map<Seq<char>, BinaryRefView> {
        self.binary_refs@.map_values(|r: BinaryRef<'a>| r@)
    }

    /// `index` can read every window between consecutive matched lines, and
    /// the sizes of their records added to `total_size` fit a `usize`.
    pub open spec fn index_readable(&self) -> bool {
        let offs = self.index_sink.offsets();
        &&& forall|i: int|
            0 <= i < window_count(offs) ==> #[trigger] binary_window_readable(
                self.mmap@,
                offs[i] as int,
                offs[i + 1] as int,
            )
        &&& self.total_size + indexed_size(self.mmap@, offs, window_count(offs)) <= usize::MAX
    }

    pub fn new(mmap: &'a [u8]) -> (r: Self)
        ensures
            r.mmap == mmap,
            r.total_size == 0,
            r.index_sink@.len() == 0,
            r.binary_refs@ == Map::<Seq<char>, BinaryRef<'a>>::empty(),
    {
        Self { mmap: mmap, total_size: 0, index_sink: IndexSink::new(), binary_refs: StringHashMap::new() }
    }

    /// Finds the lines of the data that start with `=binary` and records
    /// them, with their tags, after those already recorded. Succeeds exactly
    /// when the search's pattern is accepted; otherwise records nothing.
    pub fn build(&mut self) -> (ok: bool)
        ensures
            ok == pattern_accepted("^=binary.*"@),
            final(self).mmap == old(self).mmap,
            final(self).total_size == old(self).total_size,
            final(self).binary_refs@ == old(self).binary_refs@,
            ok ==> final(self).index_sink@ == old(self).index_sink@ + line_entries(
                matched_lines("^=binary.*"@, old(self).mmap@),
            ),
            !ok ==> final(self).index_sink == old(self).index_sink,
    {
        match search_lines("^=binary.*", self.mmap) {
            Ok(lines) => {
                assert(!has_empty_line(line_views(lines@)));
                self.index_sink.record_lines(&lines)
            },
            Err(_) => false,
        }
    }

    /// Whether `index` can run on this index (`index_readable`).
    pub fn can_index(&self) -> (ok: bool)
        ensures
            ok == self.index_readable(),
    {
        let count = self.index_sink.matches.len();
        let ghost offs = self.index_sink.offsets();
        let ghost b = self.mmap@;
        let ghost windows = window_count(offs);
        if count < 2 {
            return true;
        }
        let mut total = self.total_size;
        let mut k: usize = 0;
        while k + 1 < count
            invariant
                count == offs.len(),
                count >= 2,
                windows == count - 1,
                k + 1 <= count,
                offs == self.index_sink.offsets(),
                b == self.mmap@,
                forall|i: int| 0 <= i < k ==> #[trigger] binary_window_readable(b, offs[i] as int, offs[i + 1] as int),
                total == self.total_size + indexed_size(b, offs, k as int),
            decreases count - k,
        {
            let lo = self.index_sink.matches[k].1;
            let hi = self.index_sink.matches[k + 1].1;
            assert(lo == offs[k as int] && hi == offs[k + 1]);
            match read_binary_window(self.mmap, lo, hi) {
                WindowRead::Unreadable => {
                    return false;
                },
                WindowRead::NoRecord => {},
                WindowRead::Record(r) => {
                    if total > usize::MAX - r.binary_data.size {
                        proof {
                            lemma_indexed_size_grows(b, offs, k + 1, windows);
                        }
                        return false;
                    }
                    total = total + r.binary_data.size;
                },
            }
            k = k + 1;
        }
        true
    }

    /// Reads every window between consecutive matched lines and enters its
    /// record, if any, under its name; adds the records' sizes to
    /// `total_size`.
    pub fn index(&mut self) -> (res: Result<bool, std::io::Error>)
        requires
            old(self).index_readable(),
        ensures
            res matches Ok(ok) && ok,
            final(self).refs() == indexed_refs(
                old(self).refs(),
                old(self).mmap@,
                old(self).index_sink.offsets(),
                window_count(old(self).index_sink.offsets()),
            ),
            final(self).total_size == old(self).total_size + indexed_size(
                old(self).mmap@,
                old(self).index_sink.offsets(),
                window_count(old(self).index_sink.offsets()),
            ),
            final(self).mmap == old(self).mmap,
            final(self).index_sink == old(self).index_sink,
    {
        let count = self.index_sink.matches.len();
        let ghost offs = self.index_sink.offsets();
        let ghost b = self.mmap@;
        let ghost windows = window_count(offs);
        let mut k: usize = 0;
        while k + 1 < count
            invariant
                count == offs.len(),
                windows == window_count(offs),
                count >= 1 ==> k + 1 <= count,
                count == 0 ==> k == 0,
                offs == self.index_sink.offsets(),
                b == self.mmap@,
                self.mmap == old(self).mmap,
                self.index_sink == old(self).index_sink,
                forall|i: int| 0 <= i < windows ==> #[trigger] binary_window_readable(b, offs[i] as int, offs[i + 1] as int),
                old(self).total_size + indexed_size(b, offs, windows) <= usize::MAX,
                self.refs() == indexed_refs(old(self).refs(), b, offs, k as int),
                self.total_size == old(self).total_size + indexed_size(b, offs, k as int),
            decreases count - k,
        {
            let lo = self.index_sink.matches[k].1;
            let hi = self.index_sink.matches[k + 1].1;
            assert(lo == offs[k as int] && hi == offs[k + 1]);
            assert(binary_window_readable(b, offs[k as int] as int, offs[k + 1] as int));
            match read_binary_window(self.mmap, lo, hi) {
                WindowRead::Unreadable => {},
                WindowRead::NoRecord => {},
                WindowRead::Record(r) => {
                    proof {
                        lemma_indexed_size_grows(b, offs, k + 1, windows);
                    }
                    self.total_size = self.total_size + r.binary_data.size;
                    let key = r.ref_name.clone();
                    let ghost rv = r@;
                    self.binary_refs.insert(key, r);
                    assert(self.refs() =~= indexed_refs(old(self).refs(), b, offs, k + 1));
                },
            }
            k = k + 1;
        }
        proof {
            if count >= 1 {
                assert(k + 1 == count);
            }
        }
        Ok(true)
    }

    pub fn get_ref_by_name(&self, ref_name: &str) -> (r: Option<&BinaryRef<'a>>)
        ensures
            match r {
                Some(v) => self.binary_refs@.contains_key(ref_name@) && *v
                    == self.binary_refs@[ref_name@],
                None => !self.binary_refs@.contains_key(ref_name@),
            },
    {
        self.binary_refs.get(ref_name)
    }
}

} // verus!
