//! The index of the dump's process-heap `content` entries, and the messages
//! they spell out of the binary records.
use crate::indices::binary::{first_colon_at, window_count, BinaryRef};
use crate::indices::global::{has_empty_line, line_entries, IndexSink};
use crate::search::{line_views, matched_lines, pattern_accepted, search_lines, SearchError};
use crate::text::{
    chars_of, find_byte, find_byte_in, first_line, hex_or_zero, lemma_find_byte, lemma_find_byte_at,
    lemma_starts_char_after_ascii, line_end, parse_hex, sub_text, trim_chars,
    trim_text, utf8_text, CARRIAGE_RETURN, COLON, NEWLINE,
};
use vstd::hash_map::StringHashMap;
use vstd::prelude::*;
use vstd::string::*;
use vstd::utf8::*;

verus! {

/// Declares `grep_regex::Error`, the error type of `ContentIndex::get_messages`.
#[verifier::external_type_specification]
#[verifier::external_body]
pub struct ExRegexError(grep_regex::Error);

pub const LETTER_Y: u8 = 0x59;

pub const LETTER_C: u8 = 0x63;

#[derive(Debug)]
pub enum NodeValue {
    Link { left: String, right: Option<String> },
    Data { address: String, offset: usize, size: usize },
}

/// A node as plain values.
pub enum NodeView {
    Link { left: Seq<char>, right: Option<Seq<char>> },
    Data { address: Seq<char>, offset: usize, size: usize },
}

impl View for NodeValue {
    type V = NodeView;

    open spec fn view(&self) -> NodeView {
        match self {
            NodeValue::Link { left, right } => NodeView::Link {
                left: left@,
                right: match right {
                    Some(r) => Some(r@),
                    None => None,
                },
            },
            NodeValue::Data { address, offset, size } => NodeView::Data {
                address: address@,
                offset: *offset,
                size: *size,
            },
        }
    }
}

pub struct ContentIndex<'a> {
    pub index_sink: IndexSink,
    pub mmap: &'a [u8],
}

/// Where the prefix `Yc`, repeated, ends in `b[a..hi)`.
pub open spec fn strip_yc(b: Seq<u8>, a: int, hi: int) -> int
    decreases hi - a,
{
    if a + 2 <= hi && b[a] == LETTER_Y && b[a + 1] == LETTER_C {
        strip_yc(b, a + 2, hi)
    } else {
        a
    }
}

/// The node that the line `b[s..e)` describes: a line `KEY:VALUE` whose value
/// starts with `Yc` and has at least three `:`-separated parts gives a data
/// node whose address is the first part without its leading `Yc`s, and whose
/// offset and size are the second and third parts read as hexadecimal (0 when
/// they are not).
pub open spec fn line_node(b: Seq<u8>, s: int, e: int) -> Option<NodeView> {
    let v = find_byte(b, COLON, s, e) + 1;
    let p1 = find_byte(b, COLON, v, e);
    let p2 = find_byte(b, COLON, p1 + 1, e);
    let p3 = find_byte(b, COLON, p2 + 1, e);
    if v <= e && v + 2 <= e && b[v] == LETTER_Y && b[v + 1] == LETTER_C && p1 < e && p2 < e {
        Some(
            NodeView::Data {
                address: chars_of(b, strip_yc(b, v, p1), p1),
                offset: hex_or_zero(b, p1 + 1, p2),
                size: hex_or_zero(b, p2 + 1, p3),
            },
        )
    } else {
        None
    }
}

/// The nodes that the lines of `b[lo..hi)` describe, in order.
pub open spec fn data_nodes(b: Seq<u8>, lo: int, hi: int) -> Seq<NodeView>
    decreases hi - lo,
{
    if lo >= hi {
        Seq::empty()
    } else {
        let nl = find_byte(b, NEWLINE, lo, hi);
        let here = match line_node(b, lo, line_end(b, lo, hi)) {
            Some(x) => seq![x],
            None => Seq::empty(),
        };
        if nl < hi {
            proof {
                lemma_find_byte(b, NEWLINE, lo, hi);
            }
            here + data_nodes(b, nl + 1, hi)
        } else {
            here
        }
    }
}

/// Whether `Yc` starts at `k`.
pub open spec fn yc_at(b: Seq<u8>, k: int) -> bool {
    b[k] == LETTER_Y && b[k + 1] == LETTER_C
}

/// `z` is where the leading `Yc`s of `b[a..hi)` end: `b[a..z)` is `Yc`
/// repeated, and no further `Yc` starts at `z` within the window.
pub open spec fn yc_run_end(b: Seq<u8>, a: int, hi: int, z: int) -> bool {
    &&& a <= z <= hi
    &&& (z - a) % 2 == 0
    &&& forall|k: int| a <= k < z && (k - a) % 2 == 0 ==> #[trigger] yc_at(b, k)
    &&& !(z + 2 <= hi && yc_at(b, z))
}

proof fn lemma_strip_yc_at(b: Seq<u8>, a: int, hi: int, z: int)
    requires
        yc_run_end(b, a, hi, z),
    ensures
        strip_yc(b, a, hi) == z,
    decreases z - a,
{
    if z > a {
        assert(yc_at(b, a));
        assert(yc_run_end(b, a + 2, hi, z)) by {
            assert forall|k: int| a + 2 <= k < z && (k - (a + 2)) % 2 == 0 implies #[trigger] yc_at(
                b,
                k,
            ) by {
                assert((k - a) % 2 == 0);
            }
        }
        lemma_strip_yc_at(b, a + 2, hi, z);
    }
}

proof fn lemma_strip_yc_run(b: Seq<u8>, a: int, hi: int)
    requires
        a <= hi,
    ensures
        yc_run_end(b, a, hi, strip_yc(b, a, hi)),
    decreases hi - a,
{
    if a + 2 <= hi && b[a] == LETTER_Y && b[a + 1] == LETTER_C {
        lemma_strip_yc_run(b, a + 2, hi);
        let z = strip_yc(b, a, hi);
        assert forall|k: int| a <= k < z && (k - a) % 2 == 0 implies #[trigger] yc_at(b, k) by {
            if k >= a + 2 {
                assert((k - (a + 2)) % 2 == 0);
            }
        }
    }
}

/// `p` is the first `:` of `b[lo..e)`, or `e` when there is none.
pub open spec fn colon_or_end_at(b: Seq<u8>, lo: int, e: int, p: int) -> bool {
    &&& lo <= p <= e
    &&& p < e ==> b[p] == COLON
    &&& forall|k: int| lo <= k < p ==> b[k] != COLON
}

/// The line `b[s..e)` is laid out as a data node: its first `:` is at `c`,
/// the value after it starts with `Yc`, and the value's first three
/// `:`-separated parts end at `p1`, `p2` and `p3` (`p3` is the line's end
/// when the value has no third `:`).
pub open spec fn node_layout(b: Seq<u8>, s: int, e: int, c: int, p1: int, p2: int, p3: int) -> bool {
    &&& first_colon_at(b, s, e, c)
    &&& c + 3 <= e
    &&& yc_at(b, c + 1)
    &&& first_colon_at(b, c + 1, e, p1)
    &&& first_colon_at(b, p1 + 1, e, p2)
    &&& colon_or_end_at(b, p2 + 1, e, p3)
}

/// A line laid out as a data node describes the node whose address is the
/// value's first part without its leading `Yc`s (which end at `z`), and whose
/// offset and size are the second and third parts read as hexadecimal, 0
/// when they are not.
pub proof fn lemma_line_node_fields(
    b: Seq<u8>,
    s: int,
    e: int,
    c: int,
    p1: int,
    p2: int,
    p3: int,
    z: int,
)
    requires
        node_layout(b, s, e, c, p1, p2, p3),
        yc_run_end(b, c + 1, p1, z),
    ensures
        line_node(b, s, e) == Some(
            NodeView::Data {
                address: chars_of(b, z, p1),
                offset: hex_or_zero(b, p1 + 1, p2),
                size: hex_or_zero(b, p2 + 1, p3),
            },
        ),
{
    lemma_find_byte_at(b, COLON, s, e, c);
    lemma_find_byte_at(b, COLON, c + 1, e, p1);
    lemma_find_byte_at(b, COLON, p1 + 1, e, p2);
    lemma_find_byte_at(b, COLON, p2 + 1, e, p3);
    lemma_strip_yc_at(b, c + 1, p1, z);
}

/// A line describes a node exactly when it is laid out as a data node.
pub proof fn lemma_line_node_layout(b: Seq<u8>, s: int, e: int)
    requires
        s <= e,
    ensures
        line_node(b, s, e) is Some <==> exists|c: int, p1: int, p2: int, p3: int|
            #[trigger] node_layout(b, s, e, c, p1, p2, p3),
{
    let c = find_byte(b, COLON, s, e);
    let v = c + 1;
    lemma_find_byte(b, COLON, s, e);
    if line_node(b, s, e) is Some {
        let p1 = find_byte(b, COLON, v, e);
        let p2 = find_byte(b, COLON, p1 + 1, e);
        let p3 = find_byte(b, COLON, p2 + 1, e);
        lemma_find_byte(b, COLON, v, e);
        lemma_find_byte(b, COLON, p1 + 1, e);
        lemma_find_byte(b, COLON, p2 + 1, e);
        assert(node_layout(b, s, e, c, p1, p2, p3));
    }
    if exists|c: int, p1: int, p2: int, p3: int| #[trigger] node_layout(b, s, e, c, p1, p2, p3) {
        let (c, p1, p2, p3) = choose|c: int, p1: int, p2: int, p3: int|
            #[trigger] node_layout(b, s, e, c, p1, p2, p3);
        lemma_strip_yc_run(b, c + 1, p1);
        lemma_line_node_fields(b, s, e, c, p1, p2, p3, strip_yc(b, c + 1, p1));
    }
}

/// A window without a newline describes the node of its one line, if any.
pub proof fn lemma_data_nodes_one_line(b: Seq<u8>, lo: int, hi: int)
    requires
        lo <= hi,
        forall|k: int| lo <= k < hi ==> b[k] != NEWLINE,
    ensures
        data_nodes(b, lo, hi) == match line_node(b, lo, hi) {
            Some(x) => seq![x],
            None => Seq::empty(),
        },
{
    if lo < hi {
        lemma_find_byte_at(b, NEWLINE, lo, hi, hi);
    }
}

/// The nodes of a window are those of its text before a newline at `k` (a
/// carriage return just before that newline left out), followed by those of
/// its text after the newline.
pub proof fn lemma_data_nodes_split(b: Seq<u8>, lo: int, k: int, hi: int)
    requires
        lo <= k < hi,
        b[k] == NEWLINE,
    ensures
        data_nodes(b, lo, hi) == data_nodes(
            b,
            lo,
            if k > lo && b[k - 1] == CARRIAGE_RETURN {
                k - 1
            } else {
                k
            },
        ) + data_nodes(b, k + 1, hi),
    decreases k - lo,
{
    let e2 = if k > lo && b[k - 1] == CARRIAGE_RETURN {
        k - 1
    } else {
        k
    };
    let j = find_byte(b, NEWLINE, lo, hi);
    lemma_find_byte(b, NEWLINE, lo, hi);
    let here = match line_node(b, lo, line_end(b, lo, hi)) {
        Some(x) => seq![x],
        None => Seq::<NodeView>::empty(),
    };
    assert(data_nodes(b, lo, hi) == here + data_nodes(b, j + 1, hi));
    if j == k {
        assert(line_end(b, lo, hi) == e2);
        lemma_data_nodes_one_line(b, lo, e2);
    } else {
        assert(j < k);
        assert(j < e2);
        lemma_data_nodes_split(b, j + 1, k, hi);
        lemma_find_byte_at(b, NEWLINE, lo, e2, j);
        assert(line_end(b, lo, e2) == line_end(b, lo, hi));
        assert(data_nodes(b, lo, e2) == here + data_nodes(b, j + 1, e2));
        assert(data_nodes(b, lo, hi) =~= data_nodes(b, lo, e2) + data_nodes(b, k + 1, hi));
    }
}

/// The nodes of a text: those of the lines of the text without its leading
/// and trailing white space.
pub open spec fn content_nodes(text: Seq<char>) -> Seq<NodeView> {
    let t = encode_utf8(trim_chars(text));
    data_nodes(t, 0, t.len() as int)
}

/// The message that the nodes spell: the data of each node's binary record,
/// in node order, skipping nodes whose address names no record.
pub open spec fn message_text<'a>(
    nodes: Seq<NodeView>,
    refs: Map<Seq<char>, BinaryRef<'a>>,
) -> Seq<char>
    decreases nodes.len(),
{
    if nodes.len() == 0 {
        Seq::empty()
    } else {
        let prev = message_text(nodes.drop_last(), refs);
        match nodes.last() {
            NodeView::Data { address, .. } => if refs.contains_key(address) {
                prev + refs[address].binary_data.data@
            } else {
                prev
            },
            NodeView::Link { .. } => prev,
        }
    }
}

/// The message of the window `b[lo..hi)`.
pub open spec fn window_message<'a>(
    b: Seq<u8>,
    lo: int,
    hi: int,
    refs: Map<Seq<char>, BinaryRef<'a>>,
) -> Seq<char> {
    message_text(content_nodes(chars_of(b, lo, hi)), refs)
}

/// The length in bytes of a text, as `str::len` reports it.
pub open spec fn text_len(s: Seq<char>) -> usize {
    encode_utf8(s).len() as usize
}

/// The messages of the first `k` windows between consecutive offsets that
/// are longer than two bytes.
pub open spec fn long_messages<'a>(
    b: Seq<u8>,
    offs: Seq<u64>,
    refs: Map<Seq<char>, BinaryRef<'a>>,
    k: int,
) -> Seq<Seq<char>>
    decreases k,
{
    if k <= 0 {
        Seq::empty()
    } else {
        let prev = long_messages(b, offs, refs, k - 1);
        let m = window_message(b, offs[k - 1] as int, offs[k] as int, refs);
        if text_len(m) > 2 {
            prev.push(m)
        } else {
            prev
        }
    }
}

/// The messages of `b` with the content entries at `offs`: those of the
/// windows between consecutive entries that are longer than two bytes, then
/// that of the window from the last entry to the end of `b`, whatever its
/// length.
pub open spec fn content_messages<'a>(
    b: Seq<u8>,
    offs: Seq<u64>,
    refs: Map<Seq<char>, BinaryRef<'a>>,
) -> Seq<Seq<char>> {
    if offs.len() == 0 {
        Seq::empty()
    } else {
        long_messages(b, offs, refs, offs.len() - 1).push(
            window_message(b, offs.last() as int, b.len() as int, refs),
        )
    }
}

/// `b[lo..hi)` is a part of `b` and valid UTF-8.
#[verifier::opaque]
pub open spec fn text_window(b: Seq<u8>, lo: int, hi: int) -> bool {
    0 <= lo <= hi <= b.len() && valid_utf8(b.subrange(lo, hi))
}

/// The text of the window `b[lo..hi)`, if it is one (`text_window`).
fn window_text<'b>(b: &'b [u8], lo: u64, hi: u64) -> (r: Option<&'b str>)
    ensures
        r is Some <==> text_window(b@, lo as int, hi as int),
        r matches Some(t) ==> t@ == chars_of(b@, lo as int, hi as int),
{
    reveal(text_window);
    if lo > hi || hi > b.len() as u64 {
        return None;
    }
    let r = utf8_text(&b[lo as usize..hi as usize]);
    proof {
        if let Some(t) = r {
            encode_utf8_decode_utf8(t@);
        }
    }
    r
}

/// Every window between consecutive offsets, and the one from the last offset
/// to the end, is a part of `b` and valid UTF-8.
pub open spec fn text_windows_of(b: Seq<u8>, offs: Seq<u64>) -> bool {
    &&& forall|i: int|
        0 <= i < window_count(offs) ==> #[trigger] text_window(
            b,
            offs[i] as int,
            offs[i + 1] as int,
        )
    &&& offs.len() > 0 ==> text_window(b, offs.last() as int, b.len() as int)
}

/// The message of a run of nodes followed by another is the first run's
/// message followed by the second's.
pub proof fn lemma_message_text_concat<'a>(
    x: Seq<NodeView>,
    y: Seq<NodeView>,
    refs: Map<Seq<char>, BinaryRef<'a>>,
)
    ensures
        message_text(x + y, refs) == message_text(x, refs) + message_text(y, refs),
    decreases y.len(),
{
    if y.len() == 0 {
        assert(x + y =~= x);
    } else {
        lemma_message_text_concat(x, y.drop_last(), refs);
        assert((x + y).drop_last() =~= x + y.drop_last());
        assert((x + y).last() == y.last());
    }
}

proof fn lemma_long_messages_len<'a>(
    b: Seq<u8>,
    offs: Seq<u64>,
    refs: Map<Seq<char>, BinaryRef<'a>>,
    k: int,
)
    ensures
        long_messages(b, offs, refs, k).len() <= if k < 0 {
            0
        } else {
            k
        },
    decreases k,
{
    if k > 0 {
        lemma_long_messages_len(b, offs, refs, k - 1);
    }
}

/// There is at least one message, and at most one per content entry, exactly
/// when there are entries; the last message is that of the window from the
/// last entry to the end, whatever its length.
pub proof fn lemma_message_count<'a>(
    b: Seq<u8>,
    offs: Seq<u64>,
    refs: Map<Seq<char>, BinaryRef<'a>>,
)
    ensures
        content_messages(b, offs, refs).len() == 0 <==> offs.len() == 0,
        content_messages(b, offs, refs).len() <= offs.len(),
        offs.len() > 0 ==> content_messages(b, offs, refs).last() == window_message(
            b,
            offs.last() as int,
            b.len() as int,
            refs,
        ),
{
    if offs.len() > 0 {
        lemma_long_messages_len(b, offs, refs, offs.len() - 1);
    }
}

/// Whether a message is kept from a window between two entries: it is longer
/// than two bytes.
pub open spec fn long_text() -> spec_fn(Seq<char>) -> bool {
    |m: Seq<char>| text_len(m) > 2
}

/// The messages of the first `k` windows between consecutive offsets, one per
/// window, in order, whatever their length.
pub open spec fn window_messages<'a>(
    b: Seq<u8>,
    offs: Seq<u64>,
    refs: Map<Seq<char>, BinaryRef<'a>>,
    k: nat,
) -> Seq<Seq<char>> {
    Seq::new(k, |i: int| window_message(b, offs[i] as int, offs[i + 1] as int, refs))
}

/// Of the first `k` windows between consecutive offsets, the messages kept
/// are exactly those longer than two bytes, every one of them, in window
/// order.
pub proof fn lemma_long_messages_filter<'a>(
    b: Seq<u8>,
    offs: Seq<u64>,
    refs: Map<Seq<char>, BinaryRef<'a>>,
    k: nat,
)
    ensures
        long_messages(b, offs, refs, k as int) == window_messages(b, offs, refs, k).filter(
            long_text(),
        ),
    decreases k,
{
    reveal(Seq::filter);
    let w = window_messages(b, offs, refs, k);
    if k == 0 {
        assert(w =~= Seq::<Seq<char>>::empty());
    } else {
        let k1 = (k - 1) as nat;
        lemma_long_messages_filter(b, offs, refs, k1);
        assert(w.drop_last() =~= window_messages(b, offs, refs, k1));
        assert(w.last() == window_message(b, offs[k - 1] as int, offs[k as int] as int, refs));
    }
}

/// The messages of the content entries are the messages of the windows
/// between consecutive entries that are longer than two bytes, all of them and
/// in order, followed by that of the window from the last entry to the end.
pub proof fn lemma_content_messages_kept<'a>(
    b: Seq<u8>,
    offs: Seq<u64>,
    refs: Map<Seq<char>, BinaryRef<'a>>,
)
    requires
        offs.len() > 0,
    ensures
        content_messages(b, offs, refs) == window_messages(
            b,
            offs,
            refs,
            (offs.len() - 1) as nat,
        ).filter(long_text()).push(window_message(b, offs.last() as int, b.len() as int, refs)),
        content_messages(b, offs, refs).len() == window_messages(
            b,
            offs,
            refs,
            (offs.len() - 1) as nat,
        ).filter(long_text()).len() + 1,
{
    lemma_long_messages_filter(b, offs, refs, (offs.len() - 1) as nat);
}

/// The address that a node names, if it is a data node.
pub open spec fn node_address(n: NodeView) -> Option<Seq<char>> {
    match n {
        NodeView::Data { address, .. } => Some(address),
        NodeView::Link { .. } => None,
    }
}

/// A message depends only on the addresses that its nodes name and on the
/// data of the records under those addresses: the offset and size fields of
/// the nodes, and records no node names, have no effect on it.
pub proof fn lemma_message_uses_addresses_only<'a, 'b>(
    x: Seq<NodeView>,
    y: Seq<NodeView>,
    refs1: Map<Seq<char>, BinaryRef<'a>>,
    refs2: Map<Seq<char>, BinaryRef<'b>>,
)
    requires
        x.len() == y.len(),
        forall|i: int| 0 <= i < x.len() ==> #[trigger] node_address(x[i]) == node_address(y[i]),
        forall|i: int|
            0 <= i < x.len() && #[trigger] node_address(x[i]) is Some ==> {
                let a = node_address(x[i]).unwrap();
                &&& refs1.contains_key(a) == refs2.contains_key(a)
                &&& refs1.contains_key(a) ==> refs1[a].binary_data.data@ == refs2[a].binary_data.data@
            },
    ensures
        message_text(x, refs1) == message_text(y, refs2),
    decreases x.len(),
{
    if x.len() > 0 {
        let n = x.len() - 1;
        assert forall|i: int| 0 <= i < x.drop_last().len() implies #[trigger] node_address(
            x.drop_last()[i],
        ) == node_address(y.drop_last()[i]) by {
            assert(node_address(x[i]) == node_address(y[i]));
        }
        assert forall|i: int|
            0 <= i < x.drop_last().len() && #[trigger] node_address(x.drop_last()[i]) is Some implies {
                let a = node_address(x.drop_last()[i]).unwrap();
                &&& refs1.contains_key(a) == refs2.contains_key(a)
                &&& refs1.contains_key(a) ==> refs1[a].binary_data.data@ == refs2[a].binary_data.data@
            } by {
            assert(node_address(x[i]) is Some);
        }
        lemma_message_uses_addresses_only(x.drop_last(), y.drop_last(), refs1, refs2);
        assert(node_address(x[n]) == node_address(y[n]));
    }
}

/// `b1` and `b2` hold newlines, carriage returns and `:`s at the same
/// positions of `[lo, hi)`.
pub open spec fn marks_agree(b1: Seq<u8>, b2: Seq<u8>, lo: int, hi: int) -> bool {
    forall|k: int|
        lo <= k < hi ==> ((#[trigger] b1[k] == NEWLINE) == (b2[k] == NEWLINE) && (b1[k]
            == CARRIAGE_RETURN) == (b2[k] == CARRIAGE_RETURN) && (b1[k] == COLON) == (b2[k]
            == COLON))
}

/// Where the part of the line `b[s..e)` that names an address ends: just
/// after the `:` that follows the value's first part, or at the line's end.
pub open spec fn address_end(b: Seq<u8>, s: int, e: int) -> int {
    let v = find_byte(b, COLON, s, e) + 1;
    let p1 = find_byte(b, COLON, v, e);
    if p1 < e {
        p1 + 1
    } else {
        e
    }
}

/// The texts `b1` and `b2` have the same lines over `[lo, hi)`, with `:`s at
/// the same places, and each line of the two agrees up to `address_end`:
/// they may differ only in the fields after a line's address, such as the
/// offset and size of a data line, each field keeping its length.
pub open spec fn differ_after_addresses(b1: Seq<u8>, b2: Seq<u8>, lo: int, hi: int) -> bool
    decreases hi - lo,
{
    if lo >= hi {
        true
    } else {
        let nl = find_byte(b1, NEWLINE, lo, hi);
        let e = line_end(b1, lo, hi);
        let stop = if nl < hi {
            nl + 1
        } else {
            hi
        };
        &&& marks_agree(b1, b2, lo, stop)
        &&& forall|k: int| lo <= k < address_end(b1, lo, e) ==> #[trigger] b1[k] == b2[k]
        &&& if nl < hi {
            proof {
                lemma_find_byte(b1, NEWLINE, lo, hi);
            }
            differ_after_addresses(b1, b2, nl + 1, hi)
        } else {
            true
        }
    }
}

proof fn lemma_find_agree(b1: Seq<u8>, b2: Seq<u8>, x: u8, lo: int, hi: int)
    requires
        lo <= hi,
        forall|k: int|
            lo <= k < hi && k <= find_byte(b1, x, lo, hi) ==> (#[trigger] b1[k] == x) == (b2[k]
                == x),
    ensures
        find_byte(b1, x, lo, hi) == find_byte(b2, x, lo, hi),
    decreases hi - lo,
{
    lemma_find_byte(b1, x, lo, hi);
    if lo < hi && b1[lo] != x {
        assert(b2[lo] != x);
        lemma_find_agree(b1, b2, x, lo + 1, hi);
    }
}

proof fn lemma_strip_yc_agree(b1: Seq<u8>, b2: Seq<u8>, a: int, hi: int)
    requires
        forall|k: int| a <= k < hi ==> #[trigger] b1[k] == b2[k],
    ensures
        strip_yc(b1, a, hi) == strip_yc(b2, a, hi),
    decreases hi - a,
{
    if a + 2 <= hi && b1[a] == LETTER_Y && b1[a + 1] == LETTER_C {
        lemma_strip_yc_agree(b1, b2, a + 2, hi);
    }
}

proof fn lemma_line_node_address_agree(b1: Seq<u8>, b2: Seq<u8>, s: int, e: int)
    requires
        0 <= s <= e <= b1.len(),
        e <= b2.len(),
        marks_agree(b1, b2, s, e),
        forall|k: int| s <= k < address_end(b1, s, e) ==> #[trigger] b1[k] == b2[k],
    ensures
        line_node(b1, s, e) is Some <==> line_node(b2, s, e) is Some,
        line_node(b1, s, e) is Some ==> node_address(line_node(b1, s, e).unwrap()) == node_address(
            line_node(b2, s, e).unwrap(),
        ),
{
    lemma_find_byte(b1, COLON, s, e);
    lemma_find_agree(b1, b2, COLON, s, e);
    let v = find_byte(b1, COLON, s, e) + 1;
    if v <= e {
        lemma_find_byte(b1, COLON, v, e);
        lemma_find_agree(b1, b2, COLON, v, e);
        let p1 = find_byte(b1, COLON, v, e);
        if p1 < e {
            lemma_find_byte(b1, COLON, p1 + 1, e);
            lemma_find_agree(b1, b2, COLON, p1 + 1, e);
            let p2 = find_byte(b1, COLON, p1 + 1, e);
            if p2 < e {
                lemma_find_agree(b1, b2, COLON, p2 + 1, e);
            }
            lemma_strip_yc_agree(b1, b2, v, p1);
            lemma_strip_yc_bounds(b1, v, p1);
            let a = strip_yc(b1, v, p1);
            assert(b1.subrange(a, p1) =~= b2.subrange(a, p1));
        }
        if v < e && v + 1 < e {
            if b1[v] == LETTER_Y {
                assert(b1[v] == b2[v]);
                assert(b1[v + 1] == b2[v + 1]);
            }
        }
    }
}

proof fn lemma_strip_yc_bounds(b: Seq<u8>, a: int, hi: int)
    requires
        a <= hi,
    ensures
        a <= strip_yc(b, a, hi) <= hi,
    decreases hi - a,
{
    if a + 2 <= hi && b[a] == LETTER_Y && b[a + 1] == LETTER_C {
        lemma_strip_yc_bounds(b, a + 2, hi);
    }
}

/// Two content texts that differ only after the address of each line (the
/// offset and size fields of data lines, say), with the same lines and the
/// same `:`s, spell the same message.
pub proof fn lemma_message_ignores_offsets_and_sizes<'a>(
    b1: Seq<u8>,
    b2: Seq<u8>,
    lo: int,
    hi: int,
    refs: Map<Seq<char>, BinaryRef<'a>>,
)
    requires
        0 <= lo,
        hi <= b1.len(),
        hi <= b2.len(),
        differ_after_addresses(b1, b2, lo, hi),
    ensures
        message_text(data_nodes(b1, lo, hi), refs) == message_text(data_nodes(b2, lo, hi), refs),
    decreases hi - lo,
{
    if lo < hi {
        lemma_find_byte(b1, NEWLINE, lo, hi);
        let nl = find_byte(b1, NEWLINE, lo, hi);
        let e = line_end(b1, lo, hi);
        lemma_find_agree(b1, b2, NEWLINE, lo, hi);
        assert(line_end(b2, lo, hi) == e);
        lemma_line_node_address_agree(b1, b2, lo, e);
        let here1 = match line_node(b1, lo, e) {
            Some(x) => seq![x],
            None => Seq::<NodeView>::empty(),
        };
        let here2 = match line_node(b2, lo, e) {
            Some(x) => seq![x],
            None => Seq::<NodeView>::empty(),
        };
        if here1.len() > 0 {
            assert(node_address(here1[0]) == node_address(here2[0]));
        }
        lemma_message_uses_addresses_only(here1, here2, refs, refs);
        if nl < hi {
            lemma_message_ignores_offsets_and_sizes(b1, b2, nl + 1, hi, refs);
            lemma_message_text_concat(here1, data_nodes(b1, nl + 1, hi), refs);
            lemma_message_text_concat(here2, data_nodes(b2, nl + 1, hi), refs);
        }
    }
}

/// The text of the window `b[lo..hi)` that its nodes are read from: the
/// window's text without leading and trailing white space, as bytes.
pub open spec fn trimmed_window(b: Seq<u8>, lo: int, hi: int) -> Seq<u8> {
    encode_utf8(trim_chars(chars_of(b, lo, hi)))
}

/// The windows `b1[lo1..hi1)` and `b2[lo2..hi2)`, once trimmed, have the same
/// length and differ only after the address of each line.
pub open spec fn windows_differ_after_addresses(
    b1: Seq<u8>,
    lo1: int,
    hi1: int,
    b2: Seq<u8>,
    lo2: int,
    hi2: int,
) -> bool {
    let t1 = trimmed_window(b1, lo1, hi1);
    let t2 = trimmed_window(b2, lo2, hi2);
    t1.len() == t2.len() && differ_after_addresses(t1, t2, 0, t1.len() as int)
}

proof fn lemma_long_messages_agree<'a>(
    b1: Seq<u8>,
    b2: Seq<u8>,
    offs: Seq<u64>,
    refs: Map<Seq<char>, BinaryRef<'a>>,
    k: int,
)
    requires
        forall|i: int|
            0 <= i < k ==> #[trigger] windows_differ_after_addresses(
                b1,
                offs[i] as int,
                offs[i + 1] as int,
                b2,
                offs[i] as int,
                offs[i + 1] as int,
            ),
    ensures
        long_messages(b1, offs, refs, k) == long_messages(b2, offs, refs, k),
    decreases k,
{
    if k > 0 {
        lemma_long_messages_agree(b1, b2, offs, refs, k - 1);
        assert(windows_differ_after_addresses(
            b1,
            offs[k - 1] as int,
            offs[(k - 1) + 1] as int,
            b2,
            offs[k - 1] as int,
            offs[(k - 1) + 1] as int,
        ));
        let t1 = trimmed_window(b1, offs[k - 1] as int, offs[k] as int);
        let t2 = trimmed_window(b2, offs[k - 1] as int, offs[k] as int);
        lemma_message_ignores_offsets_and_sizes(t1, t2, 0, t1.len() as int, refs);
    }
}

/// Two dumps whose content entries start at the same offsets, and whose
/// content windows differ only after the address of each line (the offset
/// and size fields of data lines, each keeping its length), spell the same
/// messages; so do any two maps of records that agree on the data of every
/// address a data line names (`lemma_message_uses_addresses_only`).
pub proof fn lemma_messages_ignore_offsets_and_sizes<'a>(
    b1: Seq<u8>,
    b2: Seq<u8>,
    offs: Seq<u64>,
    refs: Map<Seq<char>, BinaryRef<'a>>,
)
    requires
        b1.len() == b2.len(),
        forall|i: int|
            0 <= i < window_count(offs) ==> #[trigger] windows_differ_after_addresses(
                b1,
                offs[i] as int,
                offs[i + 1] as int,
                b2,
                offs[i] as int,
                offs[i + 1] as int,
            ),
        offs.len() > 0 ==> windows_differ_after_addresses(
            b1,
            offs.last() as int,
            b1.len() as int,
            b2,
            offs.last() as int,
            b2.len() as int,
        ),
    ensures
        content_messages(b1, offs, refs) == content_messages(b2, offs, refs),
{
    if offs.len() > 0 {
        lemma_long_messages_agree(b1, b2, offs, refs, offs.len() - 1);
        let t1 = trimmed_window(b1, offs.last() as int, b1.len() as int);
        let t2 = trimmed_window(b2, offs.last() as int, b2.len() as int);
        lemma_message_ignores_offsets_and_sizes(t1, t2, 0, t1.len() as int, refs);
    }
}

/// The texts of a list of strings.
pub open spec fn texts(v: Seq<String>) -> Seq<Seq<char>> {
    v.map_values(|s: String| s@)
}

/// The views of a list of nodes.
pub open spec fn node_views(v: Seq<NodeValue>) -> Seq<NodeView> {
    v.map_values(|n: NodeValue| n@)
}

fn read_line_node(text: &str, b: &[u8], s: usize, e: usize) -> (r: Option<NodeValue>)
    requires
        b@ == text.spec_bytes(),
        valid_utf8(b@),
        s <= e <= b@.len(),
        e < b@.len() ==> b@[e as int] == NEWLINE || b@[e as int] == CARRIAGE_RETURN,
    ensures
        match r {
            Some(x) => line_node(b@, s as int, e as int) == Some(x@),
            None => line_node(b@, s as int, e as int) is None,
        },
{
    let c = find_byte_in(b, COLON, s, e);
    proof {
        lemma_find_byte(b@, COLON, s as int, e as int);
    }
    if c == e {
        return None;
    }
    let v = c + 1;
    if e - v < 2 || b[v] != LETTER_Y || b[v + 1] != LETTER_C {
        return None;
    }
    let p1 = find_byte_in(b, COLON, v, e);
    proof {
        lemma_find_byte(b@, COLON, v as int, e as int);
    }
    if p1 == e {
        return None;
    }
    let p2 = find_byte_in(b, COLON, p1 + 1, e);
    proof {
        lemma_find_byte(b@, COLON, p1 + 1, e as int);
    }
    if p2 == e {
        return None;
    }
    let p3 = find_byte_in(b, COLON, p2 + 1, e);
    proof {
        lemma_find_byte(b@, COLON, p2 + 1, e as int);
    }
    let mut a = v;
    while p1 - a >= 2 && b[a] == LETTER_Y && b[a + 1] == LETTER_C
        invariant
            v <= a <= p1 < e <= b@.len(),
            strip_yc(b@, a as int, p1 as int) == strip_yc(b@, v as int, p1 as int),
            a > 0,
            b@[a - 1] <= 0x7f,
        decreases p1 - a,
    {
        a = a + 2;
    }
    proof {
        lemma_starts_char_after_ascii(b@, a as int);
        assert(b@[p1 as int] == COLON);
    }
    let address = sub_text(text, a, p1);
    let offset = match parse_hex(b, p1 + 1, p2) {
        Some(x) => x,
        None => 0,
    };
    let size = match parse_hex(b, p2 + 1, p3) {
        Some(x) => x,
        None => 0,
    };
    Some(NodeValue::Data { address: address.to_owned(), offset, size })
}

/// The part that the binary record named `key` gives a message: its data.
pub fn message_part<'a>(binary_refs: &StringHashMap<BinaryRef<'a>>, key: String) -> (r: Option<
    &'a str,
>)
    ensures
        match r {
            Some(p) => binary_refs@.contains_key(key@) && p == binary_refs@[key@].binary_data.data,
            None => !binary_refs@.contains_key(key@),
        },
{
    let bin_ref = binary_refs.get(key.as_str());
    match bin_ref {
        Some(bin_ref) => {
            return Some(bin_ref.binary_data.data);
        },
        None => {
            return None;
        },
    }
}

/// The nodes of `input` (see `content_nodes`).
pub fn content_map(input: &str) -> (nodes: Vec<NodeValue>)
    ensures
        node_views(nodes@) == content_nodes(input@),
{
    let trimmed = trim_text(input);
    let b = trimmed.as_bytes();
    let n = b.len();
    proof {
        encode_utf8_valid_utf8(trimmed@);
        assert(data_nodes(b@, n as int, n as int) =~= Seq::<NodeView>::empty());
        assert(node_views(Seq::<NodeValue>::empty()) + data_nodes(b@, 0, n as int)
            =~= data_nodes(b@, 0, n as int));
    }
    let mut nodes: Vec<NodeValue> = Vec::new();
    let mut pos: usize = 0;
    while pos < n
        invariant
            pos <= n == b@.len(),
            b@ == trimmed.spec_bytes(),
            trimmed@ == trim_chars(input@),
            valid_utf8(b@),
            node_views(nodes@) + data_nodes(b@, pos as int, n as int) == data_nodes(
                b@,
                0,
                n as int,
            ),
        decreases n - pos,
    {
        let (end, nl) = first_line(b, pos, n);
        proof {
            lemma_find_byte(b@, NEWLINE, pos as int, n as int);
        }
        let node = read_line_node(trimmed, b, pos, end);
        let ghost before = node_views(nodes@);
        let next = if nl < n {
            nl + 1
        } else {
            n
        };
        match node {
            Some(x) => {
                nodes.push(x);
                assert(node_views(nodes@) =~= before.push(x@));
            },
            None => {},
        }
        proof {
            assert(data_nodes(b@, n as int, n as int) =~= Seq::<NodeView>::empty());
            let here = match line_node(b@, pos as int, end as int) {
                Some(x) => seq![x],
                None => Seq::<NodeView>::empty(),
            };
            assert(data_nodes(b@, pos as int, n as int) =~= here + data_nodes(
                b@,
                next as int,
                n as int,
            ));
            assert(node_views(nodes@) =~= before + here);
            assert(node_views(nodes@) + data_nodes(b@, next as int, n as int) =~= before + (here
                + data_nodes(b@, next as int, n as int)));
        }
        pos = next;
    }
    nodes
}

/// The message that the content entry in `text` spells (`message_text`).
fn text_message<'a>(text: &str, binary_refs: &StringHashMap<BinaryRef<'a>>) -> (m: String)
    ensures
        m@ == message_text(content_nodes(text@), binary_refs@),
{
    let nodes = content_map(text);
    let ghost views = node_views(nodes@);
    let mut data = String::new();
    let mut j: usize = 0;
    while j < nodes.len()
        invariant
            j <= nodes@.len(),
            views == node_views(nodes@),
            views == content_nodes(text@),
            data@ == message_text(views.take(j as int), binary_refs@),
        decreases nodes@.len() - j,
    {
        assert(views.take(j + 1).drop_last() =~= views.take(j as int));
        assert(views.take(j + 1).last() == nodes@[j as int]@);
        match &nodes[j] {
            NodeValue::Data { address, .. } => {
                match message_part(binary_refs, address.clone()) {
                    Some(part) => {
                        data.append(part);
                    },
                    None => {},
                }
            },
            NodeValue::Link { .. } => {},
        }
        j = j + 1;
    }
    assert(views.take(nodes@.len() as int) =~= views);
    data
}

/// The messages of the content entries at the offsets `sink` holds in
/// `mmap` (`content_messages`).
pub fn messages_in<'a>(
    mmap: &'a [u8],
    sink: &IndexSink,
    binary_refs: &StringHashMap<BinaryRef<'a>>,
) -> (messages: Vec<String>)
    requires
        text_windows_of(mmap@, sink.offsets()),
    ensures
        texts(messages@) == content_messages(mmap@, sink.offsets(), binary_refs@),
{
    let ghost offs = sink.offsets();
    let ghost b = mmap@;
    let count = sink.matches.len();
    let mut messages: Vec<String> = Vec::new();
    let mut k: usize = 0;
    while k + 1 < count
        invariant
            count == offs.len(),
            count >= 1 ==> k + 1 <= count,
            count == 0 ==> k == 0,
            offs == sink.offsets(),
            b == mmap@,
            text_windows_of(b, offs),
            texts(messages@) == long_messages(b, offs, binary_refs@, k as int),
        decreases count - k,
    {
        let lo = sink.matches[k].1;
        let hi = sink.matches[k + 1].1;
        assert(lo == offs[k as int] && hi == offs[k + 1]);
        assert(text_window(b, offs[k as int] as int, offs[k + 1] as int));
        let text = match window_text(mmap, lo, hi) {
            Some(t) => t,
            None => {
                return messages;
            },
        };
        let data = text_message(text, binary_refs);
        let ghost prev = texts(messages@);
        let ghost m = data@;
        assert(m == window_message(b, offs[k as int] as int, offs[k + 1] as int, binary_refs@));
        let len = data.as_str().len();
        if len > 2 {
            messages.push(data);
            assert(texts(messages@) =~= prev.push(m));
        }
        assert(texts(messages@) == long_messages(b, offs, binary_refs@, k + 1));
        k = k + 1;
    }
    if count > 0 {
        let lo = sink.matches[count - 1].1;
        assert(lo == offs.last());
        let text = match window_text(mmap, lo, mmap.len() as u64) {
            Some(t) => t,
            None => {
                return messages;
            },
        };
        let data = text_message(text, binary_refs);
        let ghost prev = texts(messages@);
        messages.push(data);
        assert(texts(messages@) =~= prev.push(data@));
    }
    messages
}

/// Whether the windows of `b` at the offsets `sink` holds are text
/// (`text_windows_of`).
pub fn text_windows_in(b: &[u8], sink: &IndexSink) -> (ok: bool)
    ensures
        ok == text_windows_of(b@, sink.offsets()),
{
    let count = sink.matches.len();
    let ghost offs = sink.offsets();
    let ghost bv = b@;
    let n = b.len();
    let mut k: usize = 0;
    while k + 1 < count
        invariant
            count == offs.len(),
            n == bv.len(),
            count >= 1 ==> k + 1 <= count,
            count == 0 ==> k == 0,
            offs == sink.offsets(),
            bv == b@,
            forall|i: int|
                0 <= i < k ==> #[trigger] text_window(bv, offs[i] as int, offs[i + 1] as int),
        decreases count - k,
    {
        let lo = sink.matches[k].1;
        let hi = sink.matches[k + 1].1;
        assert(lo == offs[k as int] && hi == offs[k + 1]);
        if window_text(b, lo, hi).is_none() {
            return false;
        }
        k = k + 1;
    }
    if count > 0 {
        let lo = sink.matches[count - 1].1;
        assert(lo == offs.last());
        if window_text(b, lo, n as u64).is_none() {
            return false;
        }
    }
    true
}

impl<'a> ContentIndex<'a> {
    /// Every window that `get_messages` reads lies in the data and is valid
    /// UTF-8: those between consecutive entries, and the one from the last
    /// entry to the end.
    pub open spec fn text_windows(&self) -> bool {
        text_windows_of(self.mmap@, self.index_sink.offsets())
    }

    pub fn new(mmap: &'a [u8]) -> (r: Self)
        ensures
            r.mmap == mmap,
            r.index_sink@.len() == 0,
    {
        Self { mmap: mmap, index_sink: IndexSink::new() }
    }

    /// Finds the lines of the data that hold `t6:A7:conten` (then any number
    /// of `t`s) and records them, with their tags, after those already
    /// recorded. An unaccepted pattern gives its error and records nothing.
    pub fn build(&mut self) -> (res: Result<(), grep_regex::Error>)
        ensures
            res is Err <==> !pattern_accepted("t6:A7:content*"@),
            final(self).mmap == old(self).mmap,
            res is Ok ==> final(self).index_sink@ == old(self).index_sink@ + line_entries(
                matched_lines("t6:A7:content*"@, old(self).mmap@),
            ),
            res is Err ==> final(self).index_sink == old(self).index_sink,
    {
        match search_lines("t6:A7:content*", self.mmap) {
            Ok(lines) => {
                assert(!has_empty_line(line_views(lines@)));
                let recorded = self.index_sink.record_lines(&lines);
                assert(recorded);
                Ok(())
            },
            Err(SearchError::Pattern(e)) => Err(e),
            Err(SearchError::Search(_)) => {
                proof {
                    assert(false);
                }
                Ok(())
            },
        }
    }

    /// Whether `get_messages` can run on this index (`text_windows`).
    pub fn has_text_windows(&self) -> (ok: bool)
        ensures
            ok == self.text_windows(),
    {
        text_windows_in(self.mmap, &self.index_sink)
    }

    /// The part of the binary record named `key`, if there is one.
    pub fn find_message_part(
        &self,
        binary_refs: &StringHashMap<BinaryRef<'a>>,
        key: String,
    ) -> (r: Option<&'a str>)
        ensures
            match r {
                Some(p) => binary_refs@.contains_key(key@) && p == binary_refs@[key@].binary_data.data,
                None => !binary_refs@.contains_key(key@),
            },
    {
        message_part(binary_refs, key)
    }

    /// The nodes of `input` (see `content_nodes`).
    pub fn build_content_map(&self, input: &str) -> (nodes: Vec<NodeValue>)
        ensures
            node_views(nodes@) == content_nodes(input@),
    {
        content_map(input)
    }

    /// The messages of the content entries (`content_messages`).
    pub fn get_messages(&self, binary_refs: &StringHashMap<BinaryRef<'a>>) -> (res: Result<
        Vec<String>,
        grep_regex::Error,
    >)
        requires
            self.text_windows(),
        ensures
            res matches Ok(m) && texts(m@) == content_messages(
                self.mmap@,
                self.index_sink.offsets(),
                binary_refs@,
            ),
            res matches Ok(m) ==> self.index_sink.offsets().len() > 0 ==> texts(m@) == window_messages(
                self.mmap@,
                self.index_sink.offsets(),
                binary_refs@,
                (self.index_sink.offsets().len() - 1) as nat,
            ).filter(long_text()).push(
                window_message(
                    self.mmap@,
                    self.index_sink.offsets().last() as int,
                    self.mmap@.len() as int,
                    binary_refs@,
                ),
            ),
    {
        let messages = messages_in(self.mmap, &self.index_sink, binary_refs);
        proof {
            if self.index_sink.offsets().len() > 0 {
                lemma_content_messages_kept(self.mmap@, self.index_sink.offsets(), binary_refs@);
            }
        }
        Ok(messages)
    }
}

} // verus!
