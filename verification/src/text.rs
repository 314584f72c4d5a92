//! Byte-level text handling shared by the indices: locating bytes, splitting
//! lines the way `str::lines` does, parsing hexadecimal sizes the way
//! `usize::from_str_radix(_, 16)` does, trimming Unicode white space, and
//! taking UTF-8 views of byte ranges.
use vstd::prelude::*;
use vstd::string::*;
use vstd::utf8::*;

verus! {

pub const NEWLINE: u8 = 0x0a;

pub const CARRIAGE_RETURN: u8 = 0x0d;

pub const COLON: u8 = 0x3a;

pub const PLUS: u8 = 0x2b;

/// The first index in `[lo, hi)` at which `b` holds `x`, or `hi` when there is none.
pub open spec fn find_byte(b: Seq<u8>, x: u8, lo: int, hi: int) -> int
    decreases hi - lo,
{
    if lo >= hi {
        hi
    } else if b[lo] == x {
        lo
    } else {
        find_byte(b, x, lo + 1, hi)
    }
}

/// What `find_byte` gives lies in `[lo, hi]`, holds `x` when below `hi`, and
/// no `x` comes before it.
pub proof fn lemma_find_byte(b: Seq<u8>, x: u8, lo: int, hi: int)
    requires
        lo <= hi,
    ensures
        lo <= find_byte(b, x, lo, hi) <= hi,
        find_byte(b, x, lo, hi) < hi ==> b[find_byte(b, x, lo, hi)] == x,
        forall|k: int| lo <= k < find_byte(b, x, lo, hi) ==> b[k] != x,
    decreases hi - lo,
{
    if lo < hi && b[lo] != x {
        lemma_find_byte(b, x, lo + 1, hi);
    }
}

/// `find_byte` gives the first position of `x` in `b[lo..hi)`, and `hi` when
/// there is none.
pub proof fn lemma_find_byte_at(b: Seq<u8>, x: u8, lo: int, hi: int, p: int)
    requires
        lo <= p <= hi,
        forall|k: int| lo <= k < p ==> b[k] != x,
        p < hi ==> b[p] == x,
    ensures
        find_byte(b, x, lo, hi) == p,
    decreases p - lo,
{
    if lo < p {
        lemma_find_byte_at(b, x, lo + 1, hi, p);
    }
}

/// Finds the first `x` in `b[lo..hi)`; returns `hi` when there is none.
pub fn find_byte_in(b: &[u8], x: u8, lo: usize, hi: usize) -> (r: usize)
    requires
        lo <= hi <= b@.len(),
    ensures
        r == find_byte(b@, x, lo as int, hi as int),
{
    let mut i = lo;
    while i < hi
        invariant
            lo <= i <= hi <= b@.len(),
            find_byte(b@, x, i as int, hi as int) == find_byte(b@, x, lo as int, hi as int),
        decreases hi - i,
    {
        if b[i] == x {
            return i;
        }
        i = i + 1;
    }
    i
}

/// Where the first line of `b[lo..hi)` ends, its terminator left out: a line
/// ends at a newline, and a carriage return just before that newline belongs
/// to the terminator (as `str::lines` has it).
pub open spec fn line_end(b: Seq<u8>, lo: int, hi: int) -> int {
    let p = find_byte(b, NEWLINE, lo, hi);
    if p < hi && p > lo && b[p - 1] == CARRIAGE_RETURN {
        p - 1
    } else {
        p
    }
}

/// The line of `b[lo..hi)` that starts at `lo` ends at `e`: no newline comes
/// before `e`, and `e` is the window's end, a newline that no carriage return
/// precedes on the line, or the carriage return of a `\r\n`.
pub open spec fn line_ends_at(b: Seq<u8>, lo: int, hi: int, e: int) -> bool {
    &&& lo <= e <= hi
    &&& forall|k: int| lo <= k < e ==> b[k] != NEWLINE
    &&& e == hi || (b[e] == NEWLINE && !(e > lo && b[e - 1] == CARRIAGE_RETURN)) || (e + 1 < hi
        && b[e] == CARRIAGE_RETURN && b[e + 1] == NEWLINE)
}

/// Wherever the line ends (`line_ends_at`), `line_end` gives that place.
pub proof fn lemma_line_end_at(b: Seq<u8>, lo: int, hi: int, e: int)
    requires
        line_ends_at(b, lo, hi, e),
    ensures
        line_end(b, lo, hi) == e,
{
    if e == hi {
        lemma_find_byte_at(b, NEWLINE, lo, hi, hi);
    } else if b[e] == NEWLINE {
        lemma_find_byte_at(b, NEWLINE, lo, hi, e);
    } else {
        lemma_find_byte_at(b, NEWLINE, lo, hi, e + 1);
    }
}

/// The place that `line_end` gives is where the line ends (`line_ends_at`).
pub proof fn lemma_line_ends(b: Seq<u8>, lo: int, hi: int)
    requires
        lo <= hi,
    ensures
        line_ends_at(b, lo, hi, line_end(b, lo, hi)),
{
    lemma_find_byte(b, NEWLINE, lo, hi);
}

/// Returns `(end, nl)`: the first line of `b[lo..hi)` is `b[lo..end)`, and
/// `nl` is the position of its newline (`hi` when the line runs to the end).
pub fn first_line(b: &[u8], lo: usize, hi: usize) -> (r: (usize, usize))
    requires
        lo <= hi <= b@.len(),
    ensures
        r.0 == line_end(b@, lo as int, hi as int),
        r.1 == find_byte(b@, NEWLINE, lo as int, hi as int),
        lo <= r.0 <= r.1 <= hi,
{
    let nl = find_byte_in(b, NEWLINE, lo, hi);
    proof {
        lemma_find_byte(b@, NEWLINE, lo as int, hi as int);
    }
    if nl < hi && nl > lo && b[nl - 1] == CARRIAGE_RETURN {
        (nl - 1, nl)
    } else {
        (nl, nl)
    }
}

/// The value of one hexadecimal digit (either case).
pub open spec fn hex_digit(c: u8) -> Option<nat> {
    if 0x30 <= c <= 0x39 {
        Some((c - 0x30) as nat)
    } else if 0x61 <= c <= 0x66 {
        Some((c - 0x61 + 10) as nat)
    } else if 0x41 <= c <= 0x46 {
        Some((c - 0x41 + 10) as nat)
    } else {
        None
    }
}

/// The number that the hexadecimal digits `b[lo..hi)` spell, if all are digits.
pub open spec fn hex_run(b: Seq<u8>, lo: int, hi: int) -> Option<nat>
    decreases hi - lo,
{
    if hi <= lo {
        Some(0)
    } else {
        match (hex_run(b, lo, hi - 1), hex_digit(b[hi - 1])) {
            (Some(v), Some(d)) => Some(v * 16 + d),
            _ => None,
        }
    }
}

/// What `usize::from_str_radix(text, 16)` gives for the text `b[lo..hi)`:
/// an optional `+` and then one or more hexadecimal digits whose value fits
/// in a `usize`; anything else is an error (`None`).
pub open spec fn parse_hex_usize(b: Seq<u8>, lo: int, hi: int) -> Option<usize> {
    if hi <= lo || (hi - lo == 1 && b[lo] == PLUS) {
        None
    } else {
        let start = if b[lo] == PLUS {
            lo + 1
        } else {
            lo
        };
        match hex_run(b, start, hi) {
            Some(v) => if v <= usize::MAX {
                Some(v as usize)
            } else {
                None
            },
            None => None,
        }
    }
}

/// What `usize::from_str_radix(text, 16).unwrap_or(0)` gives for `b[lo..hi)`.
pub open spec fn hex_or_zero(b: Seq<u8>, lo: int, hi: int) -> usize {
    match parse_hex_usize(b, lo, hi) {
        Some(v) => v,
        None => 0,
    }
}

proof fn lemma_hex_run_prefix(b: Seq<u8>, lo: int, k: int, hi: int)
    requires
        lo <= k <= hi,
        hex_run(b, lo, hi) is Some,
    ensures
        hex_run(b, lo, k) is Some,
        hex_run(b, lo, k).unwrap() <= hex_run(b, lo, hi).unwrap(),
    decreases hi - k,
{
    if k < hi {
        lemma_hex_run_prefix(b, lo, k, hi - 1);
    }
}

/// The character that spells the hexadecimal digit `d` (below 16): `0`-`9`,
/// then `a`-`f`, or `A`-`F` when `upper`.
pub open spec fn hex_char(d: nat, upper: bool) -> u8 {
    if d < 10 {
        (0x30 + d) as u8
    } else if upper {
        (0x41 + d - 10) as u8
    } else {
        (0x61 + d - 10) as u8
    }
}

/// How `v` is written in hexadecimal, most significant digit first, without
/// leading zeros.
pub open spec fn hex_spelling(v: nat, upper: bool) -> Seq<u8>
    decreases v,
{
    if v < 16 {
        seq![hex_char(v, upper)]
    } else {
        hex_spelling(v / 16, upper).push(hex_char(v % 16, upper))
    }
}

/// A byte that `usize::from_str_radix(_, 16)` takes as a digit.
pub open spec fn is_hex_char(c: u8) -> bool {
    (0x30 <= c <= 0x39) || (0x61 <= c <= 0x66) || (0x41 <= c <= 0x46)
}

proof fn lemma_hex_run_agree(b1: Seq<u8>, b2: Seq<u8>, lo: int, hi: int)
    requires
        forall|k: int| lo <= k < hi ==> #[trigger] b1[k] == b2[k],
    ensures
        hex_run(b1, lo, hi) == hex_run(b2, lo, hi),
    decreases hi - lo,
{
    if hi > lo {
        lemma_hex_run_agree(b1, b2, lo, hi - 1);
    }
}

proof fn lemma_hex_char_digit(d: nat, upper: bool)
    requires
        d < 16,
    ensures
        hex_digit(hex_char(d, upper)) == Some(d),
        hex_char(d, upper) != PLUS,
{
}

proof fn lemma_hex_spelling_run(v: nat, upper: bool)
    ensures
        hex_spelling(v, upper).len() >= 1,
        hex_run(hex_spelling(v, upper), 0, hex_spelling(v, upper).len() as int) == Some(v),
        forall|k: int|
            0 <= k < hex_spelling(v, upper).len() ==> #[trigger] hex_spelling(v, upper)[k]
                != PLUS,
    decreases v,
{
    if v < 16 {
        let s = hex_spelling(v, upper);
        lemma_hex_char_digit(v, upper);
        assert(hex_run(s, 0, 0) == Some(0nat));
        assert(hex_run(s, 0, 1) == Some(v));
    } else {
        let p = hex_spelling(v / 16, upper);
        let s = hex_spelling(v, upper);
        lemma_hex_spelling_run(v / 16, upper);
        lemma_hex_char_digit(v % 16, upper);
        assert(s == p.push(hex_char(v % 16, upper)));
        assert(s.len() == p.len() + 1);
        assert(s[p.len() as int] == hex_char(v % 16, upper));
        lemma_hex_run_agree(s, p, 0, p.len() as int);
        assert(v == (v / 16) * 16 + v % 16);
        assert(hex_run(s, 0, s.len() as int) == Some(v));
        assert forall|k: int| 0 <= k < s.len() implies #[trigger] s[k] != PLUS by {
            if k < p.len() {
                assert(s[k] == p[k]);
            }
        }
    }
}

proof fn lemma_hex_run_shift(p: Seq<u8>, s: Seq<u8>, k: int)
    requires
        0 <= k <= s.len(),
    ensures
        hex_run(p + s, p.len() as int, p.len() + k) == hex_run(s, 0, k),
    decreases k,
{
    if k > 0 {
        lemma_hex_run_shift(p, s, k - 1);
        assert((p + s)[p.len() + k - 1] == s[k - 1]);
    }
}

/// Writing a number in hexadecimal (in either case), with or without a
/// leading `+`, and parsing it back as `usize::from_str_radix(_, 16)` does
/// gives the number when it fits a `usize`, and an error when it does not;
/// and whatever parses has only hexadecimal digits after an optional leading
/// `+`.
pub proof fn lemma_parse_hex_digits(v: nat, upper: bool, b: Seq<u8>, lo: int, hi: int)
    ensures
        parse_hex_usize(hex_spelling(v, upper), 0, hex_spelling(v, upper).len() as int) == if v
            <= usize::MAX {
            Some(v as usize)
        } else {
            None
        },
        parse_hex_usize(
            seq![PLUS] + hex_spelling(v, upper),
            0,
            hex_spelling(v, upper).len() + 1int,
        ) == parse_hex_usize(hex_spelling(v, upper), 0, hex_spelling(v, upper).len() as int),
        parse_hex_usize(b, lo, hi) is Some ==> forall|k: int|
            lo <= k < hi && !(k == lo && b[k] == PLUS) ==> is_hex_char(#[trigger] b[k]),
{
    lemma_hex_spelling_run(v, upper);
    let s = hex_spelling(v, upper);
    assert(s[0] != PLUS);
    let ps = seq![PLUS] + s;
    lemma_hex_run_shift(seq![PLUS], s, s.len() as int);
    assert(ps[0] == PLUS);
    if parse_hex_usize(b, lo, hi) is Some {
        let start = if b[lo] == PLUS {
            lo + 1
        } else {
            lo
        };
        lemma_hex_run_chars(b, start, hi);
    }
}

proof fn lemma_hex_run_chars(b: Seq<u8>, lo: int, hi: int)
    requires
        hex_run(b, lo, hi) is Some,
    ensures
        forall|k: int| lo <= k < hi ==> is_hex_char(#[trigger] b[k]),
    decreases hi - lo,
{
    if hi > lo {
        lemma_hex_run_chars(b, lo, hi - 1);
    }
}

fn hex_digit_value(c: u8) -> (r: Option<u8>)
    ensures
        match r {
            Some(d) => hex_digit(c) == Some(d as nat) && d < 16,
            None => hex_digit(c) is None,
        },
{
    if 0x30 <= c && c <= 0x39 {
        Some(c - 0x30)
    } else if 0x61 <= c && c <= 0x66 {
        Some(c - 0x61 + 10)
    } else if 0x41 <= c && c <= 0x46 {
        Some(c - 0x41 + 10)
    } else {
        None
    }
}

/// Parses `b[lo..hi)` as `usize::from_str_radix(_, 16)` does.
pub fn parse_hex(b: &[u8], lo: usize, hi: usize) -> (r: Option<usize>)
    requires
        lo <= hi <= b@.len(),
    ensures
        r == parse_hex_usize(b@, lo as int, hi as int),
{
    if hi == lo || (hi - lo == 1 && b[lo] == PLUS) {
        return None;
    }
    let start = if b[lo] == PLUS {
        lo + 1
    } else {
        lo
    };
    let mut acc: usize = 0;
    let mut i = start;
    while i < hi
        invariant
            start <= i <= hi <= b@.len(),
            lo < hi,
            !(hi - lo == 1 && b@[lo as int] == PLUS),
            start == (if b@[lo as int] == PLUS { lo + 1 } else { lo as int }),
            hex_run(b@, start as int, i as int) == Some(acc as nat),
        decreases hi - i,
    {
        match hex_digit_value(b[i]) {
            None => {
                proof {
                    if hex_run(b@, start as int, hi as int) is Some {
                        lemma_hex_run_prefix(b@, start as int, i + 1, hi as int);
                    }
                }
                return None;
            },
            Some(d) => {
                if (acc as u128) * 16 + (d as u128) > usize::MAX as u128 {
                    proof {
                        if hex_run(b@, start as int, hi as int) is Some {
                            lemma_hex_run_prefix(b@, start as int, i + 1, hi as int);
                        }
                    }
                    return None;
                }
                acc = acc * 16 + d as usize;
                i = i + 1;
            },
        }
    }
    Some(acc)
}

/// The characters that `char::is_whitespace` accepts: those with the Unicode
/// property `White_Space`.
pub open spec fn is_white_space(c: char) -> bool {
    ||| ('\u{9}' <= c && c <= '\u{d}')
    ||| c == ' '
    ||| c == '\u{85}'
    ||| c == '\u{a0}'
    ||| c == '\u{1680}'
    ||| ('\u{2000}' <= c && c <= '\u{200a}')
    ||| c == '\u{2028}'
    ||| c == '\u{2029}'
    ||| c == '\u{202f}'
    ||| c == '\u{205f}'
    ||| c == '\u{3000}'
}

pub fn is_white_space_char(c: char) -> (r: bool)
    ensures
        r == is_white_space(c),
{
    ('\u{9}' <= c && c <= '\u{d}') || c == ' ' || c == '\u{85}' || c == '\u{a0}' || c
        == '\u{1680}' || ('\u{2000}' <= c && c <= '\u{200a}') || c == '\u{2028}' || c
        == '\u{2029}' || c == '\u{202f}' || c == '\u{205f}' || c == '\u{3000}'
}

/// `s` without its leading white space.
pub open spec fn trim_start_chars(s: Seq<char>) -> Seq<char>
    decreases s.len(),
{
    if s.len() > 0 && is_white_space(s[0]) {
        trim_start_chars(s.drop_first())
    } else {
        s
    }
}

/// `s` without its trailing white space.
pub open spec fn trim_end_chars(s: Seq<char>) -> Seq<char>
    decreases s.len(),
{
    if s.len() > 0 && is_white_space(s.last()) {
        trim_end_chars(s.drop_last())
    } else {
        s
    }
}

/// What `str::trim` leaves of `s`.
pub open spec fn trim_chars(s: Seq<char>) -> Seq<char> {
    trim_end_chars(trim_start_chars(s))
}

proof fn lemma_trim_start(s: Seq<char>)
    ensures
        trim_start_chars(s).len() > 0 ==> !is_white_space(trim_start_chars(s)[0]),
        exists|i: int|
            0 <= i <= s.len() && trim_start_chars(s) == s.subrange(i, s.len() as int) && forall|
                k: int,
            | 0 <= k < i ==> is_white_space(#[trigger] s[k]),
    decreases s.len(),
{
    if s.len() > 0 && is_white_space(s[0]) {
        let d = s.drop_first();
        lemma_trim_start(d);
        let i = choose|i: int|
            0 <= i <= d.len() && trim_start_chars(d) == d.subrange(i, d.len() as int) && forall|
                k: int,
            | 0 <= k < i ==> is_white_space(#[trigger] d[k]);
        assert(d.subrange(i, d.len() as int) =~= s.subrange(i + 1, s.len() as int));
        assert forall|k: int| 0 <= k < i + 1 implies is_white_space(#[trigger] s[k]) by {
            if k > 0 {
                assert(s[k] == d[k - 1]);
            }
        }
    } else {
        assert(s.subrange(0, s.len() as int) =~= s);
    }
}

proof fn lemma_trim_end(s: Seq<char>)
    ensures
        trim_end_chars(s).len() > 0 ==> !is_white_space(trim_end_chars(s).last()),
        exists|j: int|
            0 <= j <= s.len() && trim_end_chars(s) == s.subrange(0, j) && forall|k: int|
                j <= k < s.len() ==> is_white_space(#[trigger] s[k]),
    decreases s.len(),
{
    if s.len() > 0 && is_white_space(s.last()) {
        let d = s.drop_last();
        lemma_trim_end(d);
        let j = choose|j: int|
            0 <= j <= d.len() && trim_end_chars(d) == d.subrange(0, j) && forall|k: int|
                j <= k < d.len() ==> is_white_space(#[trigger] d[k]);
        assert(d.subrange(0, j) =~= s.subrange(0, j));
        assert forall|k: int| j <= k < s.len() implies is_white_space(#[trigger] s[k]) by {
            if k < d.len() {
                assert(s[k] == d[k]);
            }
        }
    } else {
        assert(s.subrange(0, s.len() as int) =~= s);
    }
}

/// `s[i..j)` is what is left of `s` once its leading and trailing white
/// space is gone: everything before `i` and from `j` on is white space, and
/// `s[i..j)` neither starts nor ends with white space.
pub open spec fn trimmed_at(s: Seq<char>, i: int, j: int) -> bool {
    &&& 0 <= i <= j <= s.len()
    &&& forall|k: int| 0 <= k < i ==> is_white_space(#[trigger] s[k])
    &&& forall|k: int| j <= k < s.len() ==> is_white_space(#[trigger] s[k])
    &&& i < j ==> !is_white_space(s[i]) && !is_white_space(s[j - 1])
}

/// What `str::trim` leaves is exactly the part of the text between its
/// leading and its trailing white space (`trimmed_at`); it neither starts nor
/// ends with white space, and trimming it again changes nothing.
pub proof fn lemma_trim_chars(s: Seq<char>)
    ensures
        exists|i: int, j: int| #[trigger]
            trimmed_at(s, i, j) && trim_chars(s) == s.subrange(i, j),
        trim_chars(s).len() > 0 ==> !is_white_space(trim_chars(s)[0]) && !is_white_space(
            trim_chars(s).last(),
        ),
        trim_chars(trim_chars(s)) == trim_chars(s),
{
    let t = trim_start_chars(s);
    let u = trim_end_chars(t);
    lemma_trim_start(s);
    lemma_trim_end(t);
    let i = choose|i: int|
        0 <= i <= s.len() && t == s.subrange(i, s.len() as int) && forall|k: int|
            0 <= k < i ==> is_white_space(#[trigger] s[k]);
    let j = choose|j: int|
        0 <= j <= t.len() && u == t.subrange(0, j) && forall|k: int|
            j <= k < t.len() ==> is_white_space(#[trigger] t[k]);
    assert(u =~= s.subrange(i, i + j));
    assert forall|k: int| i + j <= k < s.len() implies is_white_space(#[trigger] s[k]) by {
        assert(s[k] == t[k - i]);
    }
    if u.len() > 0 {
        assert(u[0] == t[0]);
        assert(s[i] == u[0]);
        assert(s[i + j - 1] == u.last());
        assert(trim_start_chars(u) == u);
        assert(trim_end_chars(u) == u);
    } else {
        assert(trim_start_chars(u) == u);
        assert(trim_end_chars(u) == u);
    }
    assert(trimmed_at(s, i, i + j));
}

/// `str::trim`: the text without leading and trailing white space.
pub fn trim_text<'a>(s: &'a str) -> (r: &'a str)
    ensures
        r@ == trim_chars(s@),
{
    let n = s.unicode_len();
    let mut i: usize = 0;
    assert(s@.subrange(0, n as int) =~= s@);
    while i < n && is_white_space_char(s.get_char(i))
        invariant
            i <= n,
            n == s@.len(),
            trim_start_chars(s@) == trim_start_chars(s@.subrange(i as int, n as int)),
        decreases n - i,
    {
        assert(s@.subrange(i as int, n as int).drop_first() =~= s@.subrange(i + 1, n as int));
        i = i + 1;
    }
    assert(trim_start_chars(s@) == s@.subrange(i as int, n as int));
    let mut j: usize = n;
    while j > i && is_white_space_char(s.get_char(j - 1))
        invariant
            i <= j <= n,
            n == s@.len(),
            trim_chars(s@) == trim_end_chars(s@.subrange(i as int, j as int)),
        decreases j,
    {
        assert(s@.subrange(i as int, j as int).drop_last() =~= s@.subrange(i as int, j - 1));
        j = j - 1;
    }
    s.substring_char(i, j)
}

/// `String::from_utf8_lossy`: the text that the bytes decode to, with each
/// ill-formed part replaced by U+FFFD.
pub uninterp spec fn utf8_lossy(bytes: Seq<u8>) -> Seq<char>;

/// Calls `String::from_utf8_lossy`. Claimed: the result is `utf8_lossy` of
/// the bytes, and bytes that are valid UTF-8 come back decoded unchanged (the
/// function's documentation: valid input is borrowed as it is).
#[verifier::external_body]
pub(crate) fn lossy_text(bytes: &[u8]) -> (s: String)
    ensures
        s@ == utf8_lossy(bytes@),
        valid_utf8(bytes@) ==> s@ == decode_utf8(bytes@),
{
    String::from_utf8_lossy(bytes).into_owned()
}

/// Calls `std::str::from_utf8`. Claimed: it succeeds exactly on valid UTF-8,
/// and the text it then returns has the input as its bytes.
#[verifier::external_body]
pub(crate) fn utf8_text<'a>(bytes: &'a [u8]) -> (r: Option<&'a str>)
    ensures
        r is Some <==> valid_utf8(bytes@),
        r matches Some(s) ==> s.spec_bytes() == bytes@,
{
    std::str::from_utf8(bytes).ok()
}

/// The text that the valid UTF-8 bytes `b[lo..hi)` spell.
pub open spec fn chars_of(b: Seq<u8>, lo: int, hi: int) -> Seq<char> {
    decode_utf8(b.subrange(lo, hi))
}

/// `k` is where a character starts in `b`, or its end.
pub open spec fn starts_char(b: Seq<u8>, k: int) -> bool {
    0 <= k <= b.len() && (k == b.len() || !is_continuation_byte(b[k]))
}

proof fn lemma_boundary_after_ascii(b: Seq<u8>, k: int)
    requires
        valid_utf8(b),
        0 <= k < b.len(),
        is_char_boundary(b, k),
        b[k] <= 0x7f,
    ensures
        is_char_boundary(b, k + 1),
    decreases b.len(),
{
    let l = length_of_first_scalar(b);
    let tail = pop_first_scalar(b);
    assert(valid_first_scalar(b) && valid_utf8(tail));
    if k == 0 {
        assert(l == 1);
        assert(is_char_boundary(tail, 0));
    } else {
        assert(tail.len() == b.len() - l);
        assert(is_char_boundary(tail, k - l));
        assert(tail[k - l] == b[k]);
        lemma_boundary_after_ascii(tail, k - l);
    }
}

/// In valid UTF-8, a byte that follows an ASCII byte starts a character.
pub proof fn lemma_starts_char_after_ascii(b: Seq<u8>, k: int)
    requires
        valid_utf8(b),
        0 < k <= b.len(),
        b[k - 1] <= 0x7f,
    ensures
        starts_char(b, k),
{
    is_char_boundary_iff_not_is_continuation_byte(b, k - 1);
    lemma_boundary_after_ascii(b, k - 1);
    if k < b.len() {
        is_char_boundary_iff_not_is_continuation_byte(b, k);
    }
}

proof fn lemma_starts_char_boundary(b: Seq<u8>, k: int)
    requires
        valid_utf8(b),
        starts_char(b, k),
    ensures
        is_char_boundary(b, k),
{
    if k == b.len() {
        is_char_boundary_start_end_of_seq(b);
    } else {
        is_char_boundary_iff_not_is_continuation_byte(b, k);
    }
}

/// The part of `s` between the byte positions `i` and `j`, both of which start
/// a character.
pub fn sub_text<'a>(s: &'a str, i: usize, j: usize) -> (r: &'a str)
    requires
        i <= j,
        starts_char(s.spec_bytes(), i as int),
        starts_char(s.spec_bytes(), j as int),
    ensures
        r.spec_bytes() == s.spec_bytes().subrange(i as int, j as int),
        r@ == decode_utf8(s.spec_bytes().subrange(i as int, j as int)),
{
    let ghost b = s.spec_bytes();
    proof {
        encode_utf8_valid_utf8(s@);
        lemma_starts_char_boundary(b, i as int);
        valid_utf8_split(b, i as int);
    }
    let (_, rest) = s.split_at(i);
    let ghost rb = rest.spec_bytes();
    proof {
        assert(rb =~= b.subrange(i as int, b.len() as int));
        if j < b.len() {
            assert(rb[j - i] == b[j as int]);
        }
        assert(starts_char(rb, j - i));
        lemma_starts_char_boundary(rb, j - i);
    }
    let (mid, _) = rest.split_at(j - i);
    proof {
        assert(mid.spec_bytes() =~= b.subrange(i as int, j as int));
        encode_utf8_decode_utf8(mid@);
    }
    mid
}

} // verus!
