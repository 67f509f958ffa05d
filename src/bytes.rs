//! Byte-level building blocks: half-open spans into a buffer, searching,
//! splitting on a delimiter, and decimal numbers.
use vstd::prelude::*;
use vstd::utf8::{is_leading_byte_width_1, is_leading_byte_width_2, is_leading_byte_width_3};

verus! {

/// A half-open byte interval `[start, end)` into a buffer.
#[derive(Clone, Copy, Debug, PartialEq, Eq, Structural)]
pub struct Span {
    pub start: usize,
    pub end: usize,
}

/// The span `[s, e)`.
pub open spec fn span(s: int, e: int) -> Span {
    Span { start: s as usize, end: e as usize }
}

impl Span {
    /// The span that marks a field as absent.
    pub open spec fn absent() -> Span {
        Span { start: 0, end: 0 }
    }

    /// The span lies within a buffer of `len` bytes.
    pub open spec fn fits(self, len: int) -> bool {
        self.start <= self.end && self.end <= len
    }

    /// The number of bytes the span covers.
    pub open spec fn len(self) -> int {
        self.end - self.start
    }

    /// The bytes of `buf` that the span covers.
    pub open spec fn of(self, buf: Seq<u8>) -> Seq<u8> {
        buf.subrange(self.start as int, self.end as int)
    }

    /// The span from the offsets `[start, end]`.
    pub fn from_pair(r: [usize; 2]) -> (s: Span)
        ensures
            s.start == r@[0],
            s.end == r@[1],
    {
        Span { start: r[0], end: r[1] }
    }
}

/// The first offset in `[s, e)` that holds `c`, or `e` where none does.
pub open spec fn first_index(buf: Seq<u8>, s: int, e: int, c: u8) -> int
    decreases e - s,
{
    if s >= e {
        e
    } else if buf[s] == c {
        s
    } else {
        first_index(buf, s + 1, e, c)
    }
}

/// The last offset in `[s, e)` that holds `c`, if any does.
pub open spec fn last_index(buf: Seq<u8>, s: int, e: int, c: u8) -> Option<int>
    decreases e - s,
{
    if e <= s {
        None
    } else if buf[e - 1] == c {
        Some(e - 1)
    } else {
        last_index(buf, s, e - 1, c)
    }
}

/// `pat` occurs in `buf` at offset `k`, ending no later than `e`.
pub open spec fn occurs_at(buf: Seq<u8>, k: int, e: int, pat: Seq<u8>) -> bool {
    k + pat.len() <= e && buf.subrange(k, k + pat.len()) == pat
}

/// The pieces of `[s, e)` between the occurrences of `pat`, searched left to
/// right without overlap, where the current piece began at `s` and the search
/// has reached `cur`.
pub open spec fn pieces_from(buf: Seq<u8>, s: int, cur: int, e: int, pat: Seq<u8>) -> Seq<Span>
    decreases e - cur,
{
    if pat.len() == 0 || cur + pat.len() > e {
        seq![span(s, e)]
    } else if occurs_at(buf, cur, e, pat) {
        seq![span(s, cur)] + pieces_from(buf, cur + pat.len(), cur + pat.len(), e, pat)
    } else {
        pieces_from(buf, s, cur + 1, e, pat)
    }
}

/// The pieces of `[s, e)` separated by the occurrences of `pat`: one more
/// piece than there are occurrences, so an empty range gives one empty piece.
pub open spec fn pieces(buf: Seq<u8>, s: int, e: int, pat: Seq<u8>) -> Seq<Span> {
    pieces_from(buf, s, s, e, pat)
}

/// Every span of `ps` lies within `[s, e)`.
pub open spec fn spans_within(ps: Seq<Span>, s: int, e: int) -> bool {
    forall|i: int| 0 <= i < ps.len() ==> s <= (#[trigger] ps[i]).start && ps[i].start <= ps[i].end && ps[i].end <= e
}

pub(crate) proof fn lemma_pieces_within(buf: Seq<u8>, s: int, cur: int, e: int, pat: Seq<u8>)
    requires
        0 <= s <= cur <= e,
        e <= usize::MAX,
    ensures
        spans_within(pieces_from(buf, s, cur, e, pat), s, e),
        pieces_from(buf, s, cur, e, pat).len() >= 1,
    decreases e - cur,
{
    if pat.len() == 0 || cur + pat.len() > e {
    } else if occurs_at(buf, cur, e, pat) {
        lemma_pieces_within(buf, cur + pat.len(), cur + pat.len(), e, pat);
        let rest = pieces_from(buf, cur + pat.len(), cur + pat.len(), e, pat);
        let all = seq![span(s, cur)] + rest;
        assert forall|i: int| 0 <= i < all.len() implies s <= (#[trigger] all[i]).start && all[i].start <= all[i].end && all[i].end <= e by {
            if i > 0 {
                assert(all[i] == rest[i - 1]);
            }
        }
    } else {
        lemma_pieces_within(buf, s, cur + 1, e, pat);
    }
}

/// Returns the first offset in `[s, e)` that holds `c`, or `e` where none does.
pub fn find_byte(buf: &[u8], s: usize, e: usize, c: u8) -> (r: usize)
    requires
        s <= e <= buf@.len(),
    ensures
        r == first_index(buf@, s as int, e as int, c),
        s <= r <= e,
{
    let mut k: usize = s;
    while k < e
        invariant
            s <= k <= e,
            e <= buf@.len(),
            first_index(buf@, k as int, e as int, c) == first_index(buf@, s as int, e as int, c),
        decreases e - k,
    {
        if buf[k] == c {
            return k;
        }
        k = k + 1;
    }
    k
}

/// Returns the last offset in `[s, e)` that holds `c`, if any does.
pub fn find_last_byte(buf: &[u8], s: usize, e: usize, c: u8) -> (r: Option<usize>)
    requires
        s <= e <= buf@.len(),
    ensures
        match r {
            Some(k) => last_index(buf@, s as int, e as int, c) == Some(k as int) && s <= k < e,
            None => last_index(buf@, s as int, e as int, c) is None,
        },
{
    let mut k: usize = e;
    while k > s
        invariant
            s <= k <= e,
            e <= buf@.len(),
            last_index(buf@, s as int, k as int, c) == last_index(buf@, s as int, e as int, c),
        decreases k,
    {
        if buf[k - 1] == c {
            return Some(k - 1);
        }
        k = k - 1;
    }
    None
}

/// Whether `pat` occurs in `buf` at offset `k`, ending no later than `e`.
fn occurs_here(buf: &[u8], k: usize, e: usize, pat: &[u8]) -> (r: bool)
    requires
        k <= e <= buf@.len(),
    ensures
        r == occurs_at(buf@, k as int, e as int, pat@),
{
    if pat.len() > e - k {
        return false;
    }
    let mut j: usize = 0;
    while j < pat.len()
        invariant
            k + pat@.len() <= e <= buf@.len(),
            j <= pat@.len(),
            forall|t: int| 0 <= t < j ==> buf@[k + t] == pat@[t],
        decreases pat@.len() - j,
    {
        if buf[k + j] != pat[j] {
            assert(buf@.subrange(k as int, k + pat@.len())[j as int] != pat@[j as int]);
            return false;
        }
        j = j + 1;
    }
    assert(buf@.subrange(k as int, k + pat@.len()) =~= pat@);
    true
}

/// Splits `[s, e)` of `buf` into the pieces between the occurrences of `pat`.
pub fn split_on(buf: &[u8], s: usize, e: usize, pat: &[u8]) -> (r: Vec<Span>)
    requires
        s <= e <= buf@.len(),
    ensures
        r@ == pieces(buf@, s as int, e as int, pat@),
        spans_within(r@, s as int, e as int),
        r@.len() >= 1,
{
    proof {
        lemma_pieces_within(buf@, s as int, s as int, e as int, pat@);
    }
    let mut chunks: Vec<Span> = Vec::new();
    let mut start: usize = s;
    let mut cur: usize = s;
    if pat.len() == 0 {
        chunks.push(Span { start: s, end: e });
        return chunks;
    }
    while cur < e && pat.len() <= e - cur
        invariant
            s <= start <= cur <= e <= buf@.len(),
            pat@.len() > 0,
            chunks@ + pieces_from(buf@, start as int, cur as int, e as int, pat@) == pieces(
                buf@,
                s as int,
                e as int,
                pat@,
            ),
        decreases e - cur,
    {
        if occurs_here(buf, cur, e, pat) {
            let ghost rest = pieces_from(buf@, (cur + pat@.len()) as int, (cur + pat@.len()) as int, e as int, pat@);
            let ghost prev = chunks@;
            chunks.push(Span { start: start, end: cur });
            assert(chunks@ + rest == prev + (seq![span(start as int, cur as int)] + rest));
            cur = cur + pat.len();
            start = cur;
        } else {
            cur = cur + 1;
        }
    }
    let ghost before = chunks@;
    chunks.push(Span { start: start, end: e });
    assert(chunks@ == before + pieces_from(buf@, start as int, cur as int, e as int, pat@));
    chunks
}

/// The value of a sequence of decimal digits.
pub open spec fn digits_value(d: Seq<u8>) -> nat
    decreases d.len(),
{
    if d.len() == 0 {
        0
    } else {
        digits_value(d.drop_last()) * 10 + (d.last() - 48) as nat
    }
}

/// `b` is an ASCII decimal digit.
pub open spec fn is_digit(b: u8) -> bool {
    48 <= b <= 57
}

/// The digits of an unsigned decimal numeral: a leading `+` is dropped.
pub open spec fn unsigned_digits(d: Seq<u8>) -> Seq<u8> {
    if d.len() > 0 && d[0] == 43 {
        d.drop_first()
    } else {
        d
    }
}

/// The value of an unsigned decimal numeral that fits in `usize`: an optional
/// `+` and one or more digits, nothing else.
pub open spec fn decimal_value(d: Seq<u8>) -> Option<nat> {
    let digits = unsigned_digits(d);
    if digits.len() > 0 && (forall|i: int| 0 <= i < digits.len() ==> is_digit(#[trigger] digits[i]))
        && digits_value(digits) <= usize::MAX {
        Some(digits_value(digits))
    } else {
        None
    }
}

proof fn lemma_digits_value_grows(d: Seq<u8>, j: int, k: int)
    requires
        0 <= j <= k <= d.len(),
    ensures
        digits_value(d.subrange(0, j)) <= digits_value(d.subrange(0, k)),
    decreases k - j,
{
    if j < k {
        lemma_digits_value_grows(d, j, k - 1);
        assert(d.subrange(0, k).drop_last() =~= d.subrange(0, k - 1));
    }
}

/// Reads an unsigned decimal numeral, as `usize`'s `from_str` does: `None`
/// where the bytes are not one or its value does not fit.
pub fn parse_decimal(b: &[u8]) -> (r: Option<usize>)
    ensures
        match r {
            Some(v) => decimal_value(b@) == Some(v as nat),
            None => decimal_value(b@) is None,
        },
{
    let ghost digits = unsigned_digits(b@);
    let mut i: usize = 0;
    if b.len() > 0 && b[0] == 43u8 {
        i = 1;
    }
    assert(digits =~= b@.subrange(i as int, b@.len() as int));
    if i >= b.len() {
        return None;
    }
    let start = i;
    let mut value: usize = 0;
    while i < b.len()
        invariant
            start <= i <= b@.len(),
            digits == unsigned_digits(b@),
            digits == b@.subrange(start as int, b@.len() as int),
            value == digits_value(digits.subrange(0, i - start)),
            forall|t: int| 0 <= t < i - start ==> is_digit(#[trigger] digits[t]),
        decreases b@.len() - i,
    {
        let c = b[i];
        if c < 48u8 || c > 57u8 {
            assert(!is_digit(digits[i - start]));
            return None;
        }
        assert(digits.subrange(0, i + 1 - start).drop_last() =~= digits.subrange(0, i - start));
        match value.checked_mul(10) {
            Some(m) => match m.checked_add((c - 48u8) as usize) {
                Some(v) => {
                    value = v;
                },
                None => {
                    proof {
                        lemma_digits_value_grows(digits, i + 1 - start, digits.len() as int);
                        assert(digits.subrange(0, digits.len() as int) =~= digits);
                    }
                    return None;
                },
            },
            None => {
                proof {
                    lemma_digits_value_grows(digits, i + 1 - start, digits.len() as int);
                    assert(digits.subrange(0, digits.len() as int) =~= digits);
                }
                return None;
            },
        }
        i = i + 1;
    }
    assert(digits.subrange(0, digits.len() as int) =~= digits);
    Some(value)
}

/// The number of bytes that UTF-8 gives a character led by `b`.
pub open spec fn scalar_width(b: u8) -> int {
    if is_leading_byte_width_1(b) {
        1
    } else if is_leading_byte_width_2(b) {
        2
    } else if is_leading_byte_width_3(b) {
        3
    } else {
        4
    }
}

/// The spans of the characters of `[c, e)`, one per character.
pub open spec fn char_spans(buf: Seq<u8>, c: int, e: int) -> Seq<Span>
    decreases e - c,
{
    if c >= e {
        seq![]
    } else {
        let n = if c + scalar_width(buf[c]) > e {
            e
        } else {
            c + scalar_width(buf[c])
        };
        seq![span(c, n)] + char_spans(buf, n, e)
    }
}

/// The pieces of `[s, e)` around the empty pattern, which occurs at every
/// character boundary: an empty piece, each character, an empty piece.
pub open spec fn char_pieces(buf: Seq<u8>, s: int, e: int) -> Seq<Span> {
    seq![span(s, s)] + char_spans(buf, s, e) + seq![span(e, e)]
}

/// The pieces of `[s, e)` separated by `pat`, an empty pattern included.
pub open spec fn split_spans(buf: Seq<u8>, s: int, e: int, pat: Seq<u8>) -> Seq<Span> {
    if pat.len() == 0 {
        char_pieces(buf, s, e)
    } else {
        pieces(buf, s, e, pat)
    }
}

/// Splits `[s, e)` of `buf` into an empty piece, one piece per character,
/// and an empty piece.
pub fn split_chars(buf: &[u8], s: usize, e: usize) -> (r: Vec<Span>)
    requires
        s <= e <= buf@.len(),
    ensures
        r@ == char_pieces(buf@, s as int, e as int),
        spans_within(r@, s as int, e as int),
{
    let mut out: Vec<Span> = Vec::new();
    out.push(Span { start: s, end: s });
    let mut c: usize = s;
    while c < e
        invariant
            s <= c <= e <= buf@.len(),
            out@ + char_spans(buf@, c as int, e as int) + seq![span(e as int, e as int)] == char_pieces(
                buf@,
                s as int,
                e as int,
            ),
            spans_within(out@, s as int, e as int),
        decreases e - c,
    {
        let b = buf[c];
        let w: usize = if b <= 0x7fu8 {
            1
        } else if 0xc0u8 <= b && b <= 0xdfu8 {
            2
        } else if 0xe0u8 <= b && b <= 0xefu8 {
            3
        } else {
            4
        };
        let n = if w > e - c {
            e
        } else {
            c + w
        };
        let ghost prev = out@;
        let ghost rest = char_spans(buf@, n as int, e as int);
        out.push(Span { start: c, end: n });
        assert(out@ + rest == prev + (seq![span(c as int, n as int)] + rest));
        assert(out@ + rest + seq![span(e as int, e as int)] == prev + char_spans(buf@, c as int, e as int) + seq![span(e as int, e as int)]);
        c = n;
    }
    let ghost prev = out@;
    out.push(Span { start: e, end: e });
    assert(out@ =~= prev + char_spans(buf@, c as int, e as int) + seq![span(e as int, e as int)]);
    out
}

} // verus!
