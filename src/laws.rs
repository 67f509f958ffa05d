//! Laws that relate the library's functions to one another.
use vstd::prelude::*;
use vstd::utf8::*;
use crate::bytes::{Span, first_index, last_index, occurs_at, pieces, pieces_from, span};
use crate::maps::{pairs_into, map_of_pairs, pair_spans};
use crate::text::text_or_empty;
use crate::parser::{
    Fields, LineCursor, ParserView, ContentType, outstanding, scan, run, method_named, param_name, params_update,
    content_type_update, charset_name, boundary_name, header_name, cookie_name, content_length_name,
    content_type_name,
};

verus! {

proof fn lemma_first_index_at(buf: Seq<u8>, s: int, e: int, c: u8, k: int)
    requires
        s <= k < e,
        buf[k] == c,
        forall|j: int| s <= j < k ==> buf[j] != c,
    ensures
        first_index(buf, s, e, c) == k,
    decreases k - s,
{
    if s < k {
        lemma_first_index_at(buf, s + 1, e, c, k);
    }
}

proof fn lemma_last_index_at(buf: Seq<u8>, s: int, e: int, c: u8, k: int)
    requires
        s <= k < e,
        buf[k] == c,
        forall|j: int| k < j < e ==> buf[j] != c,
    ensures
        last_index(buf, s, e, c) == Some(k),
    decreases e - k,
{
    if k < e - 1 {
        lemma_last_index_at(buf, s, e - 1, c, k);
    }
}

/// The target `src` holds exactly one `?`, at offset `k`.
pub open spec fn single_question(buf: Seq<u8>, src: Span, k: int) -> bool {
    &&& src.start <= k < src.end
    &&& buf[k] == 63u8
    &&& forall|j: int| src.start <= j < src.end && j != k ==> buf[j] != 63u8
}

/// Where the target holds exactly one `?`, the path, a `?` and the query put
/// back together give the target.
pub proof fn lemma_target_reassembles(v: ParserView, k: int)
    requires
        v.wf(),
        single_question(v.buf, v.fields.src, k),
    ensures
        v.page_span().of(v.buf) + seq![63u8] + v.params_span().of(v.buf) == v.fields.src.of(v.buf),
{
    let src = v.fields.src;
    lemma_first_index_at(v.buf, src.start as int, src.end as int, 63u8, k);
    lemma_last_index_at(v.buf, src.start as int, src.end as int, 63u8, k);
    assert(v.page_span().of(v.buf) + seq![63u8] + v.params_span().of(v.buf) =~= src.of(v.buf));
}

/// Where the target holds exactly one `?` and is valid UTF-8, the texts
/// that `get_page` and `get_params` return, joined by a `?`, give the text
/// that `get_src` returns.
pub proof fn lemma_target_text_reassembles(v: ParserView, k: int)
    requires
        v.wf(),
        single_question(v.buf, v.fields.src, k),
        v.text(v.fields.src) is Some,
    ensures
        v.text(v.page_span()) is Some,
        v.text(v.params_span()) is Some,
        v.text(v.page_span())->Some_0 + seq!['?'] + v.text(v.params_span())->Some_0 == v.text(
            v.fields.src,
        )->Some_0,
{
    let src = v.fields.src;
    lemma_first_index_at(v.buf, src.start as int, src.end as int, 63u8, k);
    lemma_last_index_at(v.buf, src.start as int, src.end as int, 63u8, k);
    let t = src.of(v.buf);
    let p = k - src.start;
    assert(t[p] == 63u8);
    is_char_boundary_iff_not_is_continuation_byte(t, p);
    valid_utf8_split(t, p);
    decode_utf8_split(t, p);
    let head = t.subrange(0, p);
    let t2 = t.subrange(p, t.len() as int);
    let tail = t2.subrange(1, t2.len() as int);
    assert(head =~= v.page_span().of(v.buf));
    assert(tail =~= v.params_span().of(v.buf));
    assert(t2[0] == 63u8);
    assert(63u8 & 0x7Fu8 == 63u8) by (bit_vector);
    assert(length_of_first_scalar(t2) == 1);
    assert(pop_first_scalar(t2) =~= tail);
    assert(decode_first_scalar(t2) == 63u32);
    assert((63u32 as char) == '?');
    assert(decode_utf8(t2) =~= seq!['?'] + decode_utf8(tail));
    assert(decode_utf8(t) =~= decode_utf8(head) + seq!['?'] + decode_utf8(tail));
}

/// `check_data` on a buffer reports nothing outstanding exactly when a parser
/// that has scanned the same buffer finds the body read.
pub proof fn lemma_outstanding_matches_body_read(buf: Seq<u8>)
    ensures
        (outstanding(buf) == 0) == (ParserView { buf: buf, fields: scan(buf, Fields::absent()) }).body_read(),
{
}

proof fn lemma_pairs_into_outside(m: Map<Seq<char>, Seq<char>>, ps: Seq<(Seq<char>, Seq<char>)>, k: Seq<char>)
    requires
        forall|i: int| 0 <= i < ps.len() ==> (#[trigger] ps[i]).0 != k,
    ensures
        pairs_into(m, ps).dom().contains(k) == m.dom().contains(k),
        m.dom().contains(k) ==> pairs_into(m, ps)[k] == m[k],
    decreases ps.len(),
{
    if ps.len() > 0 {
        assert forall|i: int| 0 <= i < ps.drop_last().len() implies (#[trigger] ps.drop_last()[i]).0 != k by {
            assert(ps.drop_last()[i] == ps[i]);
        }
        lemma_pairs_into_outside(m, ps.drop_last(), k);
        assert(ps.last() == ps[ps.len() - 1]);
    }
}

proof fn lemma_pairs_into_inside(
    m1: Map<Seq<char>, Seq<char>>,
    m2: Map<Seq<char>, Seq<char>>,
    ps: Seq<(Seq<char>, Seq<char>)>,
    k: Seq<char>,
    i: int,
)
    requires
        0 <= i < ps.len(),
        ps[i].0 == k,
    ensures
        pairs_into(m1, ps).dom().contains(k),
        pairs_into(m2, ps).dom().contains(k),
        pairs_into(m1, ps)[k] == pairs_into(m2, ps)[k],
    decreases ps.len(),
{
    if ps.last().0 != k {
        assert(i < ps.len() - 1);
        assert(ps.drop_last()[i] == ps[i]);
        lemma_pairs_into_inside(m1, m2, ps.drop_last(), k, i);
    }
}

/// Inserting the same pairs a second time changes nothing: building a
/// mapping from a range twice over gives the mapping of building it once.
pub proof fn lemma_pairs_into_twice(m: Map<Seq<char>, Seq<char>>, ps: Seq<(Seq<char>, Seq<char>)>)
    ensures
        pairs_into(pairs_into(m, ps), ps) == pairs_into(m, ps),
{
    let once = pairs_into(m, ps);
    let twice = pairs_into(once, ps);
    assert forall|k: Seq<char>| #[trigger] twice.dom().contains(k) == once.dom().contains(k)
        && (once.dom().contains(k) ==> twice[k] == once[k]) by {
        if exists|i: int| 0 <= i < ps.len() && (#[trigger] ps[i]).0 == k {
            let i = choose|i: int| 0 <= i < ps.len() && (#[trigger] ps[i]).0 == k;
            lemma_pairs_into_inside(once, m, ps, k, i);
        } else {
            lemma_pairs_into_outside(once, ps, k);
        }
    }
    assert(twice =~= once);
}

/// The mapping of a range's pairs absorbs those pairs: inserting them again
/// into it leaves it as it is.
pub proof fn lemma_map_of_pairs_idempotent(ps: Seq<(Seq<char>, Seq<char>)>)
    ensures
        pairs_into(map_of_pairs(ps), ps) == map_of_pairs(ps),
{
    lemma_pairs_into_twice(Map::empty(), ps);
}

/// Cutting a well-formed UTF-8 sequence just after an ASCII byte (or at its
/// start) and just before one (or at its end) leaves well-formed UTF-8.
proof fn lemma_ascii_cut_valid(t: Seq<u8>, a: int, b: int)
    requires
        valid_utf8(t),
        0 <= a <= b <= t.len(),
        a == 0 || t[a - 1] < 128,
        b == t.len() || t[b] < 128,
    ensures
        valid_utf8(t.subrange(a, b)),
{
    let w = t.subrange(a, t.len() as int);
    if a == 0 {
        assert(w =~= t);
    } else {
        is_char_boundary_iff_not_is_continuation_byte(t, a - 1);
        valid_utf8_split(t, a - 1);
        let u = t.subrange(a - 1, t.len() as int);
        assert(length_of_first_scalar(u) == 1);
        assert(pop_first_scalar(u) =~= w);
    }
    let c = b - a;
    if c == w.len() {
        assert(w.subrange(0, c) =~= w);
    } else {
        is_char_boundary_iff_not_is_continuation_byte(w, c);
        valid_utf8_split(w, c);
    }
    assert(w.subrange(0, c) =~= t.subrange(a, b));
}

/// Each piece ends at an occurrence of the pattern or at `e`, and starts at
/// `s` or just after an occurrence.
proof fn lemma_piece_edges(buf: Seq<u8>, s: int, cur: int, e: int, pat: Seq<u8>, i: int)
    requires
        0 <= s <= cur <= e,
        e <= usize::MAX,
        0 <= i < pieces_from(buf, s, cur, e, pat).len(),
        pat.len() > 0,
    ensures
        ({
            let p = pieces_from(buf, s, cur, e, pat)[i];
            &&& p.start == s || (p.start >= pat.len() && occurs_at(buf, p.start - pat.len(), e, pat))
            &&& p.end == e || occurs_at(buf, p.end as int, e, pat)
        }),
    decreases e - cur,
{
    if cur + pat.len() > e {
    } else if occurs_at(buf, cur, e, pat) {
        let rest = pieces_from(buf, cur + pat.len(), cur + pat.len(), e, pat);
        if i > 0 {
            assert(pieces_from(buf, s, cur, e, pat)[i] == rest[i - 1]);
            lemma_piece_edges(buf, cur + pat.len(), cur + pat.len(), e, pat, i - 1);
        }
    } else {
        lemma_piece_edges(buf, s, cur + 1, e, pat, i);
    }
}

/// The pattern is non-empty ASCII.
pub open spec fn ascii_pattern(pat: Seq<u8>) -> bool {
    pat.len() > 0 && forall|j: int| 0 <= j < pat.len() ==> #[trigger] pat[j] < 128
}

/// Where a range is valid UTF-8 and its pairs are separated by an ASCII
/// pattern, every key and every value of its pairs is well-formed UTF-8: the
/// texts that the map builders read are the full decodings of their bytes.
pub proof fn lemma_pair_texts_decode(buf: Seq<u8>, s: Span, pat: Seq<u8>, i: int)
    requires
        s.fits(buf.len() as int),
        valid_utf8(s.of(buf)),
        ascii_pattern(pat),
        0 <= i < pieces(buf, s.start as int, s.end as int, pat).len(),
    ensures
        ({
            let ks = pair_spans(buf, pieces(buf, s.start as int, s.end as int, pat)[i]);
            &&& valid_utf8(ks.0.of(buf))
            &&& valid_utf8(ks.1.of(buf))
            &&& text_or_empty(ks.0.of(buf)) == decode_utf8(ks.0.of(buf))
            &&& text_or_empty(ks.1.of(buf)) == decode_utf8(ks.1.of(buf))
        }),
{
    let t = s.of(buf);
    let o = s.start as int;
    let e = s.end as int;
    let p = pieces(buf, o, e, pat)[i];
    crate::bytes::lemma_pieces_within(buf, o, o, e, pat);
    lemma_piece_edges(buf, o, o, e, pat, i);
    assert(o <= p.start && p.start <= p.end && p.end <= e);
    if p.start != o {
        let q = p.start - pat.len();
        assert(buf.subrange(q, q + pat.len())[pat.len() - 1] == pat[pat.len() - 1]);
        assert(t[p.start - 1 - o] == buf[p.start - 1]);
    }
    if p.end != e {
        assert(buf.subrange(p.end as int, p.end + pat.len())[0] == pat[0]);
        assert(t[p.end - o] == buf[p.end as int]);
    }
    let k1 = first_index(buf, p.start as int, p.end as int, 61u8);
    lemma_first_index_bounds(buf, p.start as int, p.end as int, 61u8);
    if k1 < p.end {
        assert(t[k1 - o] == buf[k1]);
    }
    lemma_ascii_cut_valid(t, p.start - o, k1 - o);
    assert(t.subrange(p.start - o, k1 - o) =~= buf.subrange(p.start as int, k1));
    if k1 >= p.end {
        assert(span(p.end as int, p.end as int).of(buf) =~= Seq::<u8>::empty());
    } else {
        let k2 = first_index(buf, k1 + 1, p.end as int, 61u8);
        lemma_first_index_bounds(buf, k1 + 1, p.end as int, 61u8);
        if k2 < p.end {
            assert(t[k2 - o] == buf[k2]);
        }
        lemma_ascii_cut_valid(t, k1 + 1 - o, k2 - o);
        assert(t.subrange(k1 + 1 - o, k2 - o) =~= buf.subrange(k1 + 1, k2));
    }
}

proof fn lemma_first_index_bounds(buf: Seq<u8>, s: int, e: int, c: u8)
    requires
        s <= e,
    ensures
        s <= first_index(buf, s, e, c) <= e,
        first_index(buf, s, e, c) < e ==> buf[first_index(buf, s, e, c)] == c,
    decreases e - s,
{
    if s < e && buf[s] != c {
        lemma_first_index_bounds(buf, s + 1, e, c);
    }
}

proof fn lemma_first_index_extend(buf: Seq<u8>, a: int, n: int, c: u8)
    requires
        a <= n,
    ensures
        first_index(buf, a, n + 1, c) == (if first_index(buf, a, n, c) < n {
            first_index(buf, a, n, c)
        } else if buf[n] == c {
            n
        } else {
            n + 1
        }),
    decreases n - a,
{
    if a < n && buf[a] != c {
        lemma_first_index_extend(buf, a + 1, n, c);
    } else if a == n {
        assert(first_index(buf, n + 1, n + 1, c) == n + 1);
    }
}

proof fn lemma_first_index_skips(buf: Seq<u8>, s: int, e: int, c: u8, j: int)
    requires
        s <= j < first_index(buf, s, e, c),
    ensures
        buf[j] != c,
    decreases e - s,
{
    if s < e && buf[s] != c && s < j {
        lemma_first_index_skips(buf, s + 1, e, c, j);
    }
}

/// Offset of the carriage return that ends the request line, or the
/// buffer's length where there is none.
pub open spec fn request_line_end(buf: Seq<u8>) -> int {
    first_index(buf, 0, buf.len() as int, 13u8)
}

/// Offset of the request line's first space (its end where there is none).
pub open spec fn first_space(buf: Seq<u8>) -> int {
    first_index(buf, 0, request_line_end(buf), 32u8)
}

/// Offset of the request line's second space (its end where there is none).
pub open spec fn second_space(buf: Seq<u8>) -> int {
    first_index(buf, first_space(buf) + 1, request_line_end(buf), 32u8)
}

/// What the scan has recorded after the first `n` bytes of the request line.
spec fn request_line_state(buf: Seq<u8>, f0: Fields, n: int) -> bool {
    let st = run(buf, f0, n as nat);
    let a = first_index(buf, 0, n, 32u8);
    let b = first_index(buf, a + 1, n, 32u8);
    &&& !st.2
    &&& st.0.first_line
    &&& !st.0.last_r
    &&& !st.0.line_start
    &&& st.0.space_set == (a < n)
    &&& (a < n ==> st.0.space_pos == a)
    &&& st.0.target_set == (a < n && b < n)
    &&& st.1.src == (if a < n && b < n { span(a + 1, b) } else { f0.src })
    &&& st.1.method == (if a < n { method_named(buf.subrange(0, a)) } else { f0.method })
    &&& st.1.body == f0.body
    &&& st.1.cookie == f0.cookie
    &&& st.1.content_length == f0.content_length
    &&& st.1.content_type == f0.content_type
}

proof fn lemma_request_line_state(buf: Seq<u8>, f0: Fields, n: int)
    requires
        0 <= n <= request_line_end(buf),
        buf.len() <= usize::MAX,
    ensures
        request_line_state(buf, f0, n),
    decreases n,
{
    lemma_first_index_bounds(buf, 0, buf.len() as int, 13u8);
    if n > 0 {
        let m = n - 1;
        lemma_request_line_state(buf, f0, m);
        lemma_first_index_skips(buf, 0, buf.len() as int, 13u8, m);
        lemma_first_index_extend(buf, 0, m, 32u8);
        lemma_first_index_bounds(buf, 0, m, 32u8);
        let a = first_index(buf, 0, m, 32u8);
        if a < m {
            lemma_first_index_extend(buf, a + 1, m, 32u8);
        }
    }
}

/// Past the request line, the method and the target are never written again.
proof fn lemma_after_request_line(buf: Seq<u8>, f0: Fields, n: int)
    requires
        request_line_end(buf) < n <= buf.len(),
        buf.len() <= usize::MAX,
    ensures
        ({
            let r = request_line_end(buf);
            let st = run(buf, f0, n as nat);
            &&& st.1.src == run(buf, f0, r as nat).1.src
            &&& st.1.method == run(buf, f0, r as nat).1.method
            &&& !st.2 ==> (n == r + 1 ==> st.0.first_line && st.0.last_r && !st.0.line_start)
            &&& n == r + 1 ==> st.1 == run(buf, f0, r as nat).1
            &&& !st.2 ==> (n >= r + 2 ==> !st.0.first_line)
        }),
    decreases n,
{
    let r = request_line_end(buf);
    lemma_first_index_bounds(buf, 0, buf.len() as int, 13u8);
    if n == r + 1 {
        lemma_request_line_state(buf, f0, r);
    } else {
        lemma_after_request_line(buf, f0, n - 1);
    }
}

/// The scan takes the method from the bytes before the request line's first
/// space, and the target from the bytes between its first and second
/// spaces; where the line has fewer spaces, they keep their prior values.
pub proof fn lemma_scan_request_line(buf: Seq<u8>, f0: Fields)
    requires
        buf.len() <= usize::MAX,
    ensures
        ({
            let r = request_line_end(buf);
            let s1 = first_space(buf);
            let s2 = second_space(buf);
            let f = scan(buf, f0);
            &&& s1 < r ==> f.method == method_named(buf.subrange(0, s1))
            &&& s1 >= r ==> f.method == f0.method
            &&& s1 < r && s2 < r ==> f.src == span(s1 + 1, s2)
            &&& !(s1 < r && s2 < r) ==> f.src == f0.src
        }),
{
    let r = request_line_end(buf);
    lemma_first_index_bounds(buf, 0, buf.len() as int, 13u8);
    lemma_request_line_state(buf, f0, r);
    if r < buf.len() {
        lemma_after_request_line(buf, f0, buf.len() as int);
    }
}

/// Segment `seg` of a content-type value is a parameter called `name`.
pub open spec fn names_param(buf: Seq<u8>, seg: Span, name: Seq<char>) -> bool {
    let k = first_index(buf, seg.start as int, seg.end as int, 61u8);
    k < seg.end && param_name(buf.subrange(seg.start as int, k)) == name
}

/// The value range of a parameter segment: after its first `=`, to its end.
pub open spec fn param_value(buf: Seq<u8>, seg: Span) -> Span {
    span(first_index(buf, seg.start as int, seg.end as int, 61u8) + 1, seg.end as int)
}

/// Among the segments `1..n`, only segment `j` is a parameter called `name`.
pub open spec fn only_segment_naming(buf: Seq<u8>, segs: Seq<Span>, n: int, j: int, name: Seq<char>) -> bool {
    &&& 1 <= j < n <= segs.len()
    &&& names_param(buf, segs[j], name)
    &&& forall|i: int| 1 <= i < n && i != j ==> !names_param(buf, #[trigger] segs[i], name)
}

proof fn lemma_params_single(buf: Seq<u8>, segs: Seq<Span>, n: int, j: int, ct: ContentType)
    requires
        only_segment_naming(buf, segs, n, j, charset_name()) || only_segment_naming(buf, segs, n, j, boundary_name()),
    ensures
        only_segment_naming(buf, segs, n, j, charset_name()) ==> params_update(buf, segs, n, ct).charset
            == param_value(buf, segs[j]),
        only_segment_naming(buf, segs, n, j, boundary_name()) ==> params_update(buf, segs, n, ct).boundary
            == param_value(buf, segs[j]),
    decreases n,
{
    assert(charset_name() != boundary_name()) by {
        assert(charset_name().len() != boundary_name().len());
    }
    if n - 1 > j {
        assert(!names_param(buf, segs[n - 1], charset_name()) || !only_segment_naming(buf, segs, n, j, charset_name()));
        assert(!names_param(buf, segs[n - 1], boundary_name()) || !only_segment_naming(buf, segs, n, j, boundary_name()));
        lemma_params_single(buf, segs, n - 1, j, ct);
    }
}

/// Content-type parameters may come in any order: where exactly one segment
/// after the media type names the charset (or the boundary), the recorded
/// range is that segment's value, wherever it stands; the media type is the
/// first segment.
pub proof fn lemma_content_type_any_order(buf: Seq<u8>, v: Span, ct: ContentType, j: int)
    ensures
        ({
            let segs = pieces(buf, v.start as int, v.end as int, seq![59u8]);
            let r = content_type_update(buf, v, ct);
            &&& r.media_type == segs[0]
            &&& only_segment_naming(buf, segs, segs.len() as int, j, charset_name()) ==> r.charset == param_value(buf, segs[j])
            &&& only_segment_naming(buf, segs, segs.len() as int, j, boundary_name()) ==> r.boundary == param_value(buf, segs[j])
        }),
{
    let segs = pieces(buf, v.start as int, v.end as int, seq![59u8]);
    let ct1 = ContentType { media_type: segs[0], ..ct };
    lemma_params_media(buf, segs, segs.len() as int, ct1);
    if only_segment_naming(buf, segs, segs.len() as int, j, charset_name())
        || only_segment_naming(buf, segs, segs.len() as int, j, boundary_name()) {
        lemma_params_single(buf, segs, segs.len() as int, j, ct1);
    }
}

proof fn lemma_params_media(buf: Seq<u8>, segs: Seq<Span>, n: int, ct: ContentType)
    ensures
        params_update(buf, segs, n, ct).media_type == ct.media_type,
    decreases n,
{
    if n > 1 {
        lemma_params_media(buf, segs, n - 1, ct);
    }
}

/// Offset of the blank line that ends the headers, searching from the line
/// that starts at `q`: a line ends at its carriage return, and the next one
/// starts two bytes later.
pub open spec fn blank_line_from(buf: Seq<u8>, q: int) -> Option<int>
    decreases buf.len() - q,
{
    if q < 0 || q >= buf.len() {
        None
    } else if buf[q] == 13u8 {
        Some(q)
    } else {
        let e = first_index(buf, q, buf.len() as int, 13u8);
        if e <= q || e + 2 > buf.len() {
            None
        } else {
            blank_line_from(buf, e + 2)
        }
    }
}

/// The body range for a blank line at offset `i`: from two bytes after it to
/// the end, or absent where no byte follows the line.
pub open spec fn body_after(buf: Seq<u8>, i: int) -> Span {
    if i + 2 < buf.len() {
        span(i + 2, buf.len() as int)
    } else {
        Span::absent()
    }
}

/// The scan stands at the start of a header line at offset `q`.
spec fn at_line_start(c: LineCursor) -> bool {
    c.line_start && !c.last_r && !c.first_line
}

proof fn lemma_within_line(buf: Seq<u8>, f0: Fields, q: int, n: int)
    requires
        0 <= q < n <= first_index(buf, q, buf.len() as int, 13u8),
        q < buf.len() <= usize::MAX,
        buf[q] != 13u8,
        !run(buf, f0, q as nat).2,
        at_line_start(run(buf, f0, q as nat).0),
    ensures
        !run(buf, f0, n as nat).2,
        !run(buf, f0, n as nat).0.first_line,
        !run(buf, f0, n as nat).0.last_r,
        !run(buf, f0, n as nat).0.line_start,
        run(buf, f0, n as nat).1.body == run(buf, f0, q as nat).1.body,
    decreases n,
{
    if n > q + 1 {
        lemma_within_line(buf, f0, q, n - 1);
        lemma_first_index_skips(buf, q, buf.len() as int, 13u8, n - 1);
    }
}

proof fn lemma_from_line(buf: Seq<u8>, f0: Fields, q: int)
    requires
        0 <= q <= buf.len() <= usize::MAX,
        !run(buf, f0, q as nat).2,
        at_line_start(run(buf, f0, q as nat).0),
    ensures
        scan(buf, f0).body == (match blank_line_from(buf, q) {
            Some(i) => body_after(buf, i),
            None => run(buf, f0, q as nat).1.body,
        }),
    decreases buf.len() - q,
{
    let len = buf.len() as int;
    if q == len {
    } else if buf[q] == 13u8 {
        crate::parser::lemma_run_stays(buf, f0, (q + 1) as nat, len as nat);
    } else {
        let e = first_index(buf, q, len, 13u8);
        lemma_first_index_bounds(buf, q, len, 13u8);
        assert(e > q);
        lemma_within_line(buf, f0, q, e);
        if e < len {
            let at_cr = run(buf, f0, (e + 1) as nat);
            assert(!at_cr.2 && at_cr.0.last_r && !at_cr.0.first_line);
            assert(at_cr.1.body == run(buf, f0, q as nat).1.body);
            if e + 1 < len {
                let next = run(buf, f0, (e + 2) as nat);
                assert(!next.2 && at_line_start(next.0));
                assert(next.1.body == run(buf, f0, q as nat).1.body);
                lemma_from_line(buf, f0, e + 2);
            }
        }
    }
}

/// The scan takes the body from two bytes after the first blank line that
/// follows the request line to the end of the buffer (absent where no byte
/// follows that line); where the buffer holds no such line, the body keeps
/// its prior value.
pub proof fn lemma_scan_body(buf: Seq<u8>, f0: Fields)
    requires
        buf.len() <= usize::MAX,
    ensures
        scan(buf, f0).body == (match blank_line_from(buf, request_line_end(buf) + 2) {
            Some(i) => body_after(buf, i),
            None => f0.body,
        }),
{
    let len = buf.len() as int;
    let r = request_line_end(buf);
    lemma_first_index_bounds(buf, 0, len, 13u8);
    lemma_request_line_state(buf, f0, r);
    if r + 2 <= len {
        lemma_after_request_line(buf, f0, r + 1);
        lemma_from_line(buf, f0, r + 2);
    } else if r + 1 == len {
        lemma_after_request_line(buf, f0, r + 1);
    }
}

/// The name of the header that `which` selects: `cookie` or `content-length`.
pub open spec fn selected_name(which: bool) -> Seq<char> {
    if which {
        cookie_name()
    } else {
        content_length_name()
    }
}

/// The recorded range of the header that `which` selects.
pub open spec fn selected_field(f: Fields, which: bool) -> Span {
    if which {
        f.cookie
    } else {
        f.content_length
    }
}

/// The value of the selected header after the header lines from offset `q`
/// up to the blank line: each complete line's key runs from its start to the
/// byte before its first space, its value from after that space to its
/// carriage return (the whole line where it has no space); the last line
/// whose key names the header wins, and `prior` stands where none does.
pub open spec fn header_value_from(buf: Seq<u8>, q: int, which: bool, prior: Span) -> Span
    decreases buf.len() - q,
{
    if q < 0 || q >= buf.len() || buf[q] == 13u8 {
        prior
    } else {
        let e = first_index(buf, q, buf.len() as int, 13u8);
        let sp = first_index(buf, q, e, 32u8);
        let key = if sp < e { span(q, sp - 1) } else { Span::absent() };
        let value = if sp < e { span(sp + 1, e) } else { span(q, e) };
        if e <= q || e >= buf.len() {
            prior
        } else {
            let now = if header_name(buf, key) == selected_name(which) { value } else { prior };
            if e + 2 > buf.len() {
                now
            } else {
                header_value_from(buf, e + 2, which, now)
            }
        }
    }
}

proof fn lemma_line_cursor(buf: Seq<u8>, f0: Fields, q: int, n: int)
    requires
        0 < q < n <= first_index(buf, q, buf.len() as int, 13u8),
        q < buf.len() <= usize::MAX,
        buf[q] != 13u8,
        !run(buf, f0, q as nat).2,
        at_line_start(run(buf, f0, q as nat).0),
        run(buf, f0, q as nat).0.start_pos == q,
        run(buf, f0, q as nat).0.space_pos == q - 1,
        !run(buf, f0, q as nat).0.space_set,
    ensures
        ({
            let st = run(buf, f0, n as nat);
            let sp = first_index(buf, q, n, 32u8);
            &&& !st.2 && !st.0.first_line && !st.0.last_r && !st.0.line_start
            &&& st.0.start_pos == q
            &&& st.0.space_set == (sp < n)
            &&& sp < n ==> st.0.space_pos == sp && st.0.key == span(q, sp - 1)
            &&& !(sp < n) ==> st.0.space_pos == q - 1 && st.0.key == Span::absent()
            &&& st.1 == run(buf, f0, q as nat).1
        }),
    decreases n,
{
    lemma_first_index_extend(buf, q, n - 1, 32u8);
    lemma_first_index_bounds(buf, q, n - 1, 32u8);
    lemma_first_index_bounds(buf, q, buf.len() as int, 13u8);
    if n > q + 1 {
        let m = n - 1;
        lemma_line_cursor(buf, f0, q, m);
        lemma_first_index_skips(buf, q, buf.len() as int, 13u8, m);
        let prev = run(buf, f0, m as nat);
        let st = run(buf, f0, n as nat);
        assert(st == crate::parser::step(buf, prev.0, prev.1, m));
        let sp = first_index(buf, q, m, 32u8);
        if sp < m {
            assert(first_index(buf, q, n, 32u8) == sp);
        } else if buf[m] == 32u8 {
            assert(first_index(buf, q, n, 32u8) == m);
            assert(st.0.key == span(q, m - 1));
        } else {
            assert(first_index(buf, q, n, 32u8) == n);
        }
    } else {
        assert(first_index(buf, q, q, 32u8) == q);
        let c = run(buf, f0, q as nat).0;
        let st = run(buf, f0, n as nat);
        assert(st == crate::parser::step(buf, c, run(buf, f0, q as nat).1, q));
        if buf[q] == 32u8 {
            assert(first_index(buf, q, n, 32u8) == q);
            assert(st.0.key == span(q, q - 1));
        } else {
            assert(first_index(buf, q, n, 32u8) == n);
        }
    }
}

proof fn lemma_header_from_line(buf: Seq<u8>, f0: Fields, q: int, which: bool)
    requires
        0 < q <= buf.len() <= usize::MAX,
        !run(buf, f0, q as nat).2,
        at_line_start(run(buf, f0, q as nat).0),
        run(buf, f0, q as nat).0.start_pos == q,
        run(buf, f0, q as nat).0.space_pos == q - 1,
        !run(buf, f0, q as nat).0.space_set,
    ensures
        selected_field(scan(buf, f0), which) == header_value_from(
            buf,
            q,
            which,
            selected_field(run(buf, f0, q as nat).1, which),
        ),
    decreases buf.len() - q,
{
    let len = buf.len() as int;
    assert(cookie_name().len() == 6 && content_length_name().len() == 14 && content_type_name().len() == 12);
    if q == len {
    } else if buf[q] == 13u8 {
        crate::parser::lemma_run_stays(buf, f0, (q + 1) as nat, len as nat);
    } else {
        let e = first_index(buf, q, len, 13u8);
        lemma_first_index_bounds(buf, q, len, 13u8);
        lemma_line_cursor(buf, f0, q, e);
        lemma_first_index_bounds(buf, q, e, 32u8);
        if e < len {
            let at_cr = run(buf, f0, (e + 1) as nat);
            assert(!at_cr.2 && at_cr.0.last_r && !at_cr.0.first_line);
            if e + 1 < len {
                let next = run(buf, f0, (e + 2) as nat);
                assert(!next.2 && at_line_start(next.0));
                assert(next.1 == at_cr.1);
                lemma_header_from_line(buf, f0, e + 2, which);
            }
        }
    }
}

/// The scan records, for `cookie` (where `which` holds) and for
/// `content-length`, the value of the last complete header line, before the
/// blank line, whose key names that header; the value runs from after the
/// line's first space to its carriage return. Where no line names it, the
/// field keeps its prior value.
pub proof fn lemma_scan_header_value(buf: Seq<u8>, f0: Fields, which: bool)
    requires
        buf.len() <= usize::MAX,
    ensures
        selected_field(scan(buf, f0), which) == header_value_from(
            buf,
            request_line_end(buf) + 2,
            which,
            selected_field(f0, which),
        ),
{
    let len = buf.len() as int;
    let r = request_line_end(buf);
    lemma_first_index_bounds(buf, 0, len, 13u8);
    lemma_request_line_state(buf, f0, r);
    if r + 2 <= len {
        lemma_after_request_line(buf, f0, r + 1);
        lemma_header_from_line(buf, f0, r + 2, which);
    } else if r + 1 == len {
        lemma_after_request_line(buf, f0, r + 1);
    }
}

/// The content type after the header lines from offset `q` up to the blank
/// line: each complete line whose key names `content-type` has its value
/// (from after the line's first space to its carriage return) read into it,
/// in order, starting from `prior`.
pub open spec fn content_type_from(buf: Seq<u8>, q: int, prior: ContentType) -> ContentType
    decreases buf.len() - q,
{
    if q < 0 || q >= buf.len() || buf[q] == 13u8 {
        prior
    } else {
        let e = first_index(buf, q, buf.len() as int, 13u8);
        let sp = first_index(buf, q, e, 32u8);
        let key = if sp < e { span(q, sp - 1) } else { Span::absent() };
        let value = if sp < e { span(sp + 1, e) } else { span(q, e) };
        if e <= q || e >= buf.len() {
            prior
        } else {
            let now = if header_name(buf, key) == content_type_name() {
                content_type_update(buf, value, prior)
            } else {
                prior
            };
            if e + 2 > buf.len() {
                now
            } else {
                content_type_from(buf, e + 2, now)
            }
        }
    }
}

proof fn lemma_content_type_from_line(buf: Seq<u8>, f0: Fields, q: int)
    requires
        0 < q <= buf.len() <= usize::MAX,
        !run(buf, f0, q as nat).2,
        at_line_start(run(buf, f0, q as nat).0),
        run(buf, f0, q as nat).0.start_pos == q,
        run(buf, f0, q as nat).0.space_pos == q - 1,
        !run(buf, f0, q as nat).0.space_set,
    ensures
        scan(buf, f0).content_type == content_type_from(buf, q, run(buf, f0, q as nat).1.content_type),
    decreases buf.len() - q,
{
    let len = buf.len() as int;
    assert(cookie_name().len() == 6 && content_length_name().len() == 14 && content_type_name().len() == 12);
    if q == len {
    } else if buf[q] == 13u8 {
        crate::parser::lemma_run_stays(buf, f0, (q + 1) as nat, len as nat);
    } else {
        let e = first_index(buf, q, len, 13u8);
        lemma_first_index_bounds(buf, q, len, 13u8);
        lemma_line_cursor(buf, f0, q, e);
        lemma_first_index_bounds(buf, q, e, 32u8);
        if e < len {
            let at_cr = run(buf, f0, (e + 1) as nat);
            assert(!at_cr.2 && at_cr.0.last_r && !at_cr.0.first_line);
            if e + 1 < len {
                let next = run(buf, f0, (e + 2) as nat);
                assert(!next.2 && at_line_start(next.0));
                assert(next.1 == at_cr.1);
                lemma_content_type_from_line(buf, f0, e + 2);
            }
        }
    }
}

/// The scan reads the value of each complete `content-type` header line
/// before the blank line into the content type, in order; the value runs
/// from after the line's first space to its carriage return.
pub proof fn lemma_scan_content_type(buf: Seq<u8>, f0: Fields)
    requires
        buf.len() <= usize::MAX,
    ensures
        scan(buf, f0).content_type == content_type_from(buf, request_line_end(buf) + 2, f0.content_type),
{
    let len = buf.len() as int;
    let r = request_line_end(buf);
    lemma_first_index_bounds(buf, 0, len, 13u8);
    lemma_request_line_state(buf, f0, r);
    if r + 2 <= len {
        lemma_after_request_line(buf, f0, r + 1);
        lemma_content_type_from_line(buf, f0, r + 2);
    } else if r + 1 == len {
        lemma_after_request_line(buf, f0, r + 1);
    }
}

} // verus!
