//! The request scanner: one left-to-right pass over the buffer that records
//! where the method, the request target, the recognised headers and the body
//! lie.
use vstd::prelude::*;
use vstd::utf8::*;
use crate::bytes::{Span, span, first_index, last_index, pieces, spans_within, split_on, find_byte, find_last_byte, decimal_value, parse_decimal};
use crate::text::{lower_of, trim_of, utf8_text, decode_utf8_slice, lowercase, trim_text, text_eq};

verus! {

/// The request method, out of the two that are recognised.
#[derive(Debug, Clone, Copy, PartialEq, Eq, Structural)]
pub enum HttpMethod {
    GET,
    POST,
    UNKNOWN,
}

/// A range of the buffer that was to be read as text is not valid UTF-8.
#[derive(Debug, Clone, Copy, PartialEq, Eq, Structural)]
pub enum ParseError {
    InvalidEncoding,
}

/// Where the parts of a `content-type` value lie.
#[derive(Debug, Clone, Copy, PartialEq, Eq, Structural)]
pub struct ContentType {
    pub media_type: Span,
    pub charset: Span,
    pub boundary: Span,
}

impl ContentType {
    /// All three parts absent.
    pub open spec fn absent() -> ContentType {
        ContentType { media_type: Span::absent(), charset: Span::absent(), boundary: Span::absent() }
    }

    pub fn empty() -> (r: Self)
        ensures
            r == ContentType::absent(),
    {
        ContentType {
            media_type: Span { start: 0, end: 0 },
            charset: Span { start: 0, end: 0 },
            boundary: Span { start: 0, end: 0 },
        }
    }

    pub open spec fn fits(self, len: int) -> bool {
        self.media_type.fits(len) && self.charset.fits(len) && self.boundary.fits(len)
    }
}

/// Everything the scanner records about a request.
#[derive(Debug, Clone, Copy, PartialEq, Eq, Structural)]
pub struct Fields {
    pub method: HttpMethod,
    pub src: Span,
    pub cookie: Span,
    pub content_length: Span,
    pub content_type: ContentType,
    pub body: Span,
}

impl Fields {
    /// Nothing observed yet.
    pub open spec fn absent() -> Fields {
        Fields {
            method: HttpMethod::UNKNOWN,
            src: Span::absent(),
            cookie: Span::absent(),
            content_length: Span::absent(),
            content_type: ContentType::absent(),
            body: Span::absent(),
        }
    }

    /// Every recorded span lies within a buffer of `len` bytes.
    pub open spec fn fits(self, len: int) -> bool {
        self.src.fits(len) && self.cookie.fits(len) && self.content_length.fits(len)
            && self.content_type.fits(len) && self.body.fits(len)
    }
}

/// The scanner's position within the current line.
#[derive(Debug, Clone, Copy, PartialEq, Eq, Structural)]
pub struct LineCursor {
    /// The current byte is the first of a line after the request line.
    pub line_start: bool,
    /// Still on the request line.
    pub first_line: bool,
    /// Offset of the current line's first byte.
    pub start_pos: usize,
    /// The line's first space has been seen.
    pub space_set: bool,
    /// The request line's second space has been seen, so the target is set.
    pub target_set: bool,
    /// Offset of the line's first space (before one is seen: of the byte
    /// that ended the previous line).
    pub space_pos: usize,
    /// The previous byte ended a line with a carriage return.
    pub last_r: bool,
    /// The header key of the current line.
    pub key: Span,
}

pub open spec fn cursor_start() -> LineCursor {
    LineCursor {
        line_start: false,
        first_line: true,
        start_pos: 0,
        space_set: false,
        target_set: false,
        space_pos: 0,
        last_r: false,
        key: Span::absent(),
    }
}

/// The bounds that the cursor keeps at offset `i` of a buffer of `len` bytes.
pub open spec fn cursor_ok(c: LineCursor, i: int, len: int) -> bool {
    &&& c.start_pos <= i
    &&& (!c.first_line ==> c.start_pos >= 1)
    &&& ((c.space_set || !c.first_line) ==> c.space_pos < i)
    &&& c.key.start <= len
    &&& c.key.end <= len
}

pub open spec fn cr() -> u8 {
    13
}

pub open spec fn sp() -> u8 {
    32
}

/// The method that the bytes before the request line's first space name.
pub open spec fn method_named(b: Seq<u8>) -> HttpMethod {
    if b == seq![71u8, 69u8, 84u8] {
        HttpMethod::GET
    } else if b == seq![80u8, 79u8, 83u8, 84u8] {
        HttpMethod::POST
    } else {
        HttpMethod::UNKNOWN
    }
}

/// A header's name as it is compared: decoded and lowercased, or empty where
/// its bytes are not UTF-8 or the key span is empty or reversed.
pub open spec fn header_name(buf: Seq<u8>, key: Span) -> Seq<char> {
    if key.start < key.end {
        match utf8_text(key.of(buf)) {
            Some(t) => lower_of(t),
            None => Seq::empty(),
        }
    } else {
        Seq::empty()
    }
}

/// A content-type parameter's name as it is compared: decoded, trimmed and
/// lowercased, or empty where its bytes are not UTF-8.
pub open spec fn param_name(b: Seq<u8>) -> Seq<char> {
    match utf8_text(b) {
        Some(t) => lower_of(trim_of(t)),
        None => Seq::empty(),
    }
}

pub open spec fn cookie_name() -> Seq<char> {
    seq!['c', 'o', 'o', 'k', 'i', 'e']
}

pub open spec fn content_length_name() -> Seq<char> {
    seq!['c', 'o', 'n', 't', 'e', 'n', 't', '-', 'l', 'e', 'n', 'g', 't', 'h']
}

pub open spec fn content_type_name() -> Seq<char> {
    seq!['c', 'o', 'n', 't', 'e', 'n', 't', '-', 't', 'y', 'p', 'e']
}

pub open spec fn charset_name() -> Seq<char> {
    seq!['c', 'h', 'a', 'r', 's', 'e', 't']
}

pub open spec fn boundary_name() -> Seq<char> {
    seq!['b', 'o', 'u', 'n', 'd', 'a', 'r', 'y']
}

/// The effect of one `name=value` segment of a content-type value: the value
/// runs from just after the first `=` to the end of the segment, untrimmed.
pub open spec fn param_update(buf: Seq<u8>, seg: Span, ct: ContentType) -> ContentType {
    let k = first_index(buf, seg.start as int, seg.end as int, 61u8);
    if k >= seg.end {
        ct
    } else {
        let name = param_name(buf.subrange(seg.start as int, k));
        if name == charset_name() {
            ContentType { charset: span(k + 1, seg.end as int), ..ct }
        } else if name == boundary_name() {
            ContentType { boundary: span(k + 1, seg.end as int), ..ct }
        } else {
            ct
        }
    }
}

/// The segments `1..n` of `segs` applied in order.
pub open spec fn params_update(buf: Seq<u8>, segs: Seq<Span>, n: int, ct: ContentType) -> ContentType
    decreases n,
{
    if n <= 1 {
        ct
    } else {
        param_update(buf, segs[n - 1], params_update(buf, segs, n - 1, ct))
    }
}

/// The content type after reading the value `v`: segment 0 of its
/// `;`-separated segments is the media type, verbatim; charset and boundary
/// are overwritten only where a segment names them.
pub open spec fn content_type_update(buf: Seq<u8>, v: Span, ct: ContentType) -> ContentType {
    let segs = pieces(buf, v.start as int, v.end as int, seq![59u8]);
    params_update(buf, segs, segs.len() as int, ContentType { media_type: segs[0], ..ct })
}

/// The fields after a header line whose key is `key` and value `v` ends.
pub open spec fn header_update(buf: Seq<u8>, f: Fields, key: Span, v: Span) -> Fields {
    let name = header_name(buf, key);
    if name == cookie_name() {
        Fields { cookie: v, ..f }
    } else if name == content_length_name() {
        Fields { content_length: v, ..f }
    } else if name == content_type_name() {
        Fields { content_type: content_type_update(buf, v, f.content_type), ..f }
    } else {
        f
    }
}

/// One step of the scan, at offset `i`: the new cursor, the new fields, and
/// whether the scan ends here (at the blank line that closes the headers).
pub open spec fn step(buf: Seq<u8>, c: LineCursor, f: Fields, i: int) -> (LineCursor, Fields, bool) {
    let b = buf[i];
    if c.line_start && b == cr() {
        let body = if i + 2 < buf.len() {
            span(i + 2, buf.len() as int)
        } else {
            Span::absent()
        };
        (c, Fields { body: body, ..f }, true)
    } else if c.last_r {
        (
            LineCursor {
                line_start: true,
                first_line: false,
                start_pos: (i + 1) as usize,
                space_set: false,
                target_set: false,
                space_pos: i as usize,
                last_r: false,
                key: Span::absent(),
            },
            f,
            false,
        )
    } else if c.first_line {
        let c1 = LineCursor { line_start: false, ..c };
        if b == sp() {
            if c1.target_set {
                (c1, f, false)
            } else if c1.space_set {
                (LineCursor { target_set: true, ..c1 }, Fields { src: span(c1.space_pos + 1, i), ..f }, false)
            } else {
                (
                    LineCursor { space_set: true, space_pos: i as usize, ..c1 },
                    Fields { method: method_named(buf.subrange(0, i)), ..f },
                    false,
                )
            }
        } else if b == cr() {
            (LineCursor { last_r: true, ..c1 }, f, false)
        } else {
            (c1, f, false)
        }
    } else {
        let c1 = LineCursor { line_start: false, ..c };
        if b == sp() && !c1.space_set {
            (LineCursor { space_set: true, space_pos: i as usize, key: span(c1.start_pos as int, i - 1), ..c1 }, f, false)
        } else if b == cr() {
            (
                LineCursor { last_r: true, ..c1 },
                header_update(buf, f, c1.key, span(c1.space_pos + 1, i)),
                false,
            )
        } else {
            (c1, f, false)
        }
    }
}

/// The state after the first `n` bytes, starting from the fields `f0`.
pub open spec fn run(buf: Seq<u8>, f0: Fields, n: nat) -> (LineCursor, Fields, bool)
    decreases n,
{
    if n == 0 {
        (cursor_start(), f0, false)
    } else {
        let prev = run(buf, f0, (n - 1) as nat);
        if prev.2 {
            prev
        } else {
            step(buf, prev.0, prev.1, n - 1)
        }
    }
}

/// The fields that scanning the whole buffer leaves, starting from `f0`.
pub open spec fn scan(buf: Seq<u8>, f0: Fields) -> Fields {
    run(buf, f0, buf.len()).1
}

pub(crate) proof fn lemma_run_stays(buf: Seq<u8>, f0: Fields, k: nat, n: nat)
    requires
        k <= n,
        run(buf, f0, k).2,
    ensures
        run(buf, f0, n) == run(buf, f0, k),
    decreases n - k,
{
    if k < n {
        lemma_run_stays(buf, f0, k, (n - 1) as nat);
    }
}

} // verus!

verus! {

/// A request scanned in place: a borrowed buffer and the ranges found in it.
#[derive(Debug)]
pub struct HttpParser<'a> {
    buf: &'a [u8],
    fields: Fields,
}

/// What a parser holds: the buffer's bytes and the recorded fields.
pub struct ParserView {
    pub buf: Seq<u8>,
    pub fields: Fields,
}

impl ParserView {
    /// Every recorded range lies within the buffer.
    pub open spec fn wf(self) -> bool {
        self.fields.fits(self.buf.len() as int)
    }

    /// The text of a range, if it is valid UTF-8.
    pub open spec fn text(self, s: Span) -> Option<Seq<char>> {
        utf8_text(s.of(self.buf))
    }

    /// The declared content length: 0 where the header is absent or its value
    /// is not an unsigned decimal numeral that fits in `usize`.
    pub open spec fn content_length(self) -> nat {
        match decimal_value(self.fields.content_length.of(self.buf)) {
            Some(n) => n,
            None => 0,
        }
    }

    /// The path: the target up to its first `?`, or all of it.
    pub open spec fn page_span(self) -> Span {
        let src = self.fields.src;
        span(src.start as int, first_index(self.buf, src.start as int, src.end as int, 63u8))
    }

    /// The query: the target after its last `?`, or all of it where it has none.
    pub open spec fn params_span(self) -> Span {
        let src = self.fields.src;
        match last_index(self.buf, src.start as int, src.end as int, 63u8) {
            Some(k) => span(k + 1, src.end as int),
            None => src,
        }
    }

    /// The query's offsets, or `(0, 0)` where the target has no `?`.
    pub open spec fn params_index(self) -> (usize, usize) {
        let src = self.fields.src;
        match last_index(self.buf, src.start as int, src.end as int, 63u8) {
            Some(k) => ((k + 1) as usize, src.end),
            None => (0, 0),
        }
    }

    /// At least as many body bytes are present as the content length declares.
    pub open spec fn body_read(self) -> bool {
        self.fields.body.len() >= self.content_length()
    }
}

/// The text that an accessor hands back, as an optional character sequence.
pub open spec fn text_result(r: Result<&str, ParseError>) -> Option<Seq<char>> {
    match r {
        Ok(t) => Some(t@),
        Err(_) => None,
    }
}

/// The number of body bytes still to come, by the scan of `buf` from nothing
/// observed: the declared length less the body bytes present, or 0 where
/// those already suffice.
pub open spec fn outstanding(buf: Seq<u8>) -> nat {
    let v = ParserView { buf: buf, fields: scan(buf, Fields::absent()) };
    if v.content_length() > v.fields.body.len() {
        (v.content_length() - v.fields.body.len()) as nat
    } else {
        0
    }
}

impl<'a> View for HttpParser<'a> {
    type V = ParserView;

    closed spec fn view(&self) -> ParserView {
        ParserView { buf: self.buf@, fields: self.fields }
    }
}

/// Whether the bytes are the ASCII spelling of `GET` or `POST`.
fn method_of(b: &[u8]) -> (r: HttpMethod)
    ensures
        r == method_named(b@),
{
    if b.len() == 3 && b[0] == 71u8 && b[1] == 69u8 && b[2] == 84u8 {
        assert(b@ =~= seq![71u8, 69u8, 84u8]);
        HttpMethod::GET
    } else if b.len() == 4 && b[0] == 80u8 && b[1] == 79u8 && b[2] == 83u8 && b[3] == 84u8 {
        assert(b@ =~= seq![80u8, 79u8, 83u8, 84u8]);
        HttpMethod::POST
    } else {
        HttpMethod::UNKNOWN
    }
}

/// Which recognised header a key names.
enum HeaderKind {
    Cookie,
    ContentLength,
    ContentType,
    Other,
}

fn classify_header(buf: &[u8], key: Span) -> (r: HeaderKind)
    requires
        key.start <= buf@.len(),
        key.end <= buf@.len(),
    ensures
        r == (if header_name(buf@, key) == cookie_name() {
            HeaderKind::Cookie
        } else if header_name(buf@, key) == content_length_name() {
            HeaderKind::ContentLength
        } else if header_name(buf@, key) == content_type_name() {
            HeaderKind::ContentType
        } else {
            HeaderKind::Other
        }),
{
    assert(cookie_name().len() == 6 && content_length_name().len() == 14 && content_type_name().len() == 12);
    if key.start >= key.end {
        return HeaderKind::Other;
    }
    match decode_utf8_slice(&buf[key.start..key.end]) {
        None => HeaderKind::Other,
        Some(t) => {
            let name = lowercase(t);
            proof {
                reveal_strlit("cookie");
                reveal_strlit("content-length");
                reveal_strlit("content-type");
                assert("cookie"@ =~= cookie_name());
                assert("content-length"@ =~= content_length_name());
                assert("content-type"@ =~= content_type_name());
            }
            if text_eq(name.as_str(), "cookie") {
                HeaderKind::Cookie
            } else if text_eq(name.as_str(), "content-length") {
                HeaderKind::ContentLength
            } else if text_eq(name.as_str(), "content-type") {
                HeaderKind::ContentType
            } else {
                HeaderKind::Other
            }
        },
    }
}

/// Which content-type parameter a name (from `s` to `k`) selects: 1 for
/// `charset`, 2 for `boundary`, 0 for any other.
fn classify_param(buf: &[u8], s: usize, k: usize) -> (r: u8)
    requires
        s <= k <= buf@.len(),
    ensures
        r == (if param_name(buf@.subrange(s as int, k as int)) == charset_name() {
            1u8
        } else if param_name(buf@.subrange(s as int, k as int)) == boundary_name() {
            2u8
        } else {
            0u8
        }),
{
    assert(charset_name().len() == 7 && boundary_name().len() == 8);
    match decode_utf8_slice(&buf[s..k]) {
        None => 0,
        Some(t) => {
            let name = lowercase(trim_text(t));
            proof {
                reveal_strlit("charset");
                reveal_strlit("boundary");
                assert("charset"@ =~= charset_name());
                assert("boundary"@ =~= boundary_name());
            }
            if text_eq(name.as_str(), "charset") {
                1
            } else if text_eq(name.as_str(), "boundary") {
                2
            } else {
                0
            }
        },
    }
}

impl<'a> HttpParser<'a> {
    /// A parser over `buf` with nothing observed yet.
    pub fn new(buf: &'a [u8]) -> (r: HttpParser<'a>)
        ensures
            r@.buf == buf@,
            r@.fields == Fields::absent(),
            r@.wf(),
    {
        HttpParser {
            buf: buf,
            fields: Fields {
                method: HttpMethod::UNKNOWN,
                src: Span { start: 0, end: 0 },
                cookie: Span { start: 0, end: 0 },
                content_length: Span { start: 0, end: 0 },
                content_type: ContentType::empty(),
                body: Span { start: 0, end: 0 },
            },
        }
    }

    /// The pieces of `data` between the bytes equal to `splitter`.
    fn split(&self, data: Span, splitter: u8) -> (r: Vec<Span>)
        requires
            data.fits(self@.buf.len() as int),
        ensures
            r@ == pieces(self@.buf, data.start as int, data.end as int, seq![splitter]),
            spans_within(r@, data.start as int, data.end as int),
            r@.len() >= 1,
    {
        let pat: Vec<u8> = vec![splitter];
        assert(pat@ =~= seq![splitter]);
        split_on(self.buf, data.start, data.end, pat.as_slice())
    }

    /// Reads the content-type value `v` into the recorded content type.
    fn read_content_type(&mut self, v: Span)
        requires
            v.fits(old(self)@.buf.len() as int),
            old(self)@.wf(),
        ensures
            final(self)@.buf == old(self)@.buf,
            final(self)@.fields == (Fields {
                content_type: content_type_update(old(self)@.buf, v, old(self)@.fields.content_type),
                ..old(self)@.fields
            }),
            final(self)@.wf(),
    {
        let ghost buf = self.buf@;
        let ghost len = buf.len() as int;
        let segs = self.split(v, 59u8);
        let mut ct = self.fields.content_type;
        ct.media_type = segs[0];
        let ghost ct1 = ct;
        let mut n: usize = 1;
        while n < segs.len()
            invariant
                buf == self.buf@,
                len == buf.len(),
                1 <= n <= segs@.len(),
                spans_within(segs@, v.start as int, v.end as int),
                v.fits(len),
                ct == params_update(buf, segs@, n as int, ct1),
                ct.fits(len),
            decreases segs@.len() - n,
        {
            let seg = segs[n];
            assert(spans_within(segs@, v.start as int, v.end as int));
            assert(seg == segs@[n as int]);
            let k = find_byte(self.buf, seg.start, seg.end, 61u8);
            if k < seg.end {
                let which = classify_param(self.buf, seg.start, k);
                if which == 1 {
                    ct.charset = Span { start: k + 1, end: seg.end };
                } else if which == 2 {
                    ct.boundary = Span { start: k + 1, end: seg.end };
                }
            }
            n = n + 1;
        }
        self.fields.content_type = ct;
    }

    /// One step of the scan at offset `i`; returns the new cursor and whether
    /// the scan ends here.
    fn scan_step(&mut self, c: LineCursor, i: usize) -> (r: (LineCursor, bool))
        requires
            i < old(self)@.buf.len(),
            cursor_ok(c, i as int, old(self)@.buf.len() as int),
            old(self)@.wf(),
        ensures
            final(self)@.buf == old(self)@.buf,
            (r.0, final(self)@.fields, r.1) == step(old(self)@.buf, c, old(self)@.fields, i as int),
            cursor_ok(r.0, i + 1, old(self)@.buf.len() as int),
            final(self)@.wf(),
    {
        let len = self.buf.len();
        let b = self.buf[i];
        if c.line_start && b == 13u8 {
            if len - i > 2 {
                self.fields.body = Span { start: i + 2, end: len };
            } else {
                self.fields.body = Span { start: 0, end: 0 };
            }
            return (c, true);
        }
        if c.last_r {
            let nc = LineCursor {
                line_start: true,
                first_line: false,
                start_pos: i + 1,
                space_set: false,
                target_set: false,
                space_pos: i,
                last_r: false,
                key: Span { start: 0, end: 0 },
            };
            return (nc, false);
        }
        let mut c1 = c;
        c1.line_start = false;
        if c1.first_line {
            if b == 32u8 {
                if c1.target_set {
                } else if c1.space_set {
                    self.fields.src = Span { start: c1.space_pos + 1, end: i };
                    c1.target_set = true;
                } else {
                    self.fields.method = method_of(&self.buf[0..i]);
                    c1.space_set = true;
                    c1.space_pos = i;
                }
            } else if b == 13u8 {
                c1.last_r = true;
            }
        } else {
            if b == 32u8 && !c1.space_set {
                c1.space_set = true;
                c1.space_pos = i;
                c1.key = Span { start: c1.start_pos, end: i - 1 };
            } else if b == 13u8 {
                let v = Span { start: c1.space_pos + 1, end: i };
                match classify_header(self.buf, c1.key) {
                    HeaderKind::Cookie => {
                        self.fields.cookie = v;
                    },
                    HeaderKind::ContentLength => {
                        self.fields.content_length = v;
                    },
                    HeaderKind::ContentType => {
                        self.read_content_type(v);
                    },
                    HeaderKind::Other => {},
                }
                c1.last_r = true;
            }
        }
        (c1, false)
    }

    /// Scans the buffer once, from the start, recording the method (the
    /// bytes before the request line's first space), the request target
    /// (between its first and second spaces), the `cookie`, `content-length`
    /// and `content-type` headers and the body; the scan stops at the blank
    /// line that ends the headers. Fields that the buffer does not reach keep
    /// their values.
    pub fn parse(&mut self)
        requires
            old(self)@.wf(),
        ensures
            final(self)@.buf == old(self)@.buf,
            final(self)@.fields == scan(old(self)@.buf, old(self)@.fields),
            final(self)@.wf(),
    {
        let ghost buf = self.buf@;
        let ghost f0 = self.fields;
        let len = self.buf.len();
        let mut c = LineCursor {
            line_start: false,
            first_line: true,
            start_pos: 0,
            space_set: false,
            target_set: false,
            space_pos: 0,
            last_r: false,
            key: Span { start: 0, end: 0 },
        };
        let mut i: usize = 0;
        let mut done = false;
        while i < len && !done
            invariant
                buf == self.buf@,
                len == buf.len(),
                i <= len,
                run(buf, f0, i as nat) == (c, self.fields, done),
                cursor_ok(c, i as int, len as int),
                self@.wf(),
            decreases len - i,
        {
            let r = self.scan_step(c, i);
            c = r.0;
            done = r.1;
            i = i + 1;
        }
        proof {
            if done {
                lemma_run_stays(buf, f0, i as nat, len as nat);
            }
        }
    }

    /// Records the method.
    pub fn set_method(&mut self, method: HttpMethod)
        ensures
            final(self)@.buf == old(self)@.buf,
            final(self)@.fields == (Fields { method: method, ..old(self)@.fields }),
    {
        self.fields.method = method;
    }

    /// Records the range `[range[0], range[1])` as the request target.
    pub fn set_src(&mut self, range: [usize; 2])
        requires
            old(self)@.wf(),
            range@[0] <= range@[1] <= old(self)@.buf.len(),
        ensures
            final(self)@.buf == old(self)@.buf,
            final(self)@.fields == (Fields { src: span(range@[0] as int, range@[1] as int), ..old(self)@.fields }),
            final(self)@.wf(),
    {
        self.fields.src = Span::from_pair(range);
    }

    /// Records the range `[range[0], range[1])` as the cookie header's value.
    pub fn set_cookie(&mut self, range: [usize; 2])
        requires
            old(self)@.wf(),
            range@[0] <= range@[1] <= old(self)@.buf.len(),
        ensures
            final(self)@.buf == old(self)@.buf,
            final(self)@.fields == (Fields { cookie: span(range@[0] as int, range@[1] as int), ..old(self)@.fields }),
            final(self)@.wf(),
    {
        self.fields.cookie = Span::from_pair(range);
    }

    /// Records the range `[range[0], range[1])` as the content-length value.
    pub fn set_content_length(&mut self, range: [usize; 2])
        requires
            old(self)@.wf(),
            range@[0] <= range@[1] <= old(self)@.buf.len(),
        ensures
            final(self)@.buf == old(self)@.buf,
            final(self)@.fields == (Fields { content_length: span(range@[0] as int, range@[1] as int), ..old(self)@.fields }),
            final(self)@.wf(),
    {
        self.fields.content_length = Span::from_pair(range);
    }

    /// Reads the range `[range[0], range[1])` as a content-type value: its
    /// media type, and the charset and boundary where it names them.
    pub fn set_content_type(&mut self, range: [usize; 2])
        requires
            old(self)@.wf(),
            range@[0] <= range@[1] <= old(self)@.buf.len(),
        ensures
            final(self)@.buf == old(self)@.buf,
            final(self)@.fields == (Fields {
                content_type: content_type_update(
                    old(self)@.buf,
                    span(range@[0] as int, range@[1] as int),
                    old(self)@.fields.content_type,
                ),
                ..old(self)@.fields
            }),
            final(self)@.wf(),
    {
        self.read_content_type(Span::from_pair(range));
    }

    /// Records the range `[range[0], range[1])` as the body.
    pub fn set_body(&mut self, range: [usize; 2])
        requires
            old(self)@.wf(),
            range@[0] <= range@[1] <= old(self)@.buf.len(),
        ensures
            final(self)@.buf == old(self)@.buf,
            final(self)@.fields == (Fields { body: span(range@[0] as int, range@[1] as int), ..old(self)@.fields }),
            final(self)@.wf(),
    {
        self.fields.body = Span::from_pair(range);
    }

    /// The buffer that the parser reads.
    pub(crate) fn buffer(&self) -> (r: &'a [u8])
        ensures
            r@ == self@.buf,
    {
        self.buf
    }

    /// The recorded fields.
    pub(crate) fn fields(&self) -> (r: Fields)
        ensures
            r == self@.fields,
    {
        self.fields
    }

    pub fn get_method(&self) -> (r: &HttpMethod)
        ensures
            *r == self@.fields.method,
    {
        &self.fields.method
    }

    /// The text of a range of the buffer.
    pub(crate) fn text_of(&self, s: Span) -> (r: Result<&'a str, ParseError>)
        requires
            s.fits(self@.buf.len() as int),
        ensures
            text_result(r) == self@.text(s),
    {
        let b: &'a [u8] = self.buf;
        match decode_utf8_slice(&b[s.start..s.end]) {
            Some(t) => Ok(t),
            None => Err(ParseError::InvalidEncoding),
        }
    }

    /// The declared content length, 0 where it is absent or malformed.
    pub fn get_content_length(&self) -> (r: usize)
        requires
            self@.wf(),
        ensures
            r == self@.content_length(),
    {
        let s = self.fields.content_length;
        match parse_decimal(&self.buf[s.start..s.end]) {
            Some(v) => v,
            None => 0,
        }
    }

    /// The media type: the content-type value up to its first `;`, verbatim.
    pub fn get_content_type(&self) -> (r: Result<&'a str, ParseError>)
        requires
            self@.wf(),
        ensures
            text_result(r) == self@.text(self@.fields.content_type.media_type),
    {
        self.text_of(self.fields.content_type.media_type)
    }

    /// The charset parameter's value, untrimmed.
    pub fn get_charset(&self) -> (r: Result<&'a str, ParseError>)
        requires
            self@.wf(),
        ensures
            text_result(r) == self@.text(self@.fields.content_type.charset),
    {
        self.text_of(self.fields.content_type.charset)
    }

    /// The boundary parameter's value, untrimmed.
    pub fn get_multipart_boundary(&self) -> (r: Result<&'a str, ParseError>)
        requires
            self@.wf(),
        ensures
            text_result(r) == self@.text(self@.fields.content_type.boundary),
    {
        self.text_of(self.fields.content_type.boundary)
    }

    /// The request target.
    pub fn get_src(&self) -> (r: Result<&'a str, ParseError>)
        requires
            self@.wf(),
        ensures
            text_result(r) == self@.text(self@.fields.src),
    {
        self.text_of(self.fields.src)
    }

    /// The cookie header's value.
    pub fn get_cookie(&self) -> (r: Result<&'a str, ParseError>)
        requires
            self@.wf(),
        ensures
            text_result(r) == self@.text(self@.fields.cookie),
    {
        self.text_of(self.fields.cookie)
    }

    /// The body bytes present in the buffer.
    pub fn get_body(&self) -> (r: Result<&'a str, ParseError>)
        requires
            self@.wf(),
        ensures
            text_result(r) == self@.text(self@.fields.body),
    {
        self.text_of(self.fields.body)
    }

    /// The path: the target up to its first `?`.
    pub fn get_page(&self) -> (r: Result<&'a str, ParseError>)
        requires
            self@.wf(),
        ensures
            self@.page_span().fits(self@.buf.len() as int),
            text_result(r) == self@.text(self@.page_span()),
    {
        let src = self.fields.src;
        let k = find_byte(self.buf, src.start, src.end, 63u8);
        self.text_of(Span { start: src.start, end: k })
    }

    /// The range of the query that the map builders read.
    pub(crate) fn params_span_exec(&self) -> (r: Span)
        requires
            self@.wf(),
        ensures
            r == self@.params_span(),
            r.fits(self@.buf.len() as int),
    {
        let src = self.fields.src;
        match find_last_byte(self.buf, src.start, src.end, 63u8) {
            Some(k) => Span { start: k + 1, end: src.end },
            None => src,
        }
    }

    /// The query: the target after its last `?`, or the whole target where
    /// it has none.
    pub fn get_params(&self) -> (r: Result<&'a str, ParseError>)
        requires
            self@.wf(),
        ensures
            self@.params_span().fits(self@.buf.len() as int),
            text_result(r) == self@.text(self@.params_span()),
    {
        let s = self.params_span_exec();
        self.text_of(s)
    }

    /// The offsets of the query, or `(0, 0)` where the target has no `?`.
    pub fn get_params_index(&self) -> (r: (usize, usize))
        requires
            self@.wf(),
        ensures
            r == self@.params_index(),
            r.0 <= r.1 <= self@.buf.len(),
    {
        let src = self.fields.src;
        match find_last_byte(self.buf, src.start, src.end, 63u8) {
            Some(k) => (k + 1, src.end),
            None => (0, 0),
        }
    }

    /// Whether the body present is at least as long as the declared length.
    pub fn is_body_read(&self) -> (r: bool)
        requires
            self@.wf(),
        ensures
            r == self@.body_read(),
    {
        if self.fields.body.end - self.fields.body.start < self.get_content_length() {
            false
        } else {
            true
        }
    }

    /// The declared content length less the body's end offset, or 0 where the
    /// offset reaches it.
    pub fn get_body_remain(&self) -> (r: usize)
        requires
            self@.wf(),
        ensures
            r == (if self@.content_length() > self@.fields.body.end {
                self@.content_length() - self@.fields.body.end
            } else {
                0
            }),
    {
        self.get_content_length().saturating_sub(self.fields.body.end)
    }

    /// Scans `buf` afresh and returns how many body bytes are still to come:
    /// the declared content length less the body bytes present, or 0 where
    /// the body is complete (or longer than declared).
    pub fn check_data(buf: &[u8]) -> (r: usize)
        ensures
            r == outstanding(buf@),
    {
        let mut p = HttpParser::new(buf);
        p.parse();
        let len = p.get_content_length();
        len.saturating_sub(p.fields.body.end - p.fields.body.start)
    }
}

} // verus!
