//! Key/value mappings built from the query string, the body and the cookie
//! header.
use std::collections::HashMap;
use vstd::prelude::*;
use vstd::utf8::*;
use crate::bytes::{Span, span, first_index, split_spans, spans_within, split_on, split_chars, find_byte};
use crate::parser::{HttpParser, ParseError, ParserView};
use crate::text::{decode_or_empty, text_or_empty, text_eq, trim_text, lowercase, lower_of, trim_of};

verus! {

/// A map from string slices of a request buffer to string slices of it.
pub type StrMap<'a> = HashMap<&'a str, &'a str>;

/// A map from owned strings to owned strings.
pub type StringMap = HashMap<String, String>;

/// What a map from string slices to string slices holds, by content. The
/// maps here are keyed by text, for which no hashing model is specified, so
/// their contents are stated through this name and the two calls below.
pub uninterp spec fn str_map_contents(m: HashMap<&str, &str>) -> Map<Seq<char>, Seq<char>>;

/// What a map from strings to strings holds, by content.
pub uninterp spec fn string_map_contents(m: HashMap<String, String>) -> Map<Seq<char>, Seq<char>>;

/// The name/value pairs that `application/x-www-form-urlencoded` decoding
/// gives for the bytes, in order of appearance.
pub uninterp spec fn form_pairs(b: Seq<u8>) -> Seq<(Seq<char>, Seq<char>)>;

/// Relies on `HashMap::new`: a new map is empty.
#[verifier::external_body]
fn new_str_map<'a>() -> (r: StrMap<'a>)
    ensures
        str_map_contents(r) == map_of_pairs(Seq::empty()),
{
    HashMap::new()
}

/// Relies on `HashMap::insert`: keys compare by content; afterwards `k` maps
/// to `v` and every other key is as before.
#[verifier::external_body]
fn insert_str<'a>(m: &mut HashMap<&'a str, &'a str>, k: &'a str, v: &'a str)
    ensures
        str_map_contents(*final(m)) == str_map_contents(*old(m)).insert(k@, v@),
{
    m.insert(k, v);
}

/// Relies on `HashMap::new`: a new map is empty.
#[verifier::external_body]
fn new_string_map() -> (r: StringMap)
    ensures
        string_map_contents(r) == map_of_pairs(Seq::empty()),
{
    HashMap::new()
}

/// Relies on `HashMap::insert`: keys compare by content; afterwards `k` maps
/// to `v` and every other key is as before.
#[verifier::external_body]
fn insert_string(m: &mut HashMap<String, String>, k: String, v: String)
    ensures
        string_map_contents(*final(m)) == string_map_contents(*old(m)).insert(k@, v@),
{
    m.insert(k, v);
}

/// Relies on `url::form_urlencoded::parse` and `Parse::into_owned`: the
/// percent-decoded name/value pairs, which depend on the bytes alone; empty
/// input gives no pairs.
#[verifier::external_body]
fn form_decode(b: &[u8]) -> (r: Vec<(String, String)>)
    ensures
        pairs_view(r@) == form_pairs(b@),
        b@.len() == 0 ==> r@.len() == 0,
{
    url::form_urlencoded::parse(b).into_owned().collect()
}

/// The characters of each pair.
pub open spec fn pairs_view(ps: Seq<(String, String)>) -> Seq<(Seq<char>, Seq<char>)> {
    ps.map_values(|p: (String, String)| (p.0@, p.1@))
}

/// `m` with the pairs inserted in order: a later pair with an equal key
/// replaces an earlier one.
pub open spec fn pairs_into(m: Map<Seq<char>, Seq<char>>, ps: Seq<(Seq<char>, Seq<char>)>) -> Map<Seq<char>, Seq<char>>
    decreases ps.len(),
{
    if ps.len() == 0 {
        m
    } else {
        pairs_into(m, ps.drop_last()).insert(ps.last().0, ps.last().1)
    }
}

/// The mapping of a sequence of pairs, later pairs overriding earlier ones.
pub open spec fn map_of_pairs(ps: Seq<(Seq<char>, Seq<char>)>) -> Map<Seq<char>, Seq<char>> {
    pairs_into(Map::empty(), ps)
}

/// The key and value ranges of one pair: the key runs to the first `=`, the
/// value from there to the next `=` (or the end); without `=` the value is
/// empty.
pub open spec fn pair_spans(buf: Seq<u8>, p: Span) -> (Span, Span) {
    let k1 = first_index(buf, p.start as int, p.end as int, 61u8);
    if k1 >= p.end {
        (span(p.start as int, k1), span(p.end as int, p.end as int))
    } else {
        (span(p.start as int, k1), span(k1 + 1, first_index(buf, k1 + 1, p.end as int, 61u8)))
    }
}

/// The text of one pair.
pub open spec fn pair_text(buf: Seq<u8>, p: Span) -> (Seq<char>, Seq<char>) {
    (text_or_empty(pair_spans(buf, p).0.of(buf)), text_or_empty(pair_spans(buf, p).1.of(buf)))
}

/// The pairs of the range `s`, whose pairs are separated by `pat`.
pub open spec fn kv_pairs(buf: Seq<u8>, s: Span, pat: Seq<u8>) -> Seq<(Seq<char>, Seq<char>)> {
    split_spans(buf, s.start as int, s.end as int, pat).map_values(|p: Span| pair_text(buf, p))
}

/// The range that `get_map` reads for a source name.
pub open spec fn map_source(v: ParserView, nature: Seq<char>) -> Span {
    if nature == seq!['p', 'a', 'r', 'a', 'm', 's'] {
        v.params_span()
    } else if nature == seq!['c', 'o', 'o', 'k', 'i', 'e', 's'] {
        v.fields.cookie
    } else {
        v.fields.body
    }
}

/// The media type selects form-urlencoded decoding: trimmed and lowercased
/// it reads `application/x-www-form-urlencoded`.
pub open spec fn form_encoded(v: ParserView) -> bool {
    match v.text(v.fields.content_type.media_type) {
        Some(t) => lower_of(trim_of(t)) == "application/x-www-form-urlencoded"@,
        None => false,
    }
}

/// Builds a map from pairs, in order: a later pair with an equal key replaces
/// an earlier one.
pub fn map_from_pairs(pairs: Vec<(String, String)>) -> (r: HashMap<String, String>)
    ensures
        string_map_contents(r) == map_of_pairs(pairs_view(pairs@)),
{
    let mut m = new_string_map();
    let mut i: usize = 0;
    while i < pairs.len()
        invariant
            i <= pairs@.len(),
            string_map_contents(m) == map_of_pairs(pairs_view(pairs@.subrange(0, i as int))),
        decreases pairs@.len() - i,
    {
        let k = pairs[i].0.clone();
        let v = pairs[i].1.clone();
        insert_string(&mut m, k, v);
        assert(pairs_view(pairs@.subrange(0, i + 1)).drop_last() =~= pairs_view(pairs@.subrange(0, i as int)));
        i = i + 1;
    }
    assert(pairs@.subrange(0, pairs@.len() as int) =~= pairs@);
    m
}

impl<'a> HttpParser<'a> {
    /// The key and value text of each pair of the range `s`, whose pairs are
    /// separated by `pat`.
    fn text_pairs(&self, s: Span, pat: &[u8]) -> (r: Vec<(&'a str, &'a str)>)
        requires
            self@.wf(),
            s.fits(self@.buf.len() as int),
        ensures
            r@.map_values(|p: (&str, &str)| (p.0@, p.1@)) == kv_pairs(self@.buf, s, pat@),
    {
        let buf = self.buffer();
        let ps = if pat.len() == 0 {
            split_chars(buf, s.start, s.end)
        } else {
            split_on(buf, s.start, s.end, pat)
        };
        let mut out: Vec<(&'a str, &'a str)> = Vec::new();
        let mut i: usize = 0;
        while i < ps.len()
            invariant
                buf@ == self@.buf,
                ps@ == split_spans(buf@, s.start as int, s.end as int, pat@),
                spans_within(ps@, s.start as int, s.end as int),
                s.fits(buf@.len() as int),
                i <= ps@.len(),
                out@.len() == i,
                forall|j: int| 0 <= j < i ==> (#[trigger] out@[j]).0@ == pair_text(buf@, ps@[j]).0 && out@[j].1@ == pair_text(buf@, ps@[j]).1,
            decreases ps@.len() - i,
        {
            let p = ps[i];
            assert(spans_within(ps@, s.start as int, s.end as int));
            assert(p == ps@[i as int]);
            let k1 = find_byte(buf, p.start, p.end, 61u8);
            let key = decode_or_empty(&buf[p.start..k1]);
            let val = if k1 >= p.end {
                decode_or_empty(&buf[p.end..p.end])
            } else {
                let k2 = find_byte(buf, k1 + 1, p.end, 61u8);
                decode_or_empty(&buf[k1 + 1..k2])
            };
            out.push((key, val));
            i = i + 1;
        }
        assert(out@.map_values(|p: (&str, &str)| (p.0@, p.1@)) =~= kv_pairs(self@.buf, s, pat@));
        out
    }

    /// The map of the pairs in the query (`nature` "params"), the cookie
    /// header ("cookies") or the body (anything else), split on `splitter`
    /// and then on `=`: the key is the text before the first `=`, the value
    /// the text up to the next `=`. An empty splitter splits, as `str::split`
    /// does, into an empty piece, each character and an empty piece. Fails
    /// where the range is not UTF-8.
    pub fn get_map(&self, nature: &str, splitter: &str) -> (r: Result<HashMap<&'a str, &'a str>, ParseError>)
        requires
            self@.wf(),
        ensures
            r is Ok <==> valid_utf8(map_source(self@, nature@).of(self@.buf)),
            r is Ok ==> str_map_contents(r->Ok_0) == map_of_pairs(
                kv_pairs(self@.buf, map_source(self@, nature@), encode_utf8(splitter@)),
            ),
    {
        proof {
            reveal_strlit("params");
            reveal_strlit("cookies");
            assert("params"@ =~= seq!['p', 'a', 'r', 'a', 'm', 's']);
            assert("cookies"@ =~= seq!['c', 'o', 'o', 'k', 'i', 'e', 's']);
        }
        let src = if text_eq(nature, "params") {
            self.params_span_exec()
        } else if text_eq(nature, "cookies") {
            self.fields().cookie
        } else {
            self.fields().body
        };
        if self.text_of(src).is_err() {
            return Err(ParseError::InvalidEncoding);
        }
        let pairs = self.text_pairs(src, splitter.as_bytes());
        let ghost ps = pairs@.map_values(|p: (&str, &str)| (p.0@, p.1@));
        let mut m = new_str_map();
        let mut i: usize = 0;
        while i < pairs.len()
            invariant
                i <= pairs@.len(),
                ps == pairs@.map_values(|p: (&str, &str)| (p.0@, p.1@)),
                str_map_contents(m) == map_of_pairs(ps.subrange(0, i as int)),
            decreases pairs@.len() - i,
        {
            let (k, v) = pairs[i];
            insert_str(&mut m, k, v);
            assert(ps.subrange(0, i + 1).drop_last() =~= ps.subrange(0, i as int));
            i = i + 1;
        }
        assert(ps.subrange(0, ps.len() as int) =~= ps);
        Ok(m)
    }

    /// The map of the body's `&`-separated pairs, as owned strings. Fails
    /// where the body is not UTF-8.
    pub fn get_body_map(&self) -> (r: Result<HashMap<String, String>, ParseError>)
        requires
            self@.wf(),
        ensures
            r is Ok <==> valid_utf8(self@.fields.body.of(self@.buf)),
            r is Ok ==> string_map_contents(r->Ok_0) == map_of_pairs(
                kv_pairs(self@.buf, self@.fields.body, seq![38u8]),
            ),
    {
        let body = self.fields().body;
        if self.text_of(body).is_err() {
            return Err(ParseError::InvalidEncoding);
        }
        let pat: Vec<u8> = vec![38u8];
        assert(pat@ =~= seq![38u8]);
        let pairs = self.text_pairs(body, pat.as_slice());
        let ghost ps = pairs@.map_values(|p: (&str, &str)| (p.0@, p.1@));
        let mut m = new_string_map();
        let mut i: usize = 0;
        while i < pairs.len()
            invariant
                i <= pairs@.len(),
                ps == pairs@.map_values(|p: (&str, &str)| (p.0@, p.1@)),
                string_map_contents(m) == map_of_pairs(ps.subrange(0, i as int)),
            decreases pairs@.len() - i,
        {
            let (k, v) = pairs[i];
            insert_string(&mut m, k.to_owned(), v.to_owned());
            assert(ps.subrange(0, i + 1).drop_last() =~= ps.subrange(0, i as int));
            i = i + 1;
        }
        assert(ps.subrange(0, ps.len() as int) =~= ps);
        Ok(m)
    }

    /// The map of the cookie header's `; `-separated pairs. Fails where the
    /// header's value is not UTF-8.
    pub fn get_cookie_map(&self) -> (r: Result<HashMap<&'a str, &'a str>, ParseError>)
        requires
            self@.wf(),
        ensures
            r is Ok <==> valid_utf8(self@.fields.cookie.of(self@.buf)),
            r is Ok ==> str_map_contents(r->Ok_0) == map_of_pairs(
                kv_pairs(self@.buf, self@.fields.cookie, seq![59u8, 32u8]),
            ),
    {
        proof {
            reveal_strlit("cookies");
            reveal_strlit("; ");
            assert("cookies"@ =~= seq!['c', 'o', 'o', 'k', 'i', 'e', 's']);
            assert("; "@ =~= seq![';', ' ']);
            assert(is_ascii_chars("; "@));
            is_ascii_chars_encode_utf8("; "@);
            assert(encode_utf8("; "@) =~= seq![59u8, 32u8]);
        }
        self.get_map("cookies", "; ")
    }

    /// The form-urlencoded pairs of the body, percent-decoded.
    pub fn get_post_params_url_encoded(&self) -> (r: HashMap<String, String>)
        requires
            self@.wf(),
        ensures
            string_map_contents(r) == map_of_pairs(form_pairs(self@.fields.body.of(self@.buf))),
    {
        let body = self.fields().body;
        let pairs = form_decode(&self.buffer()[body.start..body.end]);
        map_from_pairs(pairs)
    }

    /// The form-urlencoded pairs of the query, percent-decoded; an empty map
    /// where the target has no `?`.
    pub fn get_params_map(&self) -> (r: HashMap<String, String>)
        requires
            self@.wf(),
        ensures
            string_map_contents(r) == map_of_pairs(
                form_pairs(self@.buf.subrange(self@.params_index().0 as int, self@.params_index().1 as int)),
            ),
            self@.params_index().0 == self@.params_index().1 ==> string_map_contents(r) == map_of_pairs(
                Seq::empty(),
            ),
    {
        let (i1, i2) = self.get_params_index();
        let pairs = form_decode(&self.buffer()[i1..i2]);
        proof {
            if i1 == i2 {
                assert(pairs_view(pairs@) =~= Seq::empty());
            }
        }
        map_from_pairs(pairs)
    }

    /// The body's pairs: percent-decoded where the media type is
    /// `application/x-www-form-urlencoded` (ignoring case and surrounding
    /// space), else split naively as `get_body_map` does.
    pub fn get_post_params(&self) -> (r: Result<HashMap<String, String>, ParseError>)
        requires
            self@.wf(),
        ensures
            form_encoded(self@) ==> r is Ok && string_map_contents(r->Ok_0) == map_of_pairs(
                form_pairs(self@.fields.body.of(self@.buf)),
            ),
            !form_encoded(self@) ==> (r is Ok <==> valid_utf8(self@.fields.body.of(self@.buf))),
            !form_encoded(self@) && r is Ok ==> string_map_contents(r->Ok_0) == map_of_pairs(
                kv_pairs(self@.buf, self@.fields.body, seq![38u8]),
            ),
    {
        let form = match self.get_content_type() {
            Ok(t) => {
                let l = lowercase(trim_text(t));
                text_eq(l.as_str(), "application/x-www-form-urlencoded")
            },
            Err(_) => false,
        };
        if form {
            return Ok(self.get_post_params_url_encoded());
        }
        self.get_body_map()
    }
}

} // verus!
