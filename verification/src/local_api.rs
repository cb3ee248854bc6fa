//! The loopback HTTP API's request handling: framing a request off the
//! bytes read, parsing its head, the token and origin policy, routing,
//! answer heads, range requests, stitching WAV slices, the recordings list,
//! and the naming rules that tell live-capture slices from whole-file
//! imports.
//!
//! Sockets, the ledger and the WAV files stay with the caller; everything
//! here is a function from what was read to what should be answered.
use vstd::prelude::*;
use crate::text::{decimal, opt_chars, strings_view};
use vstd::utf8::{decode_utf8, encode_utf8, valid_utf8};
use crate::text::{
    chars_of, is_ws, lines, lines_spec, lower_spec, split_char, split_once, split_once_spec,
    split_spec, split_whitespace, str_eq, string_of, to_ascii_lower, to_ascii_upper, trim,
    trim_spec, upper_spec, words_spec,
};

verus! {

// ---------------------------------------------------------------------------
// Key/value lists
// ---------------------------------------------------------------------------

/// The text of each pair.
pub open spec fn pairs_view(v: Seq<(String, String)>) -> Seq<(Seq<char>, Seq<char>)> {
    v.map_values(|p: (String, String)| (p.0@, p.1@))
}

/// The value a map built by inserting `pairs` in order holds for `key`: the
/// last pair with that key wins.
pub open spec fn lookup(pairs: Seq<(Seq<char>, Seq<char>)>, key: Seq<char>) -> Option<Seq<char>>
    decreases pairs.len(),
{
    if pairs.len() == 0 {
        None
    } else if pairs.last().0 == key {
        Some(pairs.last().1)
    } else {
        lookup(pairs.drop_last(), key)
    }
}

/// The value for `key` in `pairs`, the last occurrence winning.
pub fn find_value<'a>(pairs: &'a Vec<(String, String)>, key: &str) -> (res: Option<&'a str>)
    ensures
        match lookup(pairs_view(pairs@), key@) {
            Some(v) => res matches Some(r) && r@ == v,
            None => res is None,
        },
{
    let mut i: usize = pairs.len();
    assert(pairs@.take(i as int) =~= pairs@);
    while i > 0
        invariant
            i <= pairs.len(),
            lookup(pairs_view(pairs@), key@) == lookup(pairs_view(pairs@.take(i as int)), key@),
        decreases i,
    {
        assert(pairs_view(pairs@.take(i as int)).drop_last() =~= pairs_view(
            pairs@.take(i - 1),
        ));
        if str_eq(pairs[i - 1].0.as_str(), key) {
            return Some(pairs[i - 1].1.as_str());
        }
        i -= 1;
    }
    None
}

// ---------------------------------------------------------------------------
// Percent-decoding
// ---------------------------------------------------------------------------

/// The value of one hexadecimal digit.
pub open spec fn hex_value(b: u8) -> Option<u8> {
    if 48 <= b <= 57 {
        Some((b - 48) as u8)
    } else if 97 <= b <= 102 {
        Some((b - 87) as u8)
    } else if 65 <= b <= 70 {
        Some((b - 55) as u8)
    } else {
        None
    }
}

/// `u8::from_str_radix` in base 16 on the two bytes after a `%`: two hex
/// digits, or a `+` sign followed by one.
pub open spec fn hex_pair(a: u8, b: u8) -> Option<u8> {
    match (hex_value(a), hex_value(b)) {
        (Some(x), Some(y)) => Some((16 * x + y) as u8),
        (_, Some(y)) => if a == 43 {
            Some(y)
        } else {
            None
        },
        _ => None,
    }
}

/// Form decoding on bytes: `+` is a space, `%` and a hex pair is that byte,
/// and anything else, a `%` without a pair included, stands for itself.
pub open spec fn pct_decode(b: Seq<u8>) -> Seq<u8>
    decreases b.len(),
{
    if b.len() == 0 {
        seq![]
    } else if b[0] == 43 {
        seq![32u8] + pct_decode(b.drop_first())
    } else if b[0] == 37 && 2 < b.len() && hex_pair(b[1], b[2]) is Some {
        seq![hex_pair(b[1], b[2])->0] + pct_decode(b.skip(3))
    } else {
        seq![b[0]] + pct_decode(b.drop_first())
    }
}

fn hex_digit(b: u8) -> (res: Option<u8>)
    ensures
        res == hex_value(b),
{
    if 48 <= b && b <= 57 {
        Some(b - 48)
    } else if 97 <= b && b <= 102 {
        Some(b - 87)
    } else if 65 <= b && b <= 70 {
        Some(b - 55)
    } else {
        None
    }
}

fn hex_byte(a: u8, b: u8) -> (res: Option<u8>)
    ensures
        res == hex_pair(a, b),
{
    match (hex_digit(a), hex_digit(b)) {
        (Some(x), Some(y)) => Some(16 * x + y),
        (_, Some(y)) => if a == 43 {
            Some(y)
        } else {
            None
        },
        _ => None,
    }
}

/// Form-decodes raw bytes.
pub fn percent_decode_bytes(bytes: &[u8]) -> (out: Vec<u8>)
    ensures
        out@ == pct_decode(bytes@),
{
    let mut out: Vec<u8> = Vec::new();
    let mut i: usize = 0;
    assert(bytes@.skip(0) =~= bytes@);
    while i < bytes.len()
        invariant
            i <= bytes.len(),
            out@ + pct_decode(bytes@.skip(i as int)) == pct_decode(bytes@),
        decreases bytes.len() - i,
    {
        let ghost rest = bytes@.skip(i as int);
        assert(rest[0] == bytes@[i as int]);
        assert(rest.drop_first() =~= bytes@.skip(i + 1));
        let b = bytes[i];
        if b == 43 {
            out.push(32);
            i += 1;
        } else if b == 37 && 2 < bytes.len() - i {
            assert(rest[1] == bytes@[i + 1] && rest[2] == bytes@[i + 2]);
            match hex_byte(bytes[i + 1], bytes[i + 2]) {
                Some(v) => {
                    assert(rest.skip(3) =~= bytes@.skip(i + 3));
                    out.push(v);
                    i += 3;
                },
                None => {
                    out.push(37);
                    i += 1;
                },
            }
        } else {
            out.push(b);
            i += 1;
        }
    }
    assert(bytes@.skip(i as int) =~= seq![]);
    assert(out@ + seq![] =~= out@);
    out
}

/// Bytes with no `%` and no `+` decode to themselves.
pub proof fn law_plain_bytes_decode_to_themselves(b: Seq<u8>)
    requires
        forall|k: int| 0 <= k < b.len() ==> b[k] != 37 && b[k] != 43,
    ensures
        pct_decode(b) == b,
    decreases b.len(),
{
    if b.len() > 0 {
        law_plain_bytes_decode_to_themselves(b.drop_first());
        assert(seq![b[0]] + b.drop_first() =~= b);
    }
}

/// What `String::from_utf8_lossy` makes of `bytes`.
pub uninterp spec fn utf8_lossy(bytes: Seq<u8>) -> Seq<char>;

/// `String::from_utf8_lossy`, owned. The contract names the result and says
/// that valid UTF-8 is decoded unchanged; how invalid sequences are replaced
/// is left unsaid.
#[verifier::external_body]
fn lossy_string(bytes: &Vec<u8>) -> (out: String)
    ensures
        out@ == utf8_lossy(bytes@),
        valid_utf8(bytes@) ==> out@ == decode_utf8(bytes@),
{
    String::from_utf8_lossy(bytes).into_owned()
}

/// Form decoding of a text: its UTF-8 bytes decoded, then read back as
/// UTF-8 with invalid sequences replaced.
pub open spec fn percent_decode_spec(s: Seq<char>) -> Seq<char> {
    utf8_lossy(pct_decode(encode_utf8(s)))
}

/// Decodes `+` and `%XX` escapes of a query component.
pub fn percent_decode(input: &str) -> (out: String)
    ensures
        out@ == percent_decode_spec(input@),
        valid_utf8(pct_decode(encode_utf8(input@))) ==> out@ == decode_utf8(
            pct_decode(encode_utf8(input@)),
        ),
{
    let bytes = input.as_bytes();
    let decoded = percent_decode_bytes(bytes);
    lossy_string(&decoded)
}

// ---------------------------------------------------------------------------
// Request head
// ---------------------------------------------------------------------------

/// One `key=value` piece of a query string.
pub open spec fn query_pair(piece: Seq<char>) -> (Seq<char>, Seq<char>) {
    match split_once_spec(piece, '=') {
        Some((k, v)) => (percent_decode_spec(k), percent_decode_spec(v)),
        None => (percent_decode_spec(piece), seq![]),
    }
}

/// The pairs of the non-empty pieces, in order.
pub open spec fn query_pairs(pieces: Seq<Seq<char>>) -> Seq<(Seq<char>, Seq<char>)>
    decreases pieces.len(),
{
    if pieces.len() == 0 {
        seq![]
    } else if pieces.last().len() == 0 {
        query_pairs(pieces.drop_last())
    } else {
        query_pairs(pieces.drop_last()).push(query_pair(pieces.last()))
    }
}

/// A query string split at `&` into decoded pairs.
pub open spec fn parse_query_spec(q: Seq<char>) -> Seq<(Seq<char>, Seq<char>)> {
    query_pairs(split_spec(q, '&'))
}

/// Decodes a query string into its pairs, in order.
pub fn parse_query(query: &str) -> (out: Vec<(String, String)>)
    ensures
        pairs_view(out@) == parse_query_spec(query@),
{
    let chars = chars_of(query);
    let pieces = split_char(&chars, '&');
    let ghost ps = pieces@.map_values(|p: Vec<char>| p@);
    let mut out: Vec<(String, String)> = Vec::new();
    let mut i: usize = 0;
    while i < pieces.len()
        invariant
            i <= pieces.len(),
            ps == pieces@.map_values(|p: Vec<char>| p@),
            ps == split_spec(query@, '&'),
            pairs_view(out@) == query_pairs(ps.take(i as int)),
        decreases pieces.len() - i,
    {
        assert(ps.take(i + 1).drop_last() =~= ps.take(i as int));
        assert(ps.take(i + 1).last() == pieces@[i as int]@);
        let piece = &pieces[i];
        if piece.len() > 0 {
            let pair = match split_once(piece, '=') {
                Some((k, v)) => {
                    let ks = string_of(&k);
                    let vs = string_of(&v);
                    (percent_decode(ks.as_str()), percent_decode(vs.as_str()))
                },
                None => {
                    let ps_ = string_of(piece);
                    (percent_decode(ps_.as_str()), String::new())
                },
            };
            let ghost before = out@;
            out.push(pair);
            assert(pairs_view(out@) =~= pairs_view(before).push((pair.0@, pair.1@)));
        }
        i += 1;
    }
    assert(ps.take(pieces.len() as int) =~= ps);
    out
}

/// A header line's name, lower-cased and trimmed, and its trimmed value.
pub open spec fn header_pairs(ls: Seq<Seq<char>>) -> Seq<(Seq<char>, Seq<char>)>
    decreases ls.len(),
{
    if ls.len() == 0 {
        seq![]
    } else {
        match split_once_spec(ls.last(), ':') {
            Some((n, v)) => header_pairs(ls.drop_last()).push(
                (lower_spec(trim_spec(n)), trim_spec(v)),
            ),
            None => header_pairs(ls.drop_last()),
        }
    }
}

/// A parsed request: method, path, query pairs and header pairs in the
/// order they came, and the body.
#[derive(Debug)]
pub struct Request {
    pub method: String,
    pub path: String,
    pub query: Vec<(String, String)>,
    pub headers: Vec<(String, String)>,
    pub body: Vec<u8>,
}

pub struct RequestView {
    pub method: Seq<char>,
    pub path: Seq<char>,
    pub query: Seq<(Seq<char>, Seq<char>)>,
    pub headers: Seq<(Seq<char>, Seq<char>)>,
    pub body: Seq<u8>,
}

impl View for Request {
    type V = RequestView;

    open spec fn view(&self) -> RequestView {
        RequestView {
            method: self.method@,
            path: self.path@,
            query: pairs_view(self.query@),
            headers: pairs_view(self.headers@),
            body: self.body@,
        }
    }
}

/// What a request head says: the request line's method (upper-cased) and
/// target, the target's query, and every later line that holds a `:`.
/// `None` when the head has no line or its first line fewer than two words.
pub open spec fn parse_request_spec(head: Seq<char>) -> Option<RequestView> {
    let ls = lines_spec(head);
    if ls.len() == 0 {
        None
    } else {
        let words = words_spec(ls[0]);
        if words.len() < 2 {
            None
        } else {
            let target = words[1];
            let (path, query) = match split_once_spec(target, '?') {
                Some((p, q)) => (p, parse_query_spec(q)),
                None => (target, seq![]),
            };
            Some(
                RequestView {
                    method: upper_spec(words[0]),
                    path,
                    query,
                    headers: header_pairs(ls.skip(1)),
                    body: seq![],
                },
            )
        }
    }
}

fn header_list(ls: &Vec<Vec<char>>) -> (out: Vec<(String, String)>)
    requires
        ls.len() >= 1,
    ensures
        pairs_view(out@) == header_pairs(ls@.map_values(|l: Vec<char>| l@).skip(1)),
{
    let ghost all = ls@.map_values(|l: Vec<char>| l@);
    let mut out: Vec<(String, String)> = Vec::new();
    let mut i: usize = 1;
    assert(all.skip(1).take(0) =~= seq![]);
    while i < ls.len()
        invariant
            1 <= i <= ls.len(),
            all == ls@.map_values(|l: Vec<char>| l@),
            pairs_view(out@) == header_pairs(all.skip(1).take(i - 1)),
        decreases ls.len() - i,
    {
        let ghost rest = all.skip(1).take(i as int);
        assert(rest.drop_last() =~= all.skip(1).take(i - 1));
        assert(rest.last() == ls@[i as int]@);
        match split_once(&ls[i], ':') {
            Some((n, v)) => {
                let name = string_of(&to_ascii_lower(&trim(&n)));
                let value = string_of(&trim(&v));
                let ghost before = out@;
                out.push((name, value));
                assert(pairs_view(out@) =~= pairs_view(before).push((name@, value@)));
            },
            None => {},
        }
        i += 1;
    }
    assert(all.skip(1).take(ls.len() - 1) =~= all.skip(1));
    out
}

/// Parses a request head (everything before the blank line).
pub fn parse_request(head: &str) -> (res: Option<Request>)
    ensures
        match parse_request_spec(head@) {
            Some(v) => res matches Some(r) && r@ == v,
            None => res is None,
        },
{
    let chars = chars_of(head);
    let ls = lines(&chars);
    if ls.len() == 0 {
        return None;
    }
    let words = split_whitespace(&ls[0]);
    if words.len() < 2 {
        return None;
    }
    let method = string_of(&to_ascii_upper(&words[0]));
    let target = &words[1];
    let (path, query) = match split_once(target, '?') {
        Some((p, q)) => {
            let qs = string_of(&q);
            (string_of(&p), parse_query(qs.as_str()))
        },
        None => {
            let empty: Vec<(String, String)> = Vec::new();
            assert(pairs_view(empty@) =~= seq![]);
            (string_of(target), empty)
        },
    };
    let headers = header_list(&ls);
    let request = Request { method, path, query, headers, body: Vec::new() };
    assert(request@.body =~= seq![]);
    Some(request)
}

impl Request {
    /// The value of a header, by its lower-case name.
    pub fn header(&self, name: &str) -> (res: Option<&str>)
        ensures
            match lookup(self@.headers, name@) {
                Some(v) => res matches Some(r) && r@ == v,
                None => res is None,
            },
    {
        find_value(&self.headers, name)
    }

    /// The value of a query parameter.
    pub fn query_value(&self, name: &str) -> (res: Option<&str>)
        ensures
            match lookup(self@.query, name@) {
                Some(v) => res matches Some(r) && r@ == v,
                None => res is None,
            },
    {
        find_value(&self.query, name)
    }
}

// ---------------------------------------------------------------------------
// Policy: who may talk to this, and from where
// ---------------------------------------------------------------------------

/// The production web origin allowed to read responses cross-origin.
pub const WEB_ORIGIN: &'static str = "https://fung-seven.vercel.app";

/// Whether two strings hold the same bytes, in time that depends only on
/// their lengths.
pub fn constant_time_eq(a: &str, b: &str) -> (res: bool)
    ensures
        res == (a@ == b@),
{
    let ab = a.as_bytes();
    let bb = b.as_bytes();
    proof {
        vstd::utf8::encode_utf8_decode_utf8(a@);
        vstd::utf8::encode_utf8_decode_utf8(b@);
    }
    if ab.len() != bb.len() {
        return false;
    }
    let mut acc: u8 = 0;
    let mut i: usize = 0;
    while i < ab.len()
        invariant
            ab.len() == bb.len(),
            i <= ab.len(),
            acc == 0 <==> forall|k: int| 0 <= k < i ==> ab@[k] == bb@[k],
        decreases ab.len() - i,
    {
        let x = ab[i];
        let y = bb[i];
        assert((acc | (x ^ y)) == 0 <==> (acc == 0 && x == y)) by (bit_vector);
        acc = acc | (x ^ y);
        i += 1;
    }
    if acc == 0 {
        assert(ab@ =~= bb@);
    }
    acc == 0
}

/// The credential in an `Authorization` value: what follows `Bearer `,
/// trimmed.
pub open spec fn bearer_credential(value: Option<Seq<char>>) -> Option<Seq<char>> {
    match value {
        Some(v) => if crate::text::starts_with(v, "Bearer "@) {
            Some(trim_spec(v.skip("Bearer "@.len() as int)))
        } else {
            None
        },
        None => None,
    }
}

/// The request carries exactly `token`, as a bearer credential or as the
/// `token` query parameter.
pub open spec fn authorized_spec(r: RequestView, token: Seq<char>) -> bool {
    bearer_credential(lookup(r.headers, "authorization"@)) == Some(token) || lookup(
        r.query,
        "token"@,
    ) == Some(token)
}

/// Bearer header for `fetch`, `?token=` for `<audio src>`; either proves the
/// caller was handed the connect URL.
pub fn authorized(request: &Request, token: &str) -> (res: bool)
    ensures
        res == authorized_spec(request@, token@),
{
    let header_ok = match request.header("authorization") {
        Some(value) => {
            let v = chars_of(value);
            let prefix = chars_of("Bearer ");
            if crate::text::has_prefix(&v, &prefix) {
                let cred = string_of(&trim(&crate::text::slice_chars(&v, prefix.len(), v.len())));
                assert(v@.subrange(prefix@.len() as int, v@.len() as int) =~= v@.skip(
                    prefix@.len() as int,
                ));
                constant_time_eq(cred.as_str(), token)
            } else {
                false
            }
        },
        None => false,
    };
    let query_ok = match request.query_value("token") {
        Some(value) => constant_time_eq(value, token),
        None => false,
    };
    header_ok || query_ok
}

/// The host of an `http://` or `https://` origin: what precedes the first
/// `:` after the scheme.
pub open spec fn origin_host(origin: Seq<char>) -> Option<Seq<char>> {
    let rest = if crate::text::starts_with(origin, "http://"@) {
        Some(origin.skip("http://"@.len() as int))
    } else if crate::text::starts_with(origin, "https://"@) {
        Some(origin.skip("https://"@.len() as int))
    } else {
        None
    };
    match rest {
        Some(r) => match split_once_spec(r, ':') {
            Some((h, _)) => Some(h),
            None => Some(r),
        },
        None => None,
    }
}

/// `origin` is one of the comma-separated entries of `extra`, trimmed.
pub open spec fn listed_origin(extra: Option<Seq<char>>, origin: Seq<char>) -> bool {
    match extra {
        Some(e) => in_origin_list(e, origin),
        None => false,
    }
}

/// `origin` is one of the comma-separated entries of `list`, trimmed.
pub open spec fn in_origin_list(list: Seq<char>, origin: Seq<char>) -> bool {
    exists|i: int|
        0 <= i < split_spec(list, ',').len() && trim_spec(#[trigger] split_spec(list, ',')[i])
            == origin
}

pub open spec fn origin_allowed_spec(origin: Seq<char>, extra: Option<Seq<char>>) -> bool {
    ||| origin == WEB_ORIGIN@
    ||| listed_origin(extra, origin)
    ||| origin_host(origin) == Some("localhost"@)
    ||| origin_host(origin) == Some("127.0.0.1"@)
}

fn strip_scheme(origin: &Vec<char>) -> (res: Option<Vec<char>>)
    ensures
        match (if crate::text::starts_with(origin@, "http://"@) {
            Some(origin@.skip("http://"@.len() as int))
        } else if crate::text::starts_with(origin@, "https://"@) {
            Some(origin@.skip("https://"@.len() as int))
        } else {
            None
        }) {
            Some(r) => res matches Some(x) && x@ == r,
            None => res is None,
        },
{
    let http = chars_of("http://");
    let https = chars_of("https://");
    if crate::text::has_prefix(origin, &http) {
        let r = crate::text::slice_chars(origin, http.len(), origin.len());
        assert(r@ =~= origin@.skip(http@.len() as int));
        Some(r)
    } else if crate::text::has_prefix(origin, &https) {
        let r = crate::text::slice_chars(origin, https.len(), origin.len());
        assert(r@ =~= origin@.skip(https@.len() as int));
        Some(r)
    } else {
        None
    }
}

/// Whether a browser `Origin` may read responses: the production web
/// origin, an entry of `extra_origins` (the comma-separated list an operator
/// configured), or any `http(s)://localhost` or `http(s)://127.0.0.1` origin
/// on any port.
pub fn origin_allowed(origin: &str, extra_origins: Option<&str>) -> (res: bool)
    ensures
        res == origin_allowed_spec(
            origin@,
            match extra_origins {
                Some(e) => Some(e@),
                None => None,
            },
        ),
{
    if str_eq(origin, WEB_ORIGIN) {
        return true;
    }
    let o = chars_of(origin);
    match extra_origins {
        Some(extra) => {
            let e = chars_of(extra);
            let pieces = split_char(&e, ',');
            let ghost ps = pieces@.map_values(|p: Vec<char>| p@);
            let mut i: usize = 0;
            while i < pieces.len()
                invariant
                    i <= pieces.len(),
                    ps == pieces@.map_values(|p: Vec<char>| p@),
                    ps == split_spec(extra@, ','),
                    o@ == origin@,
                    extra_origins == Some(extra),
                    forall|k: int| 0 <= k < i ==> trim_spec(#[trigger] ps[k]) != origin@,
                decreases pieces.len() - i,
            {
                assert(ps[i as int] == pieces@[i as int]@);
                let t = trim(&pieces[i]);
                if crate::text::same_chars(&t, &o) {
                    assert(ps.len() == pieces.len());
                    assert(trim_spec(split_spec(extra@, ',')[i as int]) == origin@);
                    assert(in_origin_list(extra@, origin@));
                    return true;
                }
                i += 1;
            }
        },
        None => {},
    }
    match strip_scheme(&o) {
        Some(rest) => {
            let host = match split_once(&rest, ':') {
                Some((h, _)) => h,
                None => rest,
            };
            crate::text::text_is(&host, "localhost") || crate::text::text_is(&host, "127.0.0.1")
        },
        None => false,
    }
}

// ---------------------------------------------------------------------------
// Responses and byte ranges
// ---------------------------------------------------------------------------

/// What is written back: status line text, content type, body, and any
/// headers beyond the fixed ones.
#[derive(Debug)]
pub struct Response {
    pub status: &'static str,
    pub content_type: &'static str,
    pub body: Vec<u8>,
    pub extra_headers: Vec<(String, String)>,
}

pub struct ResponseView {
    pub status: Seq<char>,
    pub content_type: Seq<char>,
    pub body: Seq<u8>,
    pub extra_headers: Seq<(Seq<char>, Seq<char>)>,
}

impl View for Response {
    type V = ResponseView;

    open spec fn view(&self) -> ResponseView {
        ResponseView {
            status: self.status@,
            content_type: self.content_type@,
            body: self.body@,
            extra_headers: pairs_view(self.extra_headers@),
        }
    }
}

impl Response {
    /// A response with no body.
    pub fn empty(status: &'static str) -> (res: Response)
        ensures
            res.status == status,
            res@.content_type == "text/plain"@,
            res@.body.len() == 0,
            res@.extra_headers.len() == 0,
    {
        Response {
            status,
            content_type: "text/plain",
            body: Vec::new(),
            extra_headers: Vec::new(),
        }
    }
}

/// Position of the `\r\n\r\n` that ends a request head.
pub open spec fn blank_line_at(b: Seq<u8>, p: int) -> bool {
    0 <= p && p + 4 <= b.len() && b[p] == 13 && b[p + 1] == 10 && b[p + 2] == 13 && b[p + 3] == 10
}

/// The first position of `\r\n\r\n` in `buffer`.
pub fn head_end(buffer: &[u8]) -> (res: Option<usize>)
    ensures
        match res {
            Some(p) => blank_line_at(buffer@, p as int) && forall|q: int|
                0 <= q < p ==> !blank_line_at(buffer@, q),
            None => forall|q: int| !blank_line_at(buffer@, q),
        },
{
    if buffer.len() < 4 {
        return None;
    }
    let mut p: usize = 0;
    while p < buffer.len() - 3
        invariant
            buffer.len() >= 4,
            p <= buffer.len() - 3,
            forall|q: int| 0 <= q < p ==> !blank_line_at(buffer@, q),
        decreases buffer.len() - p,
    {
        if buffer[p] == 13 && buffer[p + 1] == 10 && buffer[p + 2] == 13 && buffer[p + 3] == 10 {
            return Some(p);
        }
        p += 1;
    }
    None
}

/// A decimal `usize`, as `str::parse::<usize>` reads it.
pub open spec fn parse_usize(s: Seq<char>) -> Option<nat> {
    crate::text::parse_unsigned(s, usize::MAX as nat)
}

// ---------------------------------------------------------------------------
// Reading a request off the socket
// ---------------------------------------------------------------------------

/// Longest request head read before the request is refused.
pub const MAX_REQUEST_HEAD: usize = 16_384;

/// Largest upload body accepted.
pub const MAX_UPLOAD_BYTES: usize = 536_870_912;

pub const BAD_REQUEST_BODY: &'static str = "{\"error\":\"BAD_REQUEST\"}";

pub const LENGTH_REQUIRED_BODY: &'static str = "{\"error\":\"LENGTH_REQUIRED\"}";

pub const PAYLOAD_TOO_LARGE_BODY: &'static str = "{\"error\":\"PAYLOAD_TOO_LARGE\",\"maxBytes\":536870912}";

/// `p` is where the request head ends: the first blank line.
pub open spec fn is_head_end(b: Seq<u8>, p: int) -> bool {
    blank_line_at(b, p) && forall|q: int| 0 <= q < p ==> !blank_line_at(b, q)
}

pub open spec fn json_view(status: Seq<char>, body: Seq<char>) -> ResponseView {
    ResponseView {
        status,
        content_type: "application/json"@,
        body: encode_utf8(body),
        extra_headers: seq![],
    }
}

pub open spec fn bad_request_view() -> ResponseView {
    json_view("400 Bad Request"@, BAD_REQUEST_BODY@)
}

/// Where reading a request stands, given every byte read so far.
pub enum ReadStep {
    /// More bytes are needed.
    More,
    /// The request is complete.
    Ready(Request),
    /// The request is refused with this answer.
    Reject(Response),
}

pub enum ReadStepView {
    More,
    Ready(RequestView),
    Reject(ResponseView),
}

impl View for ReadStep {
    type V = ReadStepView;

    open spec fn view(&self) -> ReadStepView {
        match self {
            ReadStep::More => ReadStepView::More,
            ReadStep::Ready(r) => ReadStepView::Ready(r@),
            ReadStep::Reject(r) => ReadStepView::Reject(r@),
        }
    }
}

/// Reading a request: the head up to its blank line, at most
/// `MAX_REQUEST_HEAD` bytes before it is found; then, for `POST` only,
/// exactly `Content-Length` bytes of body, at most `MAX_UPLOAD_BYTES`. A
/// malformed head, or a stream that ends early, is a `400`; a `POST`
/// without a readable length a `411`; an oversized one a `413`. A body on
/// another method is left unread. `eof` says the stream has ended.
pub open spec fn request_step_spec(b: Seq<u8>, eof: bool) -> ReadStepView {
    if exists|p: int| #[trigger] is_head_end(b, p) {
        let end = choose|p: int| #[trigger] is_head_end(b, p);
        match parse_request_spec(utf8_lossy(b.take(end))) {
            None => ReadStepView::Reject(bad_request_view()),
            Some(r) => if r.method != "POST"@ {
                ReadStepView::Ready(r)
            } else {
                match lookup(r.headers, "content-length"@) {
                    None => ReadStepView::Reject(json_view("411 Length Required"@, LENGTH_REQUIRED_BODY@)),
                    Some(v) => match parse_usize(v) {
                        None => ReadStepView::Reject(
                            json_view("411 Length Required"@, LENGTH_REQUIRED_BODY@),
                        ),
                        Some(len) => if len > MAX_UPLOAD_BYTES {
                            ReadStepView::Reject(
                                json_view("413 Payload Too Large"@, PAYLOAD_TOO_LARGE_BODY@),
                            )
                        } else {
                            let body = b.skip(end + 4);
                            if body.len() >= len {
                                ReadStepView::Ready(RequestView { body: body.take(len as int), ..r })
                            } else if eof {
                                ReadStepView::Reject(bad_request_view())
                            } else {
                                ReadStepView::More
                            }
                        },
                    },
                }
            },
        }
    } else if b.len() > MAX_REQUEST_HEAD || eof {
        ReadStepView::Reject(bad_request_view())
    } else {
        ReadStepView::More
    }
}

fn json_response(status: &'static str, body: &'static str) -> (res: Response)
    ensures
        res@ == json_view(status@, body@),
{
    let r = Response {
        status,
        content_type: "application/json",
        body: vstd::slice::slice_to_vec(body.as_bytes()),
        extra_headers: Vec::new(),
    };
    assert(r@.extra_headers =~= seq![]);
    r
}

/// Decides, from every byte read so far, whether the request is complete,
/// refused, or needs more bytes.
pub fn request_step(buffer: &Vec<u8>, eof: bool) -> (res: ReadStep)
    ensures
        res@ == request_step_spec(buffer@, eof),
{
    let b = buffer.as_slice();
    match head_end(b) {
        None => {
            assert(!exists|p: int| #[trigger] is_head_end(buffer@, p));
            if buffer.len() > MAX_REQUEST_HEAD || eof {
                ReadStep::Reject(json_response("400 Bad Request", BAD_REQUEST_BODY))
            } else {
                ReadStep::More
            }
        },
        Some(end) => {
            assert(is_head_end(buffer@, end as int));
            assert forall|p: int| #[trigger] is_head_end(buffer@, p) implies p == end by {
                if p < end {
                    assert(!blank_line_at(buffer@, p));
                } else if p > end {
                    assert(!blank_line_at(buffer@, end as int));
                }
            }
            let head_bytes = vstd::slice::slice_to_vec(vstd::slice::slice_subrange(b, 0, end));
            assert(head_bytes@ =~= buffer@.take(end as int));
            let head = lossy_string(&head_bytes);
            match parse_request(head.as_str()) {
                None => ReadStep::Reject(json_response("400 Bad Request", BAD_REQUEST_BODY)),
                Some(mut request) => {
                    if !str_eq(request.method.as_str(), "POST") {
                        return ReadStep::Ready(request);
                    }
                    let length = match request.header("content-length") {
                        None => {
                            return ReadStep::Reject(
                                json_response("411 Length Required", LENGTH_REQUIRED_BODY),
                            );
                        },
                        Some(v) => {
                            let vc = chars_of(v);
                            match crate::text::parse_u64_upto(&vc, usize::MAX as u64) {
                                None => {
                                    return ReadStep::Reject(
                                        json_response("411 Length Required", LENGTH_REQUIRED_BODY),
                                    );
                                },
                                Some(n) => n as usize,
                            }
                        },
                    };
                    if length > MAX_UPLOAD_BYTES {
                        return ReadStep::Reject(
                            json_response("413 Payload Too Large", PAYLOAD_TOO_LARGE_BODY),
                        );
                    }
                    let have = buffer.len() - (end + 4);
                    if have >= length {
                        let body = vstd::slice::slice_to_vec(
                            vstd::slice::slice_subrange(b, end + 4, end + 4 + length),
                        );
                        assert(body@ =~= buffer@.skip(end + 4).take(length as int));
                        request.body = body;
                        ReadStep::Ready(request)
                    } else if eof {
                        ReadStep::Reject(json_response("400 Bad Request", BAD_REQUEST_BODY))
                    } else {
                        ReadStep::More
                    }
                },
            }
        },
    }
}

/// A `POST` is handed on with exactly the body its `Content-Length` names.
pub proof fn law_post_body_has_its_declared_length(b: Seq<u8>, eof: bool)
    ensures
        request_step_spec(b, eof) matches ReadStepView::Ready(r) ==> (r.method == "POST"@ ==> (
        lookup(r.headers, "content-length"@) matches Some(v) && parse_usize(v) == Some(
            r.body.len(),
        ))),
{
}

/// Bytes that arrive after a request is complete do not change it: the
/// head ends at the same blank line and the body is cut at the same length.
pub proof fn law_later_bytes_do_not_change_a_ready_request(
    b: Seq<u8>,
    more: Seq<u8>,
    eof: bool,
    eof_later: bool,
)
    ensures
        request_step_spec(b, eof) is Ready ==> request_step_spec(b + more, eof_later)
            == request_step_spec(b, eof),
{
    let c = b + more;
    if exists|p: int| #[trigger] is_head_end(b, p) {
        let end = choose|p: int| #[trigger] is_head_end(b, p);
        assert forall|q: int| 0 <= q <= end implies blank_line_at(c, q) == blank_line_at(b, q) by {
            if 0 <= q && q + 4 <= b.len() {
                assert(c[q] == b[q] && c[q + 1] == b[q + 1] && c[q + 2] == b[q + 2] && c[q + 3]
                    == b[q + 3]);
            }
        }
        assert(is_head_end(c, end));
        assert forall|p: int| #[trigger] is_head_end(c, p) implies p == end by {
            if p < end {
                assert(blank_line_at(c, p) == blank_line_at(b, p));
            } else if p > end {
                assert(!blank_line_at(c, end));
            }
        }
        assert(c.take(end) =~= b.take(end));
        if request_step_spec(b, eof) is Ready {
            if let Some(r) = parse_request_spec(utf8_lossy(b.take(end))) {
                if r.method == "POST"@ {
                    let len = parse_usize(lookup(r.headers, "content-length"@)->0)->0;
                    assert(c.skip(end + 4).take(len as int) =~= b.skip(end + 4).take(len as int));
                }
            }
        }
    }
}

/// The head of an answer: status line, the fixed headers, the CORS headers
/// when an origin is allowed, the answer's own headers, and a blank line.
pub open spec fn response_head_spec(r: ResponseView, cors_origin: Option<Seq<char>>) -> Seq<char> {
    let fixed = "HTTP/1.1 "@ + r.status + "\r\nContent-Type: "@ + r.content_type
        + "\r\nContent-Length: "@ + crate::text::decimal(r.body.len())
        + "\r\nConnection: close\r\nCache-Control: no-store\r\n"@;
    let cors = match cors_origin {
        Some(o) => "Access-Control-Allow-Origin: "@ + o + "\r\n"@ + CORS_HEADERS@,
        None => seq![],
    };
    fixed + cors + header_lines(r.extra_headers) + "\r\n"@
}

/// The CORS headers after `Access-Control-Allow-Origin`.
pub const CORS_HEADERS: &'static str = "Vary: Origin\r\nAccess-Control-Allow-Methods: GET, POST, OPTIONS\r\nAccess-Control-Allow-Headers: Authorization, Range, Content-Type, X-Fung-Filename\r\nAccess-Control-Expose-Headers: Content-Length, Content-Range, Accept-Ranges, X-Fung-Missing-Chunks\r\nAccess-Control-Allow-Private-Network: true\r\nAccess-Control-Max-Age: 600\r\n";

/// `name: value` lines, in order.
pub open spec fn header_lines(hs: Seq<(Seq<char>, Seq<char>)>) -> Seq<char>
    decreases hs.len(),
{
    if hs.len() == 0 {
        seq![]
    } else {
        header_lines(hs.drop_last()) + hs.last().0 + ": "@ + hs.last().1 + "\r\n"@
    }
}

/// Writes the head of an answer.
pub fn response_head(response: &Response, cors_origin: Option<&str>) -> (res: String)
    ensures
        res@ == response_head_spec(
            response@,
            match cors_origin {
                Some(o) => Some(o@),
                None => None,
            },
        ),
{
    let mut head = crate::text::copy_string("HTTP/1.1 ");
    crate::text::push_text(&mut head, response.status);
    crate::text::push_text(&mut head, "\r\nContent-Type: ");
    crate::text::push_text(&mut head, response.content_type);
    crate::text::push_text(&mut head, "\r\nContent-Length: ");
    crate::text::push_u64(&mut head, response.body.len() as u64);
    crate::text::push_text(&mut head, "\r\nConnection: close\r\nCache-Control: no-store\r\n");
    let ghost fixed = head@;
    match cors_origin {
        Some(o) => {
            crate::text::push_text(&mut head, "Access-Control-Allow-Origin: ");
            crate::text::push_text(&mut head, o);
            crate::text::push_text(&mut head, "\r\n");
            crate::text::push_text(&mut head, CORS_HEADERS);
        },
        None => {},
    }
    let ghost with_cors = head@;
    let hs = &response.extra_headers;
    let ghost hv = pairs_view(hs@);
    let mut i: usize = 0;
    while i < hs.len()
        invariant
            i <= hs.len(),
            hv == pairs_view(hs@),
            head@ == with_cors + header_lines(hv.take(i as int)),
        decreases hs.len() - i,
    {
        assert(hv.take(i + 1).drop_last() =~= hv.take(i as int));
        assert(hv.take(i + 1).last() == (hs@[i as int].0@, hs@[i as int].1@));
        crate::text::push_text(&mut head, hs[i].0.as_str());
        crate::text::push_text(&mut head, ": ");
        crate::text::push_text(&mut head, hs[i].1.as_str());
        crate::text::push_text(&mut head, "\r\n");
        i += 1;
    }
    assert(hv.take(hs.len() as int) =~= hv);
    crate::text::push_text(&mut head, "\r\n");
    head
}

/// A single `bytes=` range (RFC 9110 §14.1.2) over a body of `total` bytes,
/// as an inclusive `(start, end)` clamped to the body; `None` when it is
/// malformed or unsatisfiable.
pub open spec fn parse_range_spec(header: Seq<char>, total: nat) -> Option<(nat, nat)> {
    let t = trim_spec(header);
    if !crate::text::starts_with(t, "bytes="@) {
        None
    } else {
        match split_once_spec(t.skip("bytes="@.len() as int), '-') {
            None => None,
            Some((a, b)) => if total == 0 {
                None
            } else {
                let last = (total - 1) as nat;
                let (a, b) = (trim_spec(a), trim_spec(b));
                if a.len() == 0 {
                    match parse_usize(b) {
                        Some(n) => if n == 0 {
                            None
                        } else {
                            Some(((total - if n < total { n } else { total }) as nat, last))
                        },
                        None => None,
                    }
                } else if b.len() == 0 {
                    match parse_usize(a) {
                        Some(s) => if s <= last {
                            Some((s, last))
                        } else {
                            None
                        },
                        None => None,
                    }
                } else {
                    match (parse_usize(a), parse_usize(b)) {
                        (Some(s), Some(e)) => if s > e || s > last {
                            None
                        } else {
                            Some((s, if e < last { e } else { last }))
                        },
                        _ => None,
                    }
                }
            },
        }
    }
}

fn parse_usize_exec(s: &Vec<char>) -> (res: Option<usize>)
    ensures
        match parse_usize(s@) {
            Some(v) => res == Some(v as usize),
            None => res is None,
        },
{
    match crate::text::parse_u64_upto(s, usize::MAX as u64) {
        Some(v) => Some(v as usize),
        None => None,
    }
}

/// Single-range `bytes=` parsing per RFC 9110 §14.1.2.
pub fn parse_range(header: &str, total: usize) -> (res: Option<(usize, usize)>)
    ensures
        match parse_range_spec(header@, total as nat) {
            Some((s, e)) => res == Some((s as usize, e as usize)),
            None => res is None,
        },
{
    let t = trim(&chars_of(header));
    let prefix = chars_of("bytes=");
    if !crate::text::has_prefix(&t, &prefix) {
        return None;
    }
    let spec = crate::text::slice_chars(&t, prefix.len(), t.len());
    assert(spec@ =~= t@.skip(prefix@.len() as int));
    let (a, b) = match split_once(&spec, '-') {
        Some(pair) => pair,
        None => return None,
    };
    if total == 0 {
        return None;
    }
    let last = total - 1;
    let a = trim(&a);
    let b = trim(&b);
    if a.len() == 0 {
        let n = match parse_usize_exec(&b) {
            Some(n) => n,
            None => return None,
        };
        if n == 0 {
            return None;
        }
        let m = if n < total { n } else { total };
        Some((total - m, last))
    } else if b.len() == 0 {
        let s = match parse_usize_exec(&a) {
            Some(s) => s,
            None => return None,
        };
        if s <= last {
            Some((s, last))
        } else {
            None
        }
    } else {
        let s = match parse_usize_exec(&a) {
            Some(s) => s,
            None => return None,
        };
        let e = match parse_usize_exec(&b) {
            Some(e) => e,
            None => return None,
        };
        if s > e || s > last {
            None
        } else {
            Some((s, if e < last { e } else { last }))
        }
    }
}

/// Every range `parse_range` grants lies inside the body and is not empty.
pub proof fn law_range_lies_within_the_body(header: Seq<char>, total: nat)
    ensures
        match parse_range_spec(header, total) {
            Some((s, e)) => s <= e < total,
            None => true,
        },
{
}

/// Audio ready to serve: its bytes, their MIME type, and how many of the
/// slices the ledger lists were not on disk.
#[derive(Debug)]
pub struct Audio {
    pub bytes: Vec<u8>,
    pub mime: &'static str,
    pub missing_chunks: usize,
}

/// The body of a `416` answer.
pub const RANGE_NOT_SATISFIABLE_BODY: &'static str = "{\"error\":\"RANGE_NOT_SATISFIABLE\"}";

/// The headers every audio answer carries.
pub open spec fn audio_headers(missing: nat) -> Seq<(Seq<char>, Seq<char>)> {
    if missing > 0 {
        seq![("Accept-Ranges"@, "bytes"@), ("X-Fung-Missing-Chunks"@, crate::text::decimal(missing))]
    } else {
        seq![("Accept-Ranges"@, "bytes"@)]
    }
}

/// How audio is answered: whole with `200` when no range was asked for,
/// the inclusive range with `206` and its `Content-Range`, or `416` with
/// `bytes */total` when the range cannot be served.
pub open spec fn serve_spec(
    bytes: Seq<u8>,
    mime: Seq<char>,
    missing: nat,
    range: Option<Seq<char>>,
) -> ResponseView {
    let total = bytes.len();
    let base = audio_headers(missing);
    match range {
        None => ResponseView {
            status: "200 OK"@,
            content_type: mime,
            body: bytes,
            extra_headers: base,
        },
        Some(h) => match parse_range_spec(h, total) {
            Some((s, e)) => ResponseView {
                status: "206 Partial Content"@,
                content_type: mime,
                body: bytes.subrange(s as int, e as int + 1),
                extra_headers: base.push(
                    (
                        "Content-Range"@,
                        "bytes "@ + crate::text::decimal(s) + "-"@ + crate::text::decimal(e)
                            + "/"@ + crate::text::decimal(total),
                    ),
                ),
            },
            None => ResponseView {
                status: "416 Range Not Satisfiable"@,
                content_type: "application/json"@,
                body: encode_utf8(RANGE_NOT_SATISFIABLE_BODY@),
                extra_headers: base.push(("Content-Range"@, "bytes */"@ + crate::text::decimal(total))),
            },
        },
    }
}

fn pair(name: &str, value: String) -> (out: (String, String))
    ensures
        out.0@ == name@,
        out.1@ == value@,
{
    (crate::text::copy_string(name), value)
}

/// Answers with the audio, or the part of it a `Range` header asks for.
pub fn serve_bytes(audio: Audio, range: Option<&str>) -> (res: Response)
    ensures
        res@ == serve_spec(
            audio.bytes@,
            audio.mime@,
            audio.missing_chunks as nat,
            match range {
                Some(h) => Some(h@),
                None => None,
            },
        ),
{
    let total = audio.bytes.len();
    let mut extra_headers: Vec<(String, String)> = Vec::new();
    extra_headers.push(pair("Accept-Ranges", crate::text::copy_string("bytes")));
    if audio.missing_chunks > 0 {
        let mut n = String::new();
        crate::text::push_u64(&mut n, audio.missing_chunks as u64);
        extra_headers.push(pair("X-Fung-Missing-Chunks", n));
    }
    assert(pairs_view(extra_headers@) =~= audio_headers(audio.missing_chunks as nat));
    match range {
        None => Response {
            status: "200 OK",
            content_type: audio.mime,
            body: audio.bytes,
            extra_headers,
        },
        Some(header) => match parse_range(header, total) {
            Some((start, end)) => {
                let mut text = crate::text::copy_string("bytes ");
                crate::text::push_u64(&mut text, start as u64);
                crate::text::push_text(&mut text, "-");
                crate::text::push_u64(&mut text, end as u64);
                crate::text::push_text(&mut text, "/");
                crate::text::push_u64(&mut text, total as u64);
                let ghost before = extra_headers@;
                extra_headers.push(pair("Content-Range", text));
                assert(pairs_view(extra_headers@) =~= pairs_view(before).push(
                    ("Content-Range"@, text@),
                ));
                let part = vstd::slice::slice_subrange(audio.bytes.as_slice(), start, end + 1);
                Response {
                    status: "206 Partial Content",
                    content_type: audio.mime,
                    body: vstd::slice::slice_to_vec(part),
                    extra_headers,
                }
            },
            None => {
                let mut text = crate::text::copy_string("bytes */");
                crate::text::push_u64(&mut text, total as u64);
                let ghost before = extra_headers@;
                extra_headers.push(pair("Content-Range", text));
                assert(pairs_view(extra_headers@) =~= pairs_view(before).push(
                    ("Content-Range"@, text@),
                ));
                Response {
                    status: "416 Range Not Satisfiable",
                    content_type: "application/json",
                    body: vstd::slice::slice_to_vec(RANGE_NOT_SATISFIABLE_BODY.as_bytes()),
                    extra_headers,
                }
            },
        },
    }
}

// ---------------------------------------------------------------------------
// Connection details
// ---------------------------------------------------------------------------

/// The opt-in LAN listener: the address it bound.
#[derive(Debug)]
pub struct LanShare {
    pub bind: String,
}

/// A running listener: where it bound, the per-launch token, and the LAN
/// listener when sharing is on.
#[derive(Debug)]
pub struct LocalApiControl {
    pub bind: String,
    pub token: String,
    pub lan: Option<LanShare>,
}

/// What the desktop UI is told about the listener.
#[derive(Debug)]
pub struct LocalApiInfo {
    pub bind: String,
    pub token: String,
    pub connect_url: String,
    pub lan_enabled: bool,
    pub lan_bind: Option<String>,
    pub lan_url: Option<String>,
}

/// `http://{bind}/#{token}`.
pub open spec fn connect_url_spec(bind: Seq<char>, token: Seq<char>) -> Seq<char> {
    "http://"@ + bind + "/#"@ + token
}

/// The LAN address to scan: the machine's LAN IP with the LAN listener's
/// port, and the token in the fragment. `None` while sharing is off, when
/// the LAN bind has no port, or when no LAN address is known.
pub open spec fn lan_url_spec(
    lan_bind: Option<Seq<char>>,
    lan_ip: Option<Seq<char>>,
    token: Seq<char>,
) -> Option<Seq<char>> {
    match (lan_bind, lan_ip) {
        (Some(b), Some(ip)) => match crate::text::rsplit_once_spec(b, ':') {
            Some((_, port)) => Some("http://"@ + ip + ":"@ + port + "/#"@ + token),
            None => None,
        },
        _ => None,
    }
}

impl LocalApiControl {
    pub open spec fn lan_bind_view(&self) -> Option<Seq<char>> {
        match self.lan {
            Some(l) => Some(l.bind@),
            None => None,
        }
    }

    /// The one string a user pastes into the web dashboard. The token rides
    /// in the fragment so it never appears in a request line.
    pub fn connect_url(&self) -> (res: String)
        ensures
            res@ == connect_url_spec(self.bind@, self.token@),
    {
        let mut out = crate::text::copy_string("http://");
        crate::text::push_text(&mut out, self.bind.as_str());
        crate::text::push_text(&mut out, "/#");
        crate::text::push_text(&mut out, self.token.as_str());
        out
    }

    /// What the phone scans, given this machine's LAN address.
    pub fn lan_url(&self, lan_ip: Option<&str>) -> (res: Option<String>)
        ensures
            match lan_url_spec(
                self.lan_bind_view(),
                match lan_ip {
                    Some(ip) => Some(ip@),
                    None => None,
                },
                self.token@,
            ) {
                Some(u) => res matches Some(r) && r@ == u,
                None => res is None,
            },
    {
        let lan = match &self.lan {
            Some(lan) => lan,
            None => return None,
        };
        let ip = match lan_ip {
            Some(ip) => ip,
            None => return None,
        };
        let bind = chars_of(lan.bind.as_str());
        match crate::text::rsplit_once(&bind, ':') {
            Some((_, port)) => {
                let mut out = crate::text::copy_string("http://");
                crate::text::push_text(&mut out, ip);
                crate::text::push_text(&mut out, ":");
                let port_text = string_of(&port);
                crate::text::push_text(&mut out, port_text.as_str());
                crate::text::push_text(&mut out, "/#");
                crate::text::push_text(&mut out, self.token.as_str());
                Some(out)
            },
            None => None,
        }
    }
}

/// The listener's details for the UI.
pub fn info(control: &LocalApiControl, lan_ip: Option<&str>) -> (res: LocalApiInfo)
    ensures
        res.bind@ == control.bind@,
        res.token@ == control.token@,
        res.connect_url@ == connect_url_spec(control.bind@, control.token@),
        res.lan_enabled == control.lan is Some,
        match control.lan_bind_view() {
            Some(b) => res.lan_bind matches Some(x) && x@ == b,
            None => res.lan_bind is None,
        },
        match lan_url_spec(
            control.lan_bind_view(),
            match lan_ip {
                Some(ip) => Some(ip@),
                None => None,
            },
            control.token@,
        ) {
            Some(u) => res.lan_url matches Some(r) && r@ == u,
            None => res.lan_url is None,
        },
{
    LocalApiInfo {
        bind: control.bind.clone(),
        token: control.token.clone(),
        connect_url: control.connect_url(),
        lan_enabled: control.lan.is_some(),
        lan_bind: match &control.lan {
            Some(lan) => Some(lan.bind.clone()),
            None => None,
        },
        lan_url: control.lan_url(lan_ip),
    }
}

// ---------------------------------------------------------------------------
// Upload metadata
// ---------------------------------------------------------------------------

/// The media type of a `Content-Type` value: what precedes the first `;`,
/// trimmed and lower-cased.
pub open spec fn media_type(content_type: Option<Seq<char>>) -> Seq<char> {
    let v = match content_type {
        Some(c) => c,
        None => seq![],
    };
    let first = match split_once_spec(v, ';') {
        Some((a, _)) => a,
        None => v,
    };
    lower_spec(trim_spec(first))
}

/// The stored file's extension for an uploaded media type.
pub open spec fn extension_for(m: Seq<char>) -> Seq<char> {
    if m == "audio/webm"@ || m == "video/webm"@ {
        "webm"@
    } else if m == "audio/mp4"@ || m == "audio/x-m4a"@ || m == "audio/aac"@ {
        "m4a"@
    } else if m == "audio/ogg"@ || m == "audio/opus"@ {
        "ogg"@
    } else if m == "audio/wav"@ || m == "audio/x-wav"@ || m == "audio/wave"@ {
        "wav"@
    } else if m == "audio/mpeg"@ || m == "audio/mp3"@ {
        "mp3"@
    } else if m == "audio/flac"@ {
        "flac"@
    } else {
        "bin"@
    }
}

/// Why an upload is refused before anything is written: the listener has no
/// transcription runtime (`503`, `IMPORT_UNAVAILABLE`), or the body is empty
/// (`400`, `EMPTY_BODY`); checked in that order. Gives the status and the
/// error code.
pub fn upload_refusal(has_runtime: bool, body_len: usize) -> (res: Option<(&'static str, &'static str)>)
    ensures
        !has_runtime ==> (res matches Some((s, c)) && s@ == "503 Service Unavailable"@ && c@
            == "IMPORT_UNAVAILABLE"@),
        has_runtime && body_len == 0 ==> (res matches Some((s, c)) && s@ == "400 Bad Request"@ && c@
            == "EMPTY_BODY"@),
        has_runtime && body_len > 0 ==> res is None,
{
    if !has_runtime {
        Some(("503 Service Unavailable", "IMPORT_UNAVAILABLE"))
    } else if body_len == 0 {
        Some(("400 Bad Request", "EMPTY_BODY"))
    } else {
        None
    }
}

/// Where an uploaded body is kept: `{root}/imports/web/{recording}.{ext}`.
pub fn upload_file_path(
    style: crate::paths::PathStyle,
    output_root: &str,
    recording_id: &str,
    extension: &str,
) -> (res: String)
    ensures
        res@ == crate::paths::join_spec(
            style,
            crate::paths::join_spec(style, crate::paths::join_spec(style, output_root@, "imports"@), "web"@),
            recording_id@ + "."@ + extension@,
        ),
{
    let imports = crate::paths::join(style, output_root, "imports");
    let web = crate::paths::join(style, imports.as_str(), "web");
    let mut name = crate::text::copy_string(recording_id);
    crate::text::push_text(&mut name, ".");
    crate::text::push_text(&mut name, extension);
    crate::paths::join(style, web.as_str(), name.as_str())
}

/// File extension for an uploaded body, from its `Content-Type`. The worker
/// decodes by content, not by name, so an unknown type still transcribes;
/// the extension only keeps the stored file recognisable.
pub fn upload_extension(content_type: Option<&str>) -> (res: &'static str)
    ensures
        res@ == extension_for(
            media_type(
                match content_type {
                    Some(c) => Some(c@),
                    None => None,
                },
            ),
        ),
{
    let v = match content_type {
        Some(c) => chars_of(c),
        None => Vec::new(),
    };
    let first = match split_once(&v, ';') {
        Some((a, _)) => a,
        None => v,
    };
    let m = to_ascii_lower(&trim(&first));
    if crate::text::text_is(&m, "audio/webm") || crate::text::text_is(&m, "video/webm") {
        "webm"
    } else if crate::text::text_is(&m, "audio/mp4") || crate::text::text_is(&m, "audio/x-m4a")
        || crate::text::text_is(&m, "audio/aac") {
        "m4a"
    } else if crate::text::text_is(&m, "audio/ogg") || crate::text::text_is(&m, "audio/opus") {
        "ogg"
    } else if crate::text::text_is(&m, "audio/wav") || crate::text::text_is(&m, "audio/x-wav")
        || crate::text::text_is(&m, "audio/wave") {
        "wav"
    } else if crate::text::text_is(&m, "audio/mpeg") || crate::text::text_is(&m, "audio/mp3") {
        "mp3"
    } else if crate::text::text_is(&m, "audio/flac") {
        "flac"
    } else {
        "bin"
    }
}

pub open spec fn is_slash(c: char) -> bool {
    c == '/' || c == '\\'
}

/// What follows the last `/` or `\` of `s` (all of `s` when it has none).
pub open spec fn last_component(s: Seq<char>) -> Seq<char>
    decreases s.len(),
{
    if s.len() == 0 {
        s
    } else if is_slash(s.last()) {
        seq![]
    } else {
        last_component(s.drop_last()).push(s.last())
    }
}

/// The last `/`- or `\`-separated component of a recorded path.
pub fn file_name(path: &str) -> (out: Vec<char>)
    ensures
        out@ == last_component(path@),
{
    let s = chars_of(path);
    let mut i: usize = s.len();
    assert(s@.take(i as int) =~= s@);
    assert(s@.skip(i as int) =~= seq![]);
    while i > 0 && !(s[i - 1] == '/' || s[i - 1] == '\\')
        invariant
            i <= s.len(),
            s@ == path@,
            last_component(s@) == last_component(s@.take(i as int)) + s@.skip(i as int),
        decreases i,
    {
        let ghost t = s@.take(i as int);
        assert(t.drop_last() =~= s@.take(i - 1));
        assert(t.last() == s@[i - 1]);
        assert(last_component(t) + s@.skip(i as int) =~= last_component(s@.take(i - 1))
            + s@.skip(i - 1));
        i -= 1;
    }
    proof {
        let t = s@.take(i as int);
        if i > 0 {
            assert(t.last() == s@[i - 1]);
        }
        assert(last_component(t) =~= seq![]);
        assert(seq![] + s@.skip(i as int) =~= s@.skip(i as int));
    }
    let out = crate::text::slice_chars(&s, i, s.len());
    assert(out@ =~= s@.skip(i as int));
    out
}

/// Characters kept in a project name taken from a file name.
pub open spec fn name_char(c: char) -> bool {
    crate::text::alphanumeric(c) || c == ' ' || c == '-' || c == '_' || c == '.'
}

/// The characters of `s` that may stand in a project name, in order.
pub open spec fn name_chars(s: Seq<char>) -> Seq<char>
    decreases s.len(),
{
    if s.len() == 0 {
        seq![]
    } else if name_char(s.last()) {
        name_chars(s.drop_last()).push(s.last())
    } else {
        name_chars(s.drop_last())
    }
}

/// At most the first `n` characters of `s`.
pub open spec fn first_chars(s: Seq<char>, n: nat) -> Seq<char> {
    if s.len() <= n {
        s
    } else {
        s.take(n as int)
    }
}

/// The project name an uploaded file name gives: its last path component
/// without the extension, only letters, digits, spaces, `-`, `_` and `.`,
/// at most 80 of them, trimmed. `None` when nothing is left.
pub open spec fn upload_stem(filename: Option<Seq<char>>) -> Option<Seq<char>> {
    match filename {
        None => None,
        Some(name) => {
            let base = last_component(name);
            let stem = match crate::text::rsplit_once_spec(base, '.') {
                Some((st, _)) => st,
                None => base,
            };
            let kept = trim_spec(first_chars(name_chars(stem), 80));
            if kept.len() == 0 {
                None
            } else {
                Some(kept)
            }
        },
    }
}

fn keep_name_chars(s: &Vec<char>) -> (out: Vec<char>)
    ensures
        out@ == name_chars(s@),
{
    let mut out: Vec<char> = Vec::new();
    let mut i: usize = 0;
    while i < s.len()
        invariant
            i <= s.len(),
            out@ == name_chars(s@.take(i as int)),
        decreases s.len() - i,
    {
        let c = s[i];
        assert(s@.take(i + 1).drop_last() =~= s@.take(i as int));
        assert(s@.take(i + 1).last() == c);
        if crate::text::is_alphanumeric(c) || c == ' ' || c == '-' || c == '_' || c == '.' {
            out.push(c);
        }
        i += 1;
    }
    assert(s@.take(s.len() as int) =~= s@);
    out
}

fn upload_stem_exec(filename: Option<&str>) -> (res: Option<Vec<char>>)
    ensures
        match upload_stem(
            match filename {
                Some(f) => Some(f@),
                None => None,
            },
        ) {
            Some(st) => res matches Some(r) && r@ == st,
            None => res is None,
        },
{
    let name = match filename {
        Some(f) => f,
        None => return None,
    };
    let base = file_name(name);
    let stem = match crate::text::rsplit_once(&base, '.') {
        Some((st, _)) => st,
        None => base,
    };
    let all = keep_name_chars(&stem);
    let limited = if all.len() <= 80 {
        all
    } else {
        crate::text::slice_chars(&all, 0, 80)
    };
    assert(limited@ =~= first_chars(name_chars(stem@), 80));
    let kept = trim(&limited);
    if kept.len() == 0 {
        None
    } else {
        Some(kept)
    }
}

/// The project name for an upload when the clock reads `now`: the cleaned
/// file name, or `Web recording {now}` when there is none.
pub fn upload_project_name_at(filename: Option<&str>, now: &str) -> (res: String)
    ensures
        match upload_stem(
            match filename {
                Some(f) => Some(f@),
                None => None,
            },
        ) {
            Some(st) => res@ == st,
            None => res@ == "Web recording "@ + now@,
        },
{
    match upload_stem_exec(filename) {
        Some(stem) => string_of(&stem),
        None => {
            let mut out = crate::text::copy_string("Web recording ");
            crate::text::push_text(&mut out, now);
            out
        },
    }
}

/// A display name for the project an upload lands in, from the optional
/// `X-Fung-Filename` header; a dated default when the name leaves nothing.
pub fn upload_project_name(filename: Option<&str>) -> (res: String)
    ensures
        match upload_stem(
            match filename {
                Some(f) => Some(f@),
                None => None,
            },
        ) {
            Some(st) => res@ == st,
            None => crate::text::starts_with(res@, "Web recording "@),
        },
{
    let stamp = crate::now();
    let out = upload_project_name_at(filename, stamp.as_str());
    proof {
        if upload_stem(
            match filename {
                Some(f) => Some(f@),
                None => None,
            },
        ) is None {
            assert(("Web recording "@ + stamp@).take("Web recording "@.len() as int)
                =~= "Web recording "@);
        }
    }
    out
}

// ---------------------------------------------------------------------------
// Live-capture slice names
// ---------------------------------------------------------------------------

/// The capture channel a stored chunk path belongs to: `mic-*.wav` and
/// `system-*.wav` slices name theirs; anything else is a whole-file source.
pub open spec fn channel_of_spec(path: Seq<char>) -> Seq<char> {
    let name = last_component(path);
    if crate::text::starts_with(name, "mic-"@) && crate::text::ends_with(name, ".wav"@) {
        "mic"@
    } else if crate::text::starts_with(name, "system-"@) && crate::text::ends_with(name, ".wav"@) {
        "system"@
    } else {
        "file"@
    }
}

/// Desktop live capture writes one WAV per channel per slice as
/// `{channel}-{seq:05}.wav`. Anything that does not follow that naming is a
/// whole-file source (an import), served as-is under the channel `file`.
pub fn channel_of(path: &str) -> (res: &'static str)
    ensures
        res@ == channel_of_spec(path@),
{
    let name = file_name(path);
    let wav = chars_of(".wav");
    let ends_wav = crate::text::has_suffix(&name, &wav);
    if crate::text::has_prefix(&name, &chars_of("mic-")) && ends_wav {
        "mic"
    } else if crate::text::has_prefix(&name, &chars_of("system-")) && ends_wav {
        "system"
    } else {
        "file"
    }
}

/// The per-channel ordinal from `{channel}-{seq:05}.wav`, when present.
pub open spec fn chunk_ordinal_spec(path: Seq<char>) -> Option<nat> {
    let name = last_component(path);
    if !crate::text::ends_with(name, ".wav"@) {
        None
    } else {
        match crate::text::rsplit_once_spec(name.take(name.len() - 4), '-') {
            Some((_, ordinal)) => crate::text::parse_unsigned(ordinal, u32::MAX as nat),
            None => None,
        }
    }
}

pub fn chunk_ordinal(path: &str) -> (res: Option<u32>)
    ensures
        match chunk_ordinal_spec(path@) {
            Some(v) => res == Some(v as u32),
            None => res is None,
        },
{
    let name = file_name(path);
    let wav = chars_of(".wav");
    if !crate::text::has_suffix(&name, &wav) {
        return None;
    }
    assert(wav@.len() == 4) by {
        reveal_strlit(".wav");
    }
    let stem = crate::text::slice_chars(&name, 0, name.len() - 4);
    assert(stem@ =~= name@.take(name@.len() - 4));
    match crate::text::rsplit_once(&stem, '-') {
        Some((_, ordinal)) => match crate::text::parse_u64_upto(&ordinal, u32::MAX as u64) {
            Some(v) => Some(v as u32),
            None => None,
        },
        None => None,
    }
}

proof fn lemma_no_slash_component(s: Seq<char>)
    requires
        forall|k: int| 0 <= k < s.len() ==> !is_slash(#[trigger] s[k]),
    ensures
        last_component(s) == s,
    decreases s.len(),
{
    if s.len() > 0 {
        lemma_no_slash_component(s.drop_last());
        assert(s.drop_last().push(s.last()) =~= s);
    }
}

/// The slices live capture writes, `mic-00001.wav` and `system-00001.wav`
/// and so on, are served under the channel that wrote them and sorted by
/// the number they were written with.
pub proof fn law_capture_slices_are_recognised(seq: nat)
    requires
        seq <= u32::MAX,
    ensures
        channel_of_spec(crate::live_meeting::chunk_file_name_spec("mic"@, seq)) == "mic"@,
        channel_of_spec(crate::live_meeting::chunk_file_name_spec("system"@, seq)) == "system"@,
        chunk_ordinal_spec(crate::live_meeting::chunk_file_name_spec("mic"@, seq)) == Some(seq),
        chunk_ordinal_spec(crate::live_meeting::chunk_file_name_spec("system"@, seq)) == Some(seq),
{
    reveal_strlit("mic");
    reveal_strlit("system");
    reveal_strlit("mic-");
    reveal_strlit("system-");
    reveal_strlit("-");
    reveal_strlit(".wav");
    lemma_capture_slice_name("mic"@, seq);
    lemma_capture_slice_name("system"@, seq);
    assert(crate::live_meeting::chunk_file_name_spec("mic"@, seq).take(4) =~= "mic-"@);
    assert(crate::live_meeting::chunk_file_name_spec("system"@, seq).take(7) =~= "system-"@);
    let sys = crate::live_meeting::chunk_file_name_spec("system"@, seq);
    assert(sys[0] == 's');
    assert(!crate::text::starts_with(sys, "mic-"@)) by {
        if crate::text::starts_with(sys, "mic-"@) {
            assert(sys.take(4)[0] == sys[0]);
        }
    }
}

proof fn lemma_capture_slice_name(channel: Seq<char>, seq: nat)
    requires
        seq <= u32::MAX,
        forall|k: int| 0 <= k < channel.len() ==> !is_slash(#[trigger] channel[k]),
    ensures
        last_component(crate::live_meeting::chunk_file_name_spec(channel, seq))
            == crate::live_meeting::chunk_file_name_spec(channel, seq),
        chunk_ordinal_spec(crate::live_meeting::chunk_file_name_spec(channel, seq)) == Some(seq),
        crate::text::ends_with(crate::live_meeting::chunk_file_name_spec(channel, seq), ".wav"@),
{
    let name = crate::live_meeting::chunk_file_name_spec(channel, seq);
    let digits = crate::live_meeting::padded5(seq);
    crate::live_meeting::law_slice_names_read_back(channel, seq);
    reveal_strlit("-");
    reveal_strlit(".wav");
    assert forall|k: int| 0 <= k < name.len() implies !is_slash(#[trigger] name[k]) by {
        if k < channel.len() {
            assert(name[k] == channel[k]);
        } else if k == channel.len() {
            assert(name[k] == '-');
        } else if k < channel.len() + 1 + digits.len() {
            assert(name[k] == digits[k - channel.len() - 1]);
            crate::live_meeting::lemma_padded5_digits(seq);
            assert(crate::text::is_digit(digits[k - channel.len() - 1]));
        } else {
            assert(name[k] == ".wav"@[k - channel.len() - 1 - digits.len()]);
        }
    }
    lemma_no_slash_component(name);
    assert(name.skip(name.len() - 4) =~= ".wav"@);
}

/// Some path of `paths` is on channel `ch`.
pub open spec fn has_channel(paths: Seq<Seq<char>>, ch: Seq<char>) -> bool {
    exists|i: int| 0 <= i < paths.len() && channel_of_spec(#[trigger] paths[i]) == ch
}

/// The channels present among `paths`, in the order mic, system, file.
pub open spec fn channels_spec(paths: Seq<Seq<char>>) -> Seq<Seq<char>> {
    (if has_channel(paths, "mic"@) {
        seq!["mic"@]
    } else {
        seq![]
    }) + (if has_channel(paths, "system"@) {
        seq!["system"@]
    } else {
        seq![]
    }) + (if has_channel(paths, "file"@) {
        seq!["file"@]
    } else {
        seq![]
    })
}

fn any_on_channel(paths: &[String], ch: &str) -> (res: bool)
    ensures
        res == has_channel(strings_view(paths@), ch@),
{
    let ghost ps = strings_view(paths@);
    let mut i: usize = 0;
    while i < paths.len()
        invariant
            i <= paths.len(),
            ps == strings_view(paths@),
            forall|k: int| 0 <= k < i ==> channel_of_spec(#[trigger] ps[k]) != ch@,
        decreases paths.len() - i,
    {
        assert(ps[i as int] == paths@[i as int]@);
        if str_eq(channel_of(paths[i].as_str()), ch) {
            return true;
        }
        i += 1;
    }
    false
}

/// The channels a recording's chunk paths offer, in the order mic, system,
/// file.
pub fn channels_of(paths: &[String]) -> (out: Vec<String>)
    ensures
        strings_view(out@) == channels_spec(strings_view(paths@)),
{
    let mut out: Vec<String> = Vec::new();
    if any_on_channel(paths, "mic") {
        out.push(crate::text::copy_string("mic"));
    }
    let ghost a = strings_view(out@);
    if any_on_channel(paths, "system") {
        out.push(crate::text::copy_string("system"));
    }
    let ghost b = strings_view(out@);
    if any_on_channel(paths, "file") {
        out.push(crate::text::copy_string("file"));
    }
    assert(strings_view(out@) =~= channels_spec(strings_view(paths@)));
    out
}

// ---------------------------------------------------------------------------
// The recordings list
// ---------------------------------------------------------------------------

/// A project row as read.
#[derive(Debug)]
pub struct ProjectRow {
    pub id: Option<String>,
    pub name: Option<String>,
}

/// A ledger slice row as read: its recording and its file.
#[derive(Debug)]
pub struct SlicePathRow {
    pub recording_id: Option<String>,
    pub file_path: Option<String>,
}

/// A recording row as read. The duration column is given as read:
/// `duration_number` when it holds an integer, `duration_text` when it
/// holds text.
#[derive(Debug)]
pub struct RecordingRow {
    pub id: Option<String>,
    pub project_id: Option<String>,
    pub source: Option<String>,
    pub status: Option<String>,
    pub duration_number: Option<i64>,
    pub duration_text: Option<String>,
    pub created_at: Option<String>,
    pub language: Option<String>,
}

/// One entry of the recordings list.
#[derive(Debug)]
pub struct RecordingSummary {
    pub id: String,
    pub project_id: String,
    pub project_name: Option<String>,
    pub source: Option<String>,
    pub status: Option<String>,
    pub duration_ms: i64,
    pub created_at: Option<String>,
    pub language: Option<String>,
    pub channels: Vec<String>,
    pub chunk_count: usize,
}

pub struct SummaryView {
    pub id: Seq<char>,
    pub project_id: Seq<char>,
    pub project_name: Option<Seq<char>>,
    pub source: Option<Seq<char>>,
    pub status: Option<Seq<char>>,
    pub duration_ms: i64,
    pub created_at: Option<Seq<char>>,
    pub language: Option<Seq<char>>,
    pub channels: Seq<Seq<char>>,
    pub chunk_count: nat,
}

impl View for RecordingSummary {
    type V = SummaryView;

    open spec fn view(&self) -> SummaryView {
        SummaryView {
            id: self.id@,
            project_id: self.project_id@,
            project_name: opt_chars(self.project_name),
            source: opt_chars(self.source),
            status: opt_chars(self.status),
            duration_ms: self.duration_ms,
            created_at: opt_chars(self.created_at),
            language: opt_chars(self.language),
            channels: strings_view(self.channels@),
            chunk_count: self.chunk_count as nat,
        }
    }
}

pub open spec fn summaries_view(v: Seq<RecordingSummary>) -> Seq<SummaryView> {
    v.map_values(|r: RecordingSummary| r@)
}

/// Project names by id, in row order; a later row for an id wins.
pub open spec fn project_names(ps: Seq<ProjectRow>) -> Seq<(Seq<char>, Seq<char>)>
    decreases ps.len(),
{
    if ps.len() == 0 {
        seq![]
    } else {
        let prev = project_names(ps.drop_last());
        match (ps.last().id, ps.last().name) {
            (Some(i), Some(n)) => prev.push((i@, n@)),
            _ => prev,
        }
    }
}

/// The slice files of a recording, in row order.
pub open spec fn recording_paths(cs: Seq<SlicePathRow>, id: Seq<char>) -> Seq<Seq<char>>
    decreases cs.len(),
{
    if cs.len() == 0 {
        seq![]
    } else {
        let prev = recording_paths(cs.drop_last(), id);
        match (cs.last().recording_id, cs.last().file_path) {
            (Some(r), Some(f)) => if r@ == id {
                prev.push(f@)
            } else {
                prev
            },
            _ => prev,
        }
    }
}

/// The duration of a recording row, `0` when it cannot be read.
pub open spec fn row_duration(r: RecordingRow) -> i64 {
    match r.duration_number {
        Some(n) => n,
        None => match r.duration_text {
            Some(t) => match crate::text::parse_i64_spec(t@) {
                Some(v) => v as i64,
                None => 0,
            },
            None => 0,
        },
    }
}

/// `a` sorts after `b`: a missing time sorts first, times as text.
pub open spec fn created_after(a: Option<String>, b: Option<String>) -> bool {
    match (a, b) {
        (Some(x), Some(y)) => crate::text::chars_lt(y@, x@),
        (Some(_), None) => true,
        _ => false,
    }
}

/// Inserts `x` after every recording not older than it.
pub open spec fn insert_newest(s: Seq<RecordingRow>, x: RecordingRow) -> Seq<RecordingRow>
    decreases s.len(),
{
    if s.len() == 0 {
        seq![x]
    } else if !created_after(x.created_at, s.last().created_at) {
        s.push(x)
    } else {
        insert_newest(s.drop_last(), x).push(s.last())
    }
}

/// Newest first, by `created_at`; equal times keep their order.
pub open spec fn newest_first(s: Seq<RecordingRow>) -> Seq<RecordingRow>
    decreases s.len(),
{
    if s.len() == 0 {
        seq![]
    } else {
        insert_newest(newest_first(s.drop_last()), s.last())
    }
}

/// The entry of a recording row that has an id.
pub open spec fn summary_of(ps: Seq<ProjectRow>, cs: Seq<SlicePathRow>, r: RecordingRow) -> SummaryView {
    let id = r.id->0@;
    let project_id = match r.project_id {
        Some(p) => p@,
        None => seq![],
    };
    let paths = recording_paths(cs, id);
    SummaryView {
        id,
        project_id,
        project_name: lookup(project_names(ps), project_id),
        source: opt_chars(r.source),
        status: opt_chars(r.status),
        duration_ms: row_duration(r),
        created_at: opt_chars(r.created_at),
        language: opt_chars(r.language),
        channels: channels_spec(paths),
        chunk_count: paths.len(),
    }
}

/// The entries of the rows that have an id, in order.
pub open spec fn summaries_of(ps: Seq<ProjectRow>, cs: Seq<SlicePathRow>, rs: Seq<RecordingRow>) -> Seq<
    SummaryView,
>
    decreases rs.len(),
{
    if rs.len() == 0 {
        seq![]
    } else {
        let prev = summaries_of(ps, cs, rs.drop_last());
        if rs.last().id is Some {
            prev.push(summary_of(ps, cs, rs.last()))
        } else {
            prev
        }
    }
}

fn clone_opt(o: &Option<String>) -> (out: Option<String>)
    ensures
        out == *o,
{
    match o {
        Some(s) => Some(s.clone()),
        None => None,
    }
}

fn clone_recording_row(r: &RecordingRow) -> (out: RecordingRow)
    ensures
        out == *r,
{
    RecordingRow {
        id: clone_opt(&r.id),
        project_id: clone_opt(&r.project_id),
        source: clone_opt(&r.source),
        status: clone_opt(&r.status),
        duration_number: r.duration_number,
        duration_text: clone_opt(&r.duration_text),
        created_at: clone_opt(&r.created_at),
        language: clone_opt(&r.language),
    }
}

fn created_after_exec(a: &Option<String>, b: &Option<String>) -> (res: bool)
    ensures
        res == created_after(*a, *b),
{
    match (a, b) {
        (Some(x), Some(y)) => crate::text::str_lt(y.as_str(), x.as_str()),
        (Some(_), None) => true,
        _ => false,
    }
}

proof fn lemma_insert_newest_at(s: Seq<RecordingRow>, x: RecordingRow, i: int)
    requires
        0 <= i <= s.len(),
        i == 0 || !created_after(x.created_at, s[i - 1].created_at),
        forall|k: int| i <= k < s.len() ==> created_after(x.created_at, (#[trigger] s[k]).created_at),
    ensures
        insert_newest(s, x) == s.insert(i, x),
    decreases s.len(),
{
    if s.len() == 0 {
        assert(s.insert(i, x) =~= seq![x]);
    } else if i == s.len() {
        assert(s.insert(i, x) =~= s.push(x));
    } else {
        let p = s.drop_last();
        assert(created_after(x.created_at, s[s.len() - 1].created_at));
        assert forall|k: int| i <= k < p.len() implies created_after(
            x.created_at,
            (#[trigger] p[k]).created_at,
        ) by {
            assert(p[k] == s[k]);
        }
        if i > 0 {
            assert(p[i - 1] == s[i - 1]);
        }
        lemma_insert_newest_at(p, x, i);
        assert(p.insert(i, x).push(s.last()) =~= s.insert(i, x));
    }
}

fn insert_newest_exec(v: &mut Vec<RecordingRow>, x: RecordingRow)
    ensures
        final(v)@ == insert_newest(old(v)@, x),
{
    let ghost s = v@;
    let mut i: usize = v.len();
    while i > 0 && created_after_exec(&x.created_at, &v[i - 1].created_at)
        invariant
            i <= v.len(),
            s == v@,
            forall|k: int| i <= k < s.len() ==> created_after(x.created_at, (#[trigger] s[k]).created_at),
        decreases i,
    {
        i -= 1;
    }
    proof {
        lemma_insert_newest_at(s, x, i as int);
    }
    v.insert(i, x);
}

fn project_name_of(projects: &Vec<ProjectRow>, id: &str) -> (res: Option<String>)
    ensures
        opt_chars(res) == lookup(project_names(projects@), id@),
{
    let mut i: usize = projects.len();
    assert(projects@.take(i as int) =~= projects@);
    while i > 0
        invariant
            i <= projects.len(),
            lookup(project_names(projects@), id@) == lookup(
                project_names(projects@.take(i as int)),
                id@,
            ),
        decreases i,
    {
        let ghost t = projects@.take(i as int);
        assert(t.drop_last() =~= projects@.take(i - 1));
        assert(t.last() == projects@[i - 1]);
        match (&projects[i - 1].id, &projects[i - 1].name) {
            (Some(pid), Some(name)) => {
                let ghost prev = project_names(projects@.take(i - 1));
                assert(project_names(t) == prev.push((pid@, name@)));
                assert(prev.push((pid@, name@)).drop_last() =~= prev);
                if str_eq(pid.as_str(), id) {
                    return Some(name.clone());
                }
            },
            _ => {},
        }
        i -= 1;
    }
    None
}

fn paths_of(chunks: &Vec<SlicePathRow>, id: &str) -> (res: Vec<String>)
    ensures
        strings_view(res@) == recording_paths(chunks@, id@),
{
    let mut out: Vec<String> = Vec::new();
    let mut i: usize = 0;
    while i < chunks.len()
        invariant
            i <= chunks.len(),
            strings_view(out@) == recording_paths(chunks@.take(i as int), id@),
        decreases chunks.len() - i,
    {
        let ghost t = chunks@.take(i + 1);
        assert(t.drop_last() =~= chunks@.take(i as int));
        assert(t.last() == chunks@[i as int]);
        match (&chunks[i].recording_id, &chunks[i].file_path) {
            (Some(r), Some(f)) => {
                if str_eq(r.as_str(), id) {
                    let ghost before = out@;
                    out.push(f.clone());
                    assert(strings_view(out@) =~= strings_view(before).push(f@));
                }
            },
            _ => {},
        }
        i += 1;
    }
    assert(chunks@.take(chunks.len() as int) =~= chunks@);
    out
}

fn duration_of(r: &RecordingRow) -> (res: i64)
    ensures
        res == row_duration(*r),
{
    match r.duration_number {
        Some(n) => n,
        None => match &r.duration_text {
            Some(t) => {
                let tc = chars_of(t.as_str());
                match crate::text::parse_i64(&tc) {
                    Some(v) => v,
                    None => 0,
                }
            },
            None => 0,
        },
    }
}

proof fn lemma_after_asymmetric(a: Option<String>, b: Option<String>)
    ensures
        created_after(a, b) ==> !created_after(b, a),
{
    if let (Some(x), Some(y)) = (a, b) {
        crate::text::lemma_chars_lt_asymmetric(y@, x@);
    }
}

proof fn lemma_not_after_transitive(a: Option<String>, b: Option<String>, c: Option<String>)
    requires
        !created_after(a, b),
        !created_after(b, c),
    ensures
        !created_after(a, c),
{
    if let (Some(x), Some(y), Some(z)) = (a, b, c) {
        if crate::text::chars_lt(z@, x@) {
            if x@ == y@ {
            } else {
                crate::text::lemma_chars_lt_total(x@, y@);
                crate::text::lemma_chars_lt_transitive(z@, x@, y@);
            }
        }
    }
}

/// No recording in `s` comes before a newer one.
pub open spec fn is_newest_first(s: Seq<RecordingRow>) -> bool {
    forall|i: int, j: int|
        0 <= i < j < s.len() ==> !created_after(s[j].created_at, s[i].created_at)
}

proof fn lemma_insert_newest_bounded(s: Seq<RecordingRow>, x: RecordingRow, b: Option<String>)
    requires
        forall|k: int| 0 <= k < s.len() ==> !created_after(b, (#[trigger] s[k]).created_at),
        !created_after(b, x.created_at),
    ensures
        forall|k: int|
            0 <= k < insert_newest(s, x).len() ==> !created_after(
                b,
                (#[trigger] insert_newest(s, x)[k]).created_at,
            ),
    decreases s.len(),
{
    if s.len() > 0 && created_after(x.created_at, s.last().created_at) {
        let p = s.drop_last();
        assert forall|k: int| 0 <= k < p.len() implies !created_after(
            b,
            (#[trigger] p[k]).created_at,
        ) by {
            assert(p[k] == s[k]);
        }
        lemma_insert_newest_bounded(p, x, b);
        let q = insert_newest(p, x);
        assert forall|k: int| 0 <= k < q.len() + 1 implies !created_after(
            b,
            (#[trigger] q.push(s.last())[k]).created_at,
        ) by {
            if k < q.len() {
                assert(q.push(s.last())[k] == q[k]);
            }
        }
    }
}

proof fn lemma_insert_newest_sorted(s: Seq<RecordingRow>, x: RecordingRow)
    requires
        is_newest_first(s),
    ensures
        is_newest_first(insert_newest(s, x)),
    decreases s.len(),
{
    if s.len() > 0 {
        let last = s.last();
        if !created_after(x.created_at, last.created_at) {
            let r = s.push(x);
            assert forall|i: int, j: int| 0 <= i < j < r.len() implies !created_after(
                r[j].created_at,
                r[i].created_at,
            ) by {
                if j == s.len() {
                    if i < s.len() - 1 {
                        lemma_not_after_transitive(x.created_at, last.created_at, s[i].created_at);
                    }
                }
            }
        } else {
            let p = s.drop_last();
            assert(is_newest_first(p)) by {
                assert forall|i: int, j: int| 0 <= i < j < p.len() implies !created_after(
                    p[j].created_at,
                    p[i].created_at,
                ) by {
                    assert(p[i] == s[i] && p[j] == s[j]);
                }
            }
            lemma_insert_newest_sorted(p, x);
            lemma_after_asymmetric(x.created_at, last.created_at);
            assert forall|k: int| 0 <= k < p.len() implies !created_after(
                last.created_at,
                (#[trigger] p[k]).created_at,
            ) by {
                assert(p[k] == s[k]);
            }
            lemma_insert_newest_bounded(p, x, last.created_at);
            let q = insert_newest(p, x);
            let r = q.push(last);
            assert forall|i: int, j: int| 0 <= i < j < r.len() implies !created_after(
                r[j].created_at,
                r[i].created_at,
            ) by {
                if j == q.len() {
                    assert(r[i] == q[i]);
                } else {
                    assert(r[i] == q[i] && r[j] == q[j]);
                }
            }
        }
    }
}

/// The recordings list runs newest first: no recording is listed before
/// one created later (times compare as text, which for RFC 3339 times is
/// time order; a recording without a time comes last).
pub proof fn law_recordings_are_newest_first(s: Seq<RecordingRow>)
    ensures
        is_newest_first(newest_first(s)),
    decreases s.len(),
{
    if s.len() > 0 {
        law_recordings_are_newest_first(s.drop_last());
        lemma_insert_newest_sorted(newest_first(s.drop_last()), s.last());
    }
}

/// The recordings list: newest first, each with its project's name, the
/// channels its slices offer and how many slices it has; rows without an
/// id are left out.
pub fn summarize_recordings(
    projects: &Vec<ProjectRow>,
    chunks: &Vec<SlicePathRow>,
    recordings: &Vec<RecordingRow>,
) -> (res: Vec<RecordingSummary>)
    ensures
        summaries_view(res@) == summaries_of(projects@, chunks@, newest_first(recordings@)),
{
    let mut sorted: Vec<RecordingRow> = Vec::new();
    let mut i: usize = 0;
    while i < recordings.len()
        invariant
            i <= recordings.len(),
            sorted@ == newest_first(recordings@.take(i as int)),
        decreases recordings.len() - i,
    {
        let ghost t = recordings@.take(i + 1);
        assert(t.drop_last() =~= recordings@.take(i as int));
        assert(t.last() == recordings@[i as int]);
        insert_newest_exec(&mut sorted, clone_recording_row(&recordings[i]));
        i += 1;
    }
    assert(recordings@.take(recordings.len() as int) =~= recordings@);
    let mut out: Vec<RecordingSummary> = Vec::new();
    let mut j: usize = 0;
    while j < sorted.len()
        invariant
            j <= sorted.len(),
            summaries_view(out@) == summaries_of(projects@, chunks@, sorted@.take(j as int)),
        decreases sorted.len() - j,
    {
        let ghost t = sorted@.take(j + 1);
        assert(t.drop_last() =~= sorted@.take(j as int));
        assert(t.last() == sorted@[j as int]);
        let r = &sorted[j];
        if let Some(id) = &r.id {
            let project_id = match &r.project_id {
                Some(p) => p.clone(),
                None => String::new(),
            };
            assert(project_id@ == match r.project_id {
                Some(p) => p@,
                None => Seq::<char>::empty(),
            });
            let paths = paths_of(chunks, id.as_str());
            let summary = RecordingSummary {
                id: id.clone(),
                project_name: project_name_of(projects, project_id.as_str()),
                project_id,
                source: clone_opt(&r.source),
                status: clone_opt(&r.status),
                duration_ms: duration_of(r),
                created_at: clone_opt(&r.created_at),
                language: clone_opt(&r.language),
                channels: channels_of(paths.as_slice()),
                chunk_count: paths.len(),
            };
            let ghost before = summaries_view(out@);
            let ghost sv = summary@;
            out.push(summary);
            assert(summaries_view(out@) =~= before.push(sv));
            assert(sv == summary_of(projects@, chunks@, sorted@[j as int]));
        }
        j += 1;
    }
    assert(sorted@.take(sorted.len() as int) =~= sorted@);
    out
}

/// The MIME type for a file by its extension, compared without case.
pub open spec fn mime_for_extension(ext: Option<Seq<char>>) -> Seq<char> {
    match ext {
        Some(e) => {
            let e = lower_spec(e);
            if e == "wav"@ {
                "audio/wav"@
            } else if e == "m4a"@ || e == "mp4"@ || e == "aac"@ {
                "audio/mp4"@
            } else if e == "webm"@ {
                "audio/webm"@
            } else if e == "mp3"@ {
                "audio/mpeg"@
            } else if e == "ogg"@ || e == "opus"@ {
                "audio/ogg"@
            } else if e == "flac"@ {
                "audio/flac"@
            } else {
                "application/octet-stream"@
            }
        },
        None => "application/octet-stream"@,
    }
}

/// The MIME type to serve a whole file under.
pub fn mime_for(style: crate::paths::PathStyle, path: &str) -> (res: &'static str)
    ensures
        res@ == mime_for_extension(crate::paths::extension_spec(style, path@)),
{
    let e = match crate::paths::extension(style, path) {
        Some(e) => to_ascii_lower(&e),
        None => return "application/octet-stream",
    };
    if crate::text::text_is(&e, "wav") {
        "audio/wav"
    } else if crate::text::text_is(&e, "m4a") || crate::text::text_is(&e, "mp4")
        || crate::text::text_is(&e, "aac") {
        "audio/mp4"
    } else if crate::text::text_is(&e, "webm") {
        "audio/webm"
    } else if crate::text::text_is(&e, "mp3") {
        "audio/mpeg"
    } else if crate::text::text_is(&e, "ogg") || crate::text::text_is(&e, "opus") {
        "audio/ogg"
    } else if crate::text::text_is(&e, "flac") {
        "audio/flac"
    } else {
        "application/octet-stream"
    }
}

// ---------------------------------------------------------------------------
// Routing
// ---------------------------------------------------------------------------

/// What a request asks for, once method, path and token have been checked.
#[derive(Debug)]
pub enum Route {
    /// `OPTIONS`: a CORS preflight, answered `204`.
    Preflight,
    /// `POST` to anything but the import path: `404`.
    UnknownUpload,
    /// A gated route without the token: `401`.
    Unauthorized,
    /// `POST /recordings/import` with the token.
    Import,
    /// Neither `GET`, `POST` nor `OPTIONS`: `405`.
    MethodNotAllowed,
    /// `/` or `/index.html`: the phone page, served without the token.
    PhonePage,
    /// `/health`, open before a connect URL exists.
    Health,
    /// `/recordings`.
    Recordings,
    /// `/jobs/{id}`.
    Job(String),
    /// `/recordings/{id}/transcript`.
    Transcript(String),
    /// `/recordings/{id}/audio`, with the `channel` query parameter.
    Audio(String, Option<String>),
    /// Any other `GET`: `404` with the list of routes.
    NotFound,
}

pub enum RouteView {
    Preflight,
    UnknownUpload,
    Unauthorized,
    Import,
    MethodNotAllowed,
    PhonePage,
    Health,
    Recordings,
    Job(Seq<char>),
    Transcript(Seq<char>),
    Audio(Seq<char>, Option<Seq<char>>),
    NotFound,
}

impl View for Route {
    type V = RouteView;

    open spec fn view(&self) -> RouteView {
        match self {
            Route::Preflight => RouteView::Preflight,
            Route::UnknownUpload => RouteView::UnknownUpload,
            Route::Unauthorized => RouteView::Unauthorized,
            Route::Import => RouteView::Import,
            Route::MethodNotAllowed => RouteView::MethodNotAllowed,
            Route::PhonePage => RouteView::PhonePage,
            Route::Health => RouteView::Health,
            Route::Recordings => RouteView::Recordings,
            Route::Job(id) => RouteView::Job(id@),
            Route::Transcript(id) => RouteView::Transcript(id@),
            Route::Audio(id, ch) => RouteView::Audio(
                id@,
                match ch {
                    Some(c) => Some(c@),
                    None => None,
                },
            ),
            Route::NotFound => RouteView::NotFound,
        }
    }
}

/// The id between `prefix` and `suffix` in `path`: non-empty and without a
/// `/`.
pub open spec fn path_id(path: Seq<char>, prefix: Seq<char>, suffix: Seq<char>) -> Option<
    Seq<char>,
> {
    if crate::text::starts_with(path, prefix) {
        let rest = path.skip(prefix.len() as int);
        if crate::text::ends_with(rest, suffix) {
            let id = rest.take(rest.len() - suffix.len());
            if id.len() > 0 && !id.contains('/') {
                Some(id)
            } else {
                None
            }
        } else {
            None
        }
    } else {
        None
    }
}

/// How a request is routed. Only `/`, `/index.html` and `/health` answer
/// without the token.
pub open spec fn route_spec(r: RequestView, token: Seq<char>) -> RouteView {
    if r.method == "OPTIONS"@ {
        RouteView::Preflight
    } else if r.method == "POST"@ {
        if r.path != "/recordings/import"@ {
            RouteView::UnknownUpload
        } else if !authorized_spec(r, token) {
            RouteView::Unauthorized
        } else {
            RouteView::Import
        }
    } else if r.method != "GET"@ {
        RouteView::MethodNotAllowed
    } else if r.path == "/"@ || r.path == "/index.html"@ {
        RouteView::PhonePage
    } else if r.path == "/health"@ {
        RouteView::Health
    } else if !authorized_spec(r, token) {
        RouteView::Unauthorized
    } else if r.path == "/recordings"@ {
        RouteView::Recordings
    } else if let Some(id) = path_id(r.path, "/jobs/"@, ""@) {
        RouteView::Job(id)
    } else if let Some(id) = path_id(r.path, "/recordings/"@, "/transcript"@) {
        RouteView::Transcript(id)
    } else if let Some(id) = path_id(r.path, "/recordings/"@, "/audio"@) {
        RouteView::Audio(id, lookup(r.query, "channel"@))
    } else {
        RouteView::NotFound
    }
}

fn path_id_exec(path: &Vec<char>, prefix: &str, suffix: &str) -> (res: Option<String>)
    ensures
        match path_id(path@, prefix@, suffix@) {
            Some(id) => res matches Some(r) && r@ == id,
            None => res is None,
        },
{
    let p = chars_of(prefix);
    if !crate::text::has_prefix(path, &p) {
        return None;
    }
    let rest = crate::text::slice_chars(path, p.len(), path.len());
    assert(rest@ =~= path@.skip(p@.len() as int));
    let sfx = chars_of(suffix);
    if !crate::text::has_suffix(&rest, &sfx) {
        return None;
    }
    let id = crate::text::slice_chars(&rest, 0, rest.len() - sfx.len());
    assert(id@ =~= rest@.take(rest@.len() - sfx@.len()));
    if id.len() > 0 && !crate::text::contains_char(&id, '/') {
        Some(string_of(&id))
    } else {
        None
    }
}

/// Decides what a request is answered with.
pub fn route(request: &Request, token: &str) -> (res: Route)
    ensures
        res@ == route_spec(request@, token@),
{
    if str_eq(request.method.as_str(), "OPTIONS") {
        return Route::Preflight;
    }
    if str_eq(request.method.as_str(), "POST") {
        if !str_eq(request.path.as_str(), "/recordings/import") {
            return Route::UnknownUpload;
        }
        if !authorized(request, token) {
            return Route::Unauthorized;
        }
        return Route::Import;
    }
    if !str_eq(request.method.as_str(), "GET") {
        return Route::MethodNotAllowed;
    }
    if str_eq(request.path.as_str(), "/") || str_eq(request.path.as_str(), "/index.html") {
        return Route::PhonePage;
    }
    if str_eq(request.path.as_str(), "/health") {
        return Route::Health;
    }
    if !authorized(request, token) {
        return Route::Unauthorized;
    }
    if str_eq(request.path.as_str(), "/recordings") {
        return Route::Recordings;
    }
    let path = chars_of(request.path.as_str());
    if let Some(id) = path_id_exec(&path, "/jobs/", "") {
        return Route::Job(id);
    }
    if let Some(id) = path_id_exec(&path, "/recordings/", "/transcript") {
        return Route::Transcript(id);
    }
    if let Some(id) = path_id_exec(&path, "/recordings/", "/audio") {
        let channel = match request.query_value("channel") {
            Some(c) => Some(crate::text::copy_string(c)),
            None => None,
        };
        return Route::Audio(id, channel);
    }
    Route::NotFound
}

/// Only `/`, `/index.html` and `/health` are answered to a `GET` without
/// the token; every other `GET` route needs it.
pub proof fn law_gated_routes_need_the_token(r: RequestView, token: Seq<char>)
    requires
        !authorized_spec(r, token),
    ensures
        match route_spec(r, token) {
            RouteView::Import | RouteView::Recordings | RouteView::Job(_)
            | RouteView::Transcript(_) | RouteView::Audio(_, _) | RouteView::NotFound => false,
            _ => true,
        },
{
}

pub const NOT_FOUND_BODY: &'static str = "{\"error\":\"NOT_FOUND\"}";
pub const AUTH_REQUIRED_BODY: &'static str = "{\"error\":\"AUTH_REQUIRED\"}";
pub const METHOD_NOT_ALLOWED_BODY: &'static str = "{\"error\":\"METHOD_NOT_ALLOWED\"}";
/// The answer to an unknown `GET`: the routes there are.
pub const ROUTE_LIST_BODY: &'static str = "{\"available\":[\"/health\",\"/recordings\",\"/recordings/{id}/audio?channel=mic|system|file\",\"/recordings/{id}/transcript\",\"/jobs/{id}\",\"POST /recordings/import\"],\"error\":\"NOT_FOUND\"}";

/// The fixed answer of a route that needs nothing read: `204` to a
/// preflight, `404` to a `POST` elsewhere than the import path, `401`
/// (`AUTH_REQUIRED`) without the token, `405` to another method, and `404`
/// with the list of routes to an unknown `GET`.
pub open spec fn fixed_response_spec(r: RouteView) -> Option<ResponseView> {
    match r {
        RouteView::Preflight => Some(
            ResponseView {
                status: "204 No Content"@,
                content_type: "text/plain"@,
                body: seq![],
                extra_headers: seq![],
            },
        ),
        RouteView::UnknownUpload => Some(json_view("404 Not Found"@, NOT_FOUND_BODY@)),
        RouteView::Unauthorized => Some(json_view("401 Unauthorized"@, AUTH_REQUIRED_BODY@)),
        RouteView::MethodNotAllowed => Some(
            json_view("405 Method Not Allowed"@, METHOD_NOT_ALLOWED_BODY@),
        ),
        RouteView::NotFound => Some(json_view("404 Not Found"@, ROUTE_LIST_BODY@)),
        _ => None,
    }
}

/// The response of a route whose answer needs nothing read, when it is one.
pub fn fixed_response(route: &Route) -> (res: Option<Response>)
    ensures
        match fixed_response_spec(route@) {
            Some(v) => res matches Some(r) && r@ == v,
            None => res is None,
        },
{
    match route {
        Route::Preflight => {
            let r = Response::empty("204 No Content");
            assert(r@.body =~= seq![]);
            assert(r@.extra_headers =~= seq![]);
            Some(r)
        },
        Route::UnknownUpload => Some(json_response("404 Not Found", NOT_FOUND_BODY)),
        Route::Unauthorized => Some(json_response("401 Unauthorized", AUTH_REQUIRED_BODY)),
        Route::MethodNotAllowed => Some(
            json_response("405 Method Not Allowed", METHOD_NOT_ALLOWED_BODY),
        ),
        Route::NotFound => Some(json_response("404 Not Found", ROUTE_LIST_BODY)),
        _ => None,
    }
}

// ---------------------------------------------------------------------------
// Health
// ---------------------------------------------------------------------------

/// Who holds the recordings, as `/health` reports it.
pub const STORAGE_AUTHORITY: &'static str = "GenesisBlockDB signed WAL";

pub open spec fn lower_hex_digit(d: u32) -> char {
    if d < 10 {
        (('0' as u32) + d) as char
    } else {
        (('a' as u32) + d - 10) as char
    }
}

/// How JSON writes one character inside a string: quote and backslash
/// escaped, the short escapes for backspace, form feed, newline, carriage
/// return and tab, `\u00xx` for the other control characters, and every
/// other character as it is.
pub open spec fn json_escape_char(c: char) -> Seq<char> {
    if c == '"' {
        seq!['\\', '"']
    } else if c == '\\' {
        seq!['\\', '\\']
    } else if c == '\u{8}' {
        seq!['\\', 'b']
    } else if c == '\u{c}' {
        seq!['\\', 'f']
    } else if c == '\n' {
        seq!['\\', 'n']
    } else if c == '\r' {
        seq!['\\', 'r']
    } else if c == '\t' {
        seq!['\\', 't']
    } else if (c as u32) < 0x20 {
        seq!['\\', 'u', '0', '0', lower_hex_digit((c as u32) / 16), lower_hex_digit((c as u32) % 16)]
    } else {
        seq![c]
    }
}

pub open spec fn json_escape(s: Seq<char>) -> Seq<char>
    decreases s.len(),
{
    if s.len() == 0 {
        seq![]
    } else {
        json_escape(s.drop_last()) + json_escape_char(s.last())
    }
}

/// `s` as a JSON string literal.
pub open spec fn json_quoted(s: Seq<char>) -> Seq<char> {
    seq!['"'] + json_escape(s) + seq!['"']
}

/// `s` as a JSON string literal, by `serde_json::to_string` on a `&str`.
/// Its serializer writes the quotes and escapes each character by the table
/// `json_escape_char` states; writing into a `Vec` cannot fail, so the
/// error arm is never taken.
#[verifier::external_body]
fn json_string(s: &str) -> (r: String)
    ensures
        r@ == json_quoted(s@),
{
    match serde_json::to_string(s) {
        Ok(t) => t,
        Err(_) => String::new(),
    }
}

/// The body `/health` answers: the application's name and version, where
/// its database lies, who holds the recordings and how far the ledger is
/// stable, as one JSON object with its keys in order.
pub open spec fn health_body(version: Seq<char>, database_path: Seq<char>, stable_frontier: u64) -> Seq<char> {
    "{\"app\":\"FUNG\",\"databasePath\":"@ + json_quoted(database_path)
        + ",\"stableFrontier\":"@ + decimal(stable_frontier as nat)
        + ",\"storageAuthority\":"@ + json_quoted(STORAGE_AUTHORITY@)
        + ",\"version\":"@ + json_quoted(version) + "}"@
}

/// The answer to `GET /health`, which needs no token: `200` with the
/// health body.
pub fn health_response(version: &str, database_path: &str, stable_frontier: u64) -> (res: Response)
    ensures
        res@ == json_view("200 OK"@, health_body(version@, database_path@, stable_frontier)),
{
    let mut body = String::new();
    crate::text::push_text(&mut body, "{\"app\":\"FUNG\",\"databasePath\":");
    let path = json_string(database_path);
    crate::text::push_text(&mut body, path.as_str());
    crate::text::push_text(&mut body, ",\"stableFrontier\":");
    crate::text::push_u64(&mut body, stable_frontier);
    crate::text::push_text(&mut body, ",\"storageAuthority\":");
    let authority = json_string(STORAGE_AUTHORITY);
    crate::text::push_text(&mut body, authority.as_str());
    crate::text::push_text(&mut body, ",\"version\":");
    let v = json_string(version);
    crate::text::push_text(&mut body, v.as_str());
    crate::text::push_text(&mut body, "}");
    let r = Response {
        status: "200 OK",
        content_type: "application/json",
        body: vstd::slice::slice_to_vec(body.as_str().as_bytes()),
        extra_headers: Vec::new(),
    };
    assert(r@.extra_headers =~= seq![]);
    assert(body@ =~= health_body(version@, database_path@, stable_frontier));
    r
}

// ---------------------------------------------------------------------------
// Audio assembly
// ---------------------------------------------------------------------------

/// Why a recording cannot be played.
#[derive(Debug)]
pub enum AudioError {
    NotFound(String),
    Unsupported(String),
    Internal(String),
}

pub enum AudioErrorView {
    NotFound(Seq<char>),
    Unsupported(Seq<char>),
    Internal(Seq<char>),
}

impl View for AudioError {
    type V = AudioErrorView;

    open spec fn view(&self) -> AudioErrorView {
        match self {
            AudioError::NotFound(d) => AudioErrorView::NotFound(d@),
            AudioError::Unsupported(d) => AudioErrorView::Unsupported(d@),
            AudioError::Internal(d) => AudioErrorView::Internal(d@),
        }
    }
}

/// How a recording's audio is assembled: a whole-file import served from
/// the one path, or a live channel stitched from its slices in order.
#[derive(Debug)]
pub enum AudioPlan {
    File(String),
    Slices(Vec<(u32, String)>),
}

pub enum AudioPlanView {
    File(Seq<char>),
    Slices(Seq<(u32, Seq<char>)>),
}

pub open spec fn slices_view(v: Seq<(u32, String)>) -> Seq<(u32, Seq<char>)> {
    v.map_values(|p: (u32, String)| (p.0, p.1@))
}

impl View for AudioPlan {
    type V = AudioPlanView;

    open spec fn view(&self) -> AudioPlanView {
        match self {
            AudioPlan::File(p) => AudioPlanView::File(p@),
            AudioPlan::Slices(v) => AudioPlanView::Slices(slices_view(v@)),
        }
    }
}

pub open spec fn chunks_view(v: Seq<(i64, String)>) -> Seq<(i64, Seq<char>)> {
    v.map_values(|p: (i64, String)| (p.0, p.1@))
}

pub open spec fn chunk_paths(c: Seq<(i64, Seq<char>)>) -> Seq<Seq<char>> {
    c.map_values(|p: (i64, Seq<char>)| p.1)
}

/// `parts` joined with `sep` between them.
pub open spec fn join_spec(parts: Seq<Seq<char>>, sep: Seq<char>) -> Seq<char>
    decreases parts.len(),
{
    if parts.len() == 0 {
        seq![]
    } else if parts.len() == 1 {
        parts[0]
    } else {
        join_spec(parts.drop_last(), sep) + sep + parts.last()
    }
}

/// The first chunk path on channel `ch`.
pub open spec fn first_on_channel(c: Seq<(i64, Seq<char>)>, ch: Seq<char>) -> Seq<char>
    decreases c.len(),
{
    if c.len() == 0 {
        seq![]
    } else if channel_of_spec(c[0].1) == ch {
        c[0].1
    } else {
        first_on_channel(c.drop_first(), ch)
    }
}

/// Where a slice sorts: its file-name ordinal, else its ledger sequence
/// number (negative read as 0) cut to 32 bits.
pub open spec fn slice_ordinal(sequence_no: i64, path: Seq<char>) -> u32 {
    match chunk_ordinal_spec(path) {
        Some(v) => v as u32,
        None => (if sequence_no < 0 {
            0
        } else {
            sequence_no
        }) as u32,
    }
}

/// The chunks on channel `ch` with their ordinals, in ledger order.
pub open spec fn select_slices(c: Seq<(i64, Seq<char>)>, ch: Seq<char>) -> Seq<(u32, Seq<char>)>
    decreases c.len(),
{
    if c.len() == 0 {
        seq![]
    } else if channel_of_spec(c.last().1) == ch {
        select_slices(c.drop_last(), ch).push((slice_ordinal(c.last().0, c.last().1), c.last().1))
    } else {
        select_slices(c.drop_last(), ch)
    }
}

/// Inserts `x` after every slice whose ordinal does not exceed its own.
pub open spec fn insert_slice(s: Seq<(u32, Seq<char>)>, x: (u32, Seq<char>)) -> Seq<
    (u32, Seq<char>),
>
    decreases s.len(),
{
    if s.len() == 0 {
        seq![x]
    } else if s.last().0 <= x.0 {
        s.push(x)
    } else {
        insert_slice(s.drop_last(), x).push(s.last())
    }
}

/// Stable sort by ordinal.
pub open spec fn sort_slices(s: Seq<(u32, Seq<char>)>) -> Seq<(u32, Seq<char>)>
    decreases s.len(),
{
    if s.len() == 0 {
        seq![]
    } else {
        insert_slice(sort_slices(s.drop_last()), s.last())
    }
}

proof fn lemma_insert_slice(s: Seq<(u32, Seq<char>)>, x: (u32, Seq<char>))
    requires
        forall|i: int, j: int| 0 <= i < j < s.len() ==> s[i].0 <= s[j].0,
    ensures
        ({
            let r = insert_slice(s, x);
            &&& r.len() == s.len() + 1
            &&& forall|i: int, j: int| 0 <= i < j < r.len() ==> r[i].0 <= r[j].0
            &&& r.to_multiset() == s.to_multiset().insert(x)
        }),
    decreases s.len(),
{
    broadcast use vstd::seq_lib::group_to_multiset_ensures;

    if s.len() == 0 {
        assert(seq![x] =~= Seq::<(u32, Seq<char>)>::empty().push(x));
    } else if s.last().0 <= x.0 {
        let r = s.push(x);
        assert forall|i: int, j: int| 0 <= i < j < r.len() implies r[i].0 <= r[j].0 by {
            if j == s.len() && i < s.len() - 1 {
                assert(s[i].0 <= s[s.len() - 1].0);
            }
        }
    } else {
        let t = s.drop_last();
        lemma_insert_slice(t, x);
        let m = insert_slice(t, x);
        let r = m.push(s.last());
        assert(m.to_multiset() == t.to_multiset().insert(x));
        assert forall|i: int, j: int| 0 <= i < j < r.len() implies r[i].0 <= r[j].0 by {
            if j == m.len() {
                assert(r[i] == m[i]);
                assert(m.to_multiset().count(m[i]) > 0);
                if m[i] != x {
                    assert(t.to_multiset().count(m[i]) > 0);
                    assert(t.contains(m[i]));
                    let k = choose|k: int| 0 <= k < t.len() && t[k] == m[i];
                    assert(s[k] == m[i]);
                    assert(s[k].0 <= s[s.len() - 1].0);
                }
            }
        }
        assert(s =~= t.push(s.last()));
        assert(r.to_multiset() =~= s.to_multiset().insert(x));
    }
}

/// Slices are stitched in the order of their numbers, whatever order the
/// ledger listed them in, and none is dropped or repeated.
pub proof fn law_slices_are_stitched_in_number_order(s: Seq<(u32, Seq<char>)>)
    ensures
        sort_slices(s).len() == s.len(),
        forall|i: int, j: int|
            0 <= i < j < sort_slices(s).len() ==> sort_slices(s)[i].0 <= sort_slices(s)[j].0,
        sort_slices(s).to_multiset() == s.to_multiset(),
    decreases s.len(),
{
    broadcast use vstd::seq_lib::group_to_multiset_ensures;

    if s.len() > 0 {
        law_slices_are_stitched_in_number_order(s.drop_last());
        lemma_insert_slice(sort_slices(s.drop_last()), s.last());
        assert(s =~= s.drop_last().push(s.last()));
    }
}

/// How a recording with these `(sequence_no, path)` chunks is played on
/// `channel` (the first available one when none is asked for).
pub open spec fn plan_audio_spec(c: Seq<(i64, Seq<char>)>, channel: Option<Seq<char>>) -> Result<
    AudioPlanView,
    AudioErrorView,
> {
    let avail = channels_spec(chunk_paths(c));
    if c.len() == 0 {
        Err(AudioErrorView::NotFound("recording has no audio chunks"@))
    } else if channel is None && avail.len() == 0 {
        Err(AudioErrorView::NotFound("no playable channel"@))
    } else {
        let ch = match channel {
            Some(x) => x,
            None => avail[0],
        };
        if !avail.contains(ch) {
            Err(
                AudioErrorView::NotFound(
                    "channel "@ + ch + " not present; available: "@ + join_spec(avail, ","@),
                ),
            )
        } else if ch == "file"@ {
            Ok(AudioPlanView::File(first_on_channel(c, ch)))
        } else {
            Ok(AudioPlanView::Slices(sort_slices(select_slices(c, ch))))
        }
    }
}

fn clone_slice(x: &(u32, String)) -> (out: (u32, String))
    ensures
        out == *x,
{
    (x.0, x.1.clone())
}

fn insert_slice_exec(v: &mut Vec<(u32, String)>, x: (u32, String))
    ensures
        slices_view(final(v)@) == insert_slice(slices_view(old(v)@), (x.0, x.1@)),
{
    let ghost s0 = slices_view(v@);
    let ghost xv = (x.0, x.1@);
    v.push(x);
    let mut i: usize = v.len() - 1;
    assert(s0.take(i as int) =~= s0);
    assert(slices_view(v@).skip(i + 1) =~= Seq::<(u32, Seq<char>)>::empty());
    assert(insert_slice(s0, xv) + Seq::<(u32, Seq<char>)>::empty() =~= insert_slice(s0, xv));
    assert(slices_view(v@).take(i as int) =~= s0);
    while i > 0 && v[i - 1].0 > v[i].0
        invariant
            0 <= i < v.len(),
            v@.len() == s0.len() + 1,
            slices_view(v@)[i as int] == xv,
            insert_slice(s0, xv) == insert_slice(s0.take(i as int), xv) + slices_view(v@).skip(
                i + 1,
            ),
            slices_view(v@).take(i as int) == s0.take(i as int),
        decreases i,
    {
        let ghost before = slices_view(v@);
        let prev = clone_slice(&v[i - 1]);
        let cur = clone_slice(&v[i]);
        v.set(i - 1, cur);
        v.set(i, prev);
        proof {
            let t = s0.take(i as int);
            assert(before[i - 1] == s0[i - 1]);
            assert(t.last() == s0[i - 1]);
            assert(t.drop_last() =~= s0.take(i - 1));
            assert(insert_slice(t, xv) == insert_slice(s0.take(i - 1), xv).push(s0[i - 1]));
            assert(slices_view(v@).skip(i as int) =~= seq![s0[i - 1]] + before.skip(i + 1));
            assert(insert_slice(s0.take(i - 1), xv).push(s0[i - 1]) + before.skip(i + 1)
                =~= insert_slice(s0.take(i - 1), xv) + (seq![s0[i - 1]] + before.skip(i + 1)));
            assert(slices_view(v@).take(i - 1) =~= s0.take(i - 1));
            assert(slices_view(v@)[i - 1] == xv);
        }
        i -= 1;
    }
    proof {
        let t = s0.take(i as int);
        if i > 0 {
            assert(t.last() == s0[i - 1]);
            assert(slices_view(v@)[i - 1] == s0[i - 1]);
        }
        assert(insert_slice(t, xv) =~= t.push(xv));
        assert(slices_view(v@) =~= t.push(xv) + slices_view(v@).skip(i + 1));
    }
}

fn sort_by_ordinal(v: Vec<(u32, String)>) -> (out: Vec<(u32, String)>)
    ensures
        slices_view(out@) == sort_slices(slices_view(v@)),
{
    let mut out: Vec<(u32, String)> = Vec::new();
    let mut i: usize = 0;
    while i < v.len()
        invariant
            i <= v.len(),
            slices_view(out@) == sort_slices(slices_view(v@).take(i as int)),
        decreases v.len() - i,
    {
        let x = clone_slice(&v[i]);
        proof {
            assert(slices_view(v@).take(i + 1).drop_last() =~= slices_view(v@).take(i as int));
            assert(slices_view(v@).take(i + 1).last() == (x.0, x.1@));
        }
        insert_slice_exec(&mut out, x);
        i += 1;
    }
    assert(slices_view(v@).take(v.len() as int) =~= slices_view(v@));
    out
}

fn select_slices_exec(chunks: &[(i64, String)], ch: &str) -> (out: Vec<(u32, String)>)
    ensures
        slices_view(out@) == select_slices(chunks_view(chunks@), ch@),
{
    let ghost c = chunks_view(chunks@);
    let mut out: Vec<(u32, String)> = Vec::new();
    let mut i: usize = 0;
    while i < chunks.len()
        invariant
            i <= chunks.len(),
            c == chunks_view(chunks@),
            slices_view(out@) == select_slices(c.take(i as int), ch@),
        decreases chunks.len() - i,
    {
        assert(c.take(i + 1).drop_last() =~= c.take(i as int));
        assert(c.take(i + 1).last() == (chunks@[i as int].0, chunks@[i as int].1@));
        let path = &chunks[i].1;
        if str_eq(channel_of(path.as_str()), ch) {
            let ordinal = match chunk_ordinal(path.as_str()) {
                Some(v) => v,
                None => {
                    let s: i64 = if chunks[i].0 < 0 {
                        0
                    } else {
                        chunks[i].0
                    };
                    s as u32
                },
            };
            let ghost before = out@;
            out.push((ordinal, path.clone()));
            assert(slices_view(out@) =~= slices_view(before).push((ordinal, path@)));
        }
        i += 1;
    }
    assert(c.take(chunks.len() as int) =~= c);
    out
}

fn first_on_channel_exec(chunks: &[(i64, String)], ch: &str) -> (out: String)
    ensures
        out@ == first_on_channel(chunks_view(chunks@), ch@),
{
    let ghost c = chunks_view(chunks@);
    let mut i: usize = 0;
    assert(c.skip(0) =~= c);
    while i < chunks.len()
        invariant
            i <= chunks.len(),
            c == chunks_view(chunks@),
            first_on_channel(c, ch@) == first_on_channel(c.skip(i as int), ch@),
        decreases chunks.len() - i,
    {
        assert(c.skip(i as int)[0] == (chunks@[i as int].0, chunks@[i as int].1@));
        assert(c.skip(i as int).drop_first() =~= c.skip(i + 1));
        if str_eq(channel_of(chunks[i].1.as_str()), ch) {
            return chunks[i].1.clone();
        }
        i += 1;
    }
    assert(c.skip(i as int) =~= Seq::<(i64, Seq<char>)>::empty());
    String::new()
}

fn join_exec(parts: &Vec<String>, sep: &str) -> (out: String)
    ensures
        out@ == join_spec(strings_view(parts@), sep@),
{
    let ghost ps = strings_view(parts@);
    let mut out = String::new();
    let mut i: usize = 0;
    while i < parts.len()
        invariant
            i <= parts.len(),
            ps == strings_view(parts@),
            out@ == join_spec(ps.take(i as int), sep@),
        decreases parts.len() - i,
    {
        assert(ps.take(i + 1).drop_last() =~= ps.take(i as int));
        assert(ps.take(i + 1).last() == parts@[i as int]@);
        if i > 0 {
            crate::text::push_text(&mut out, sep);
        } else {
            assert(ps.take(1) =~= seq![parts@[0]@]);
        }
        crate::text::push_text(&mut out, parts[i].as_str());
        i += 1;
    }
    assert(ps.take(parts.len() as int) =~= ps);
    out
}

fn contains_string(v: &Vec<String>, s: &str) -> (res: bool)
    ensures
        res == strings_view(v@).contains(s@),
{
    let mut i: usize = 0;
    while i < v.len()
        invariant
            i <= v.len(),
            forall|k: int| 0 <= k < i ==> strings_view(v@)[k] != s@,
        decreases v.len() - i,
    {
        if str_eq(v[i].as_str(), s) {
            assert(strings_view(v@)[i as int] == s@);
            return true;
        }
        i += 1;
    }
    false
}

/// Decides how a recording's chunks are played on a channel: whole-file
/// imports as their file, live channels as their slices sorted by ordinal.
pub fn plan_audio(chunks: &[(i64, String)], channel: Option<&str>) -> (res: Result<
    AudioPlan,
    AudioError,
>)
    ensures
        match plan_audio_spec(
            chunks_view(chunks@),
            match channel {
                Some(c) => Some(c@),
                None => None,
            },
        ) {
            Ok(p) => res matches Ok(r) && r@ == p,
            Err(e) => res matches Err(r) && r@ == e,
        },
{
    if chunks.len() == 0 {
        return Err(AudioError::NotFound(crate::text::copy_string("recording has no audio chunks")));
    }
    let mut paths: Vec<String> = Vec::new();
    let mut i: usize = 0;
    while i < chunks.len()
        invariant
            i <= chunks.len(),
            strings_view(paths@) == chunk_paths(chunks_view(chunks@)).take(i as int),
        decreases chunks.len() - i,
    {
        let ghost before = paths@;
        paths.push(chunks[i].1.clone());
        assert(strings_view(paths@) =~= strings_view(before).push(chunks@[i as int].1@));
        assert(chunk_paths(chunks_view(chunks@)).take(i + 1) =~= chunk_paths(chunks_view(chunks@)).take(
            i as int,
        ).push(chunks@[i as int].1@));
        i += 1;
    }
    assert(chunk_paths(chunks_view(chunks@)).take(chunks.len() as int) =~= chunk_paths(
        chunks_view(chunks@),
    ));
    let available = channels_of(paths.as_slice());
    let ch: String = match channel {
        Some(c) => crate::text::copy_string(c),
        None => {
            if available.len() == 0 {
                return Err(AudioError::NotFound(crate::text::copy_string("no playable channel")));
            }
            available[0].clone()
        },
    };
    if !contains_string(&available, ch.as_str()) {
        let mut detail = crate::text::copy_string("channel ");
        crate::text::push_text(&mut detail, ch.as_str());
        crate::text::push_text(&mut detail, " not present; available: ");
        let joined = join_exec(&available, ",");
        crate::text::push_text(&mut detail, joined.as_str());
        return Err(AudioError::NotFound(detail));
    }
    if str_eq(ch.as_str(), "file") {
        return Ok(AudioPlan::File(first_on_channel_exec(chunks, ch.as_str())));
    }
    let selected = select_slices_exec(chunks, ch.as_str());
    Ok(AudioPlan::Slices(sort_by_ordinal(selected)))
}

/// The format of one WAV slice, as its header states it.
#[derive(Clone, Copy, Debug, PartialEq, Eq, Structural)]
pub struct WavFormat {
    pub channels: u16,
    pub sample_rate: u32,
    pub bits_per_sample: u16,
    /// Integer PCM, as opposed to floating point.
    pub integer: bool,
}

/// What reading one listed slice gave, in the slices' order: not on disk,
/// a file that could not be opened (with the message to report), or a
/// header and the outcome of decoding its samples.
#[derive(Debug)]
pub enum SliceRead {
    Missing,
    Unopenable(String),
    Opened { path: String, format: WavFormat, samples: Result<Vec<i16>, String> },
}

pub enum SliceReadView {
    Missing,
    Unopenable(Seq<char>),
    Opened { path: Seq<char>, format: WavFormat, samples: Result<Seq<i16>, Seq<char>> },
}

impl View for SliceRead {
    type V = SliceReadView;

    open spec fn view(&self) -> SliceReadView {
        match self {
            SliceRead::Missing => SliceReadView::Missing,
            SliceRead::Unopenable(m) => SliceReadView::Unopenable(m@),
            SliceRead::Opened { path, format, samples } => SliceReadView::Opened {
                path: path@,
                format: *format,
                samples: match samples {
                    Ok(v) => Ok(v@),
                    Err(m) => Err(m@),
                },
            },
        }
    }
}

pub open spec fn reads_view(v: Seq<SliceRead>) -> Seq<SliceReadView> {
    v.map_values(|r: SliceRead| r@)
}

/// Stitching so far: the first slice's format, the samples gathered, and
/// how many slices were missing.
pub struct StitchAcc {
    pub format: Option<WavFormat>,
    pub samples: Seq<i16>,
    pub missing: nat,
}

/// One slice taken into the stitch: a missing slice is counted; an
/// unopenable one, one that is not 16-bit integer PCM, one whose rate or
/// channel count differs from the first, or one whose samples fail to
/// decode stops the stitch with that error.
pub open spec fn stitch_step(acc: StitchAcc, r: SliceReadView) -> Result<StitchAcc, AudioErrorView> {
    match r {
        SliceReadView::Missing => Ok(StitchAcc { missing: acc.missing + 1, ..acc }),
        SliceReadView::Unopenable(m) => Err(AudioErrorView::Internal(m)),
        SliceReadView::Opened { path, format, samples } => {
            if format.bits_per_sample != 16 || !format.integer {
                Err(AudioErrorView::Unsupported(path + " is not 16-bit integer PCM"@))
            } else if acc.format is Some && (acc.format->0.sample_rate != format.sample_rate
                || acc.format->0.channels != format.channels) {
                Err(AudioErrorView::Unsupported(path + " does not match the recording's format"@))
            } else {
                match samples {
                    Ok(xs) => Ok(
                        StitchAcc {
                            format: if acc.format is Some {
                                acc.format
                            } else {
                                Some(format)
                            },
                            samples: acc.samples + xs,
                            missing: acc.missing,
                        },
                    ),
                    Err(m) => Err(AudioErrorView::Internal(m)),
                }
            }
        },
    }
}

/// The slices taken in order, stopping at the first error.
pub open spec fn stitch_fold(reads: Seq<SliceReadView>) -> Result<StitchAcc, AudioErrorView>
    decreases reads.len(),
{
    if reads.len() == 0 {
        Ok(StitchAcc { format: None, samples: seq![], missing: 0 })
    } else {
        match stitch_fold(reads.drop_last()) {
            Ok(acc) => stitch_step(acc, reads.last()),
            Err(e) => Err(e),
        }
    }
}

proof fn lemma_stitch_missing_bound(reads: Seq<SliceReadView>)
    ensures
        stitch_fold(reads) matches Ok(acc) ==> acc.missing <= reads.len(),
    decreases reads.len(),
{
    if reads.len() > 0 {
        lemma_stitch_missing_bound(reads.drop_last());
    }
}

proof fn lemma_stitch_error_stays(s: Seq<SliceReadView>, k: int)
    requires
        0 <= k <= s.len(),
        stitch_fold(s.take(k)) is Err,
    ensures
        stitch_fold(s) == stitch_fold(s.take(k)),
    decreases s.len() - k,
{
    if k < s.len() {
        assert(s.take(k + 1).drop_last() =~= s.take(k));
        lemma_stitch_error_stays(s, k + 1);
    } else {
        assert(s.take(k) =~= s);
    }
}

/// The samples of the slices of one channel, in order, with their format
/// and the number of slices that were not on disk; `NotFound` when none
/// was.
pub fn collect_slices(reads: &Vec<SliceRead>) -> (res: Result<(WavFormat, Vec<i16>, usize), AudioError>)
    ensures
        match stitch_fold(reads_view(reads@)) {
            Err(e) => res matches Err(r) && r@ == e,
            Ok(acc) => match acc.format {
                None => res matches Err(r) && r@ == AudioErrorView::NotFound(
                    "none of the "@ + crate::text::decimal(reads@.len()) + " chunks are on disk"@,
                ),
                Some(f) => res matches Ok((rf, xs, m)) && rf == f && xs@ == acc.samples && m
                    == acc.missing,
            },
        },
{
    let ghost rv = reads_view(reads@);
    let mut format: Option<WavFormat> = None;
    let mut samples: Vec<i16> = Vec::new();
    let mut missing: usize = 0;
    let mut i: usize = 0;
    while i < reads.len()
        invariant
            i <= reads.len(),
            rv == reads_view(reads@),
            stitch_fold(rv.take(i as int)) == Ok::<StitchAcc, AudioErrorView>(
                StitchAcc { format, samples: samples@, missing: missing as nat },
            ),
        decreases reads.len() - i,
    {
        proof {
            assert(rv.take(i + 1).drop_last() =~= rv.take(i as int));
            assert(rv.take(i + 1).last() == reads@[i as int]@);
            lemma_stitch_missing_bound(rv.take(i as int));
            if stitch_fold(rv.take(i + 1)) is Err {
                lemma_stitch_error_stays(rv, i + 1);
            }
        }
        match &reads[i] {
            SliceRead::Missing => {
                missing += 1;
            },
            SliceRead::Unopenable(m) => {
                return Err(AudioError::Internal(m.clone()));
            },
            SliceRead::Opened { path, format: this, samples: decoded } => {
                if this.bits_per_sample != 16 || !this.integer {
                    let mut detail = path.clone();
                    crate::text::push_text(&mut detail, " is not 16-bit integer PCM");
                    return Err(AudioError::Unsupported(detail));
                }
                match format {
                    Some(first) => {
                        if first.sample_rate != this.sample_rate || first.channels != this.channels {
                            let mut detail = path.clone();
                            crate::text::push_text(
                                &mut detail,
                                " does not match the recording's format",
                            );
                            return Err(AudioError::Unsupported(detail));
                        }
                    },
                    None => {},
                }
                match decoded {
                    Ok(xs) => {
                        let ghost before = samples@;
                        let mut k: usize = 0;
                        while k < xs.len()
                            invariant
                                k <= xs.len(),
                                samples@ == before + xs@.take(k as int),
                            decreases xs.len() - k,
                        {
                            samples.push(xs[k]);
                            k += 1;
                            assert(samples@ =~= before + xs@.take(k as int));
                        }
                        assert(xs@.take(xs.len() as int) =~= xs@);
                        if format.is_none() {
                            format = Some(*this);
                        }
                    },
                    Err(m) => {
                        return Err(AudioError::Internal(m.clone()));
                    },
                }
            },
        }
        i += 1;
    }
    assert(rv.take(reads.len() as int) =~= rv);
    match format {
        Some(f) => Ok((f, samples, missing)),
        None => {
            let mut detail = crate::text::copy_string("none of the ");
            crate::text::push_u64(&mut detail, reads.len() as u64);
            crate::text::push_text(&mut detail, " chunks are on disk");
            Err(AudioError::NotFound(detail))
        },
    }
}

/// The bytes of a 16-bit integer PCM WAV file that `hound` writes for
/// these samples.
pub uninterp spec fn wav_encoding(channels: u16, sample_rate: u32, samples: Seq<i16>) -> Seq<u8>;

/// Writes a 16-bit integer PCM WAV file into memory with `hound::WavWriter`
/// (`new`, `write_sample` for each sample, `finalize`). The bytes are named
/// by the arguments. Writing into memory cannot fail; `finalize` refuses a
/// last sample frame left unfinished, that is a sample count that is not a
/// multiple of the channel count. These inputs are left out because hound
/// panics on them: a channel count of 0 (`finalize` divides by it), a
/// sample rate of 0 (the header's block align divides by it), a byte rate
/// `2 * channels * sample_rate` past `u32` (the header computes it in
/// `u32`), and a data size past `u32` (its byte counter would overflow).
#[verifier::external_body]
fn encode_wav(channels: u16, sample_rate: u32, samples: &Vec<i16>) -> (res: Result<Vec<u8>, String>)
    requires
        channels > 0,
        sample_rate > 0,
        2 * channels * sample_rate <= u32::MAX,
        2 * samples@.len() + WAV_HEADER_ROOM <= u32::MAX,
    ensures
        res is Ok <==> samples@.len() % (channels as nat) == 0,
        res matches Ok(b) ==> b@ == wav_encoding(channels, sample_rate, samples@),
{
    let spec = hound::WavSpec { channels, sample_rate, bits_per_sample: 16, sample_format: hound::SampleFormat::Int };
    let mut cursor = std::io::Cursor::new(Vec::new());
    let mut writer = hound::WavWriter::new(&mut cursor, spec).map_err(|e| e.to_string())?;
    for sample in samples.iter() {
        writer.write_sample(*sample).map_err(|e| e.to_string())?;
    }
    writer.finalize().map_err(|e| e.to_string())?;
    Ok(cursor.into_inner())
}

/// Room kept for the WAV header when bounding the data size.
pub const WAV_HEADER_ROOM: usize = 64;

/// Why a channel's slices cannot be made one WAV file although they were
/// read: their format declares no channels, or a sample rate of 0 or one
/// whose byte rate is past what a WAV header holds; the data is past what
/// one WAV file holds; or the samples do not fill whole frames.
pub open spec fn encoding_refusal(f: WavFormat, samples: Seq<i16>) -> Option<Seq<char>> {
    if f.channels == 0 {
        Some(NO_CHANNELS@)
    } else if f.sample_rate == 0 || 2 * f.channels * f.sample_rate > u32::MAX {
        Some(BAD_SAMPLE_RATE@)
    } else if 2 * samples.len() + WAV_HEADER_ROOM > u32::MAX {
        Some(TOO_LONG_FOR_WAV@)
    } else if samples.len() % (f.channels as nat) != 0 {
        Some(UNFINISHED_FRAME@)
    } else {
        None
    }
}

pub const NO_CHANNELS: &'static str = "the slices declare no channels";
pub const BAD_SAMPLE_RATE: &'static str = "the slices declare an unusable sample rate";
pub const TOO_LONG_FOR_WAV: &'static str = "the recording is too long for one WAV file";
pub const UNFINISHED_FRAME: &'static str = "the samples do not fill whole frames";

/// Stitches one channel's slices into a single WAV, counting the slices
/// that were not on disk.
pub fn stitch_wav(reads: &Vec<SliceRead>) -> (res: Result<Audio, AudioError>)
    ensures
        match stitch_fold(reads_view(reads@)) {
            Err(e) => res matches Err(r) && r@ == e,
            Ok(acc) => match acc.format {
                None => res matches Err(r) && r@ == AudioErrorView::NotFound(
                    "none of the "@ + crate::text::decimal(reads@.len()) + " chunks are on disk"@,
                ),
                Some(f) => match encoding_refusal(f, acc.samples) {
                    Some(m) => res matches Err(r) && r@ == AudioErrorView::Internal(m),
                    None => res matches Ok(a) && a.bytes@ == wav_encoding(
                        f.channels,
                        f.sample_rate,
                        acc.samples,
                    ) && a.mime@ == "audio/wav"@ && a.missing_chunks == acc.missing,
                },
            },
        },
{
    let (format, samples, missing) = collect_slices(reads)?;
    if format.channels == 0 {
        return Err(AudioError::Internal(crate::text::copy_string(NO_CHANNELS)));
    }
    let rate: u64 = format.sample_rate as u64;
    let chans: u64 = format.channels as u64;
    assert(2 * chans * rate <= 2 * 65535 * 4294967295u64) by (nonlinear_arith)
        requires
            chans <= 65535,
            rate <= 4294967295u64,
    ;
    if rate == 0 || 2 * chans * rate > u32::MAX as u64 {
        return Err(AudioError::Internal(crate::text::copy_string(BAD_SAMPLE_RATE)));
    }
    if samples.len() > (u32::MAX as usize - WAV_HEADER_ROOM) / 2 {
        return Err(AudioError::Internal(crate::text::copy_string(TOO_LONG_FOR_WAV)));
    }
    if samples.len() % (format.channels as usize) != 0 {
        return Err(AudioError::Internal(crate::text::copy_string(UNFINISHED_FRAME)));
    }
    match encode_wav(format.channels, format.sample_rate, &samples) {
        Ok(bytes) => Ok(Audio { bytes, mime: "audio/wav", missing_chunks: missing }),
        Err(m) => Err(AudioError::Internal(m)),
    }
}

} // verus!
