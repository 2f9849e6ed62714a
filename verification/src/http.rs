//! The smallest HTTP/1.1 slice the local test page needs: the request line,
//! its query string, and which endpoint a request is for. Reading from and
//! writing to the socket is the server's job.

use vstd::hash_map::StringHashMap;
use vstd::prelude::*;
use vstd::utf8::{encode_scalar, encode_utf8};

use crate::morpheme::{split_chars, split_on};
use crate::text::{
    from_utf8_lossy, is_unicode_whitespace, is_whitespace, str_chars, str_eq, string_from_chars, string_of_range,
    utf8_lossy,
};

verus! {

/// The value of an ASCII hex digit, as `char::to_digit(16)` gives it.
pub open spec fn hex_value(b: u8) -> Option<u8> {
    if 0x30 <= b <= 0x39 {
        Some((b - 0x30) as u8)
    } else if 0x61 <= b <= 0x66 {
        Some((b - 0x61 + 10) as u8)
    } else if 0x41 <= b <= 0x46 {
        Some((b - 0x41 + 10) as u8)
    } else {
        None
    }
}

fn hex_digit(b: u8) -> (r: Option<u8>)
    ensures
        r == hex_value(b),
{
    if 0x30 <= b && b <= 0x39 {
        Some(b - 0x30)
    } else if 0x61 <= b && b <= 0x66 {
        Some(b - 0x61 + 10)
    } else if 0x41 <= b && b <= 0x46 {
        Some(b - 0x41 + 10)
    } else {
        None
    }
}

/// The bytes a percent-encoded byte string stands for: `+` is a space,
/// `%` followed by two hex digits is the byte they spell, and every other
/// byte (a `%` without two hex digits after it included) is itself.
pub open spec fn decoded_bytes(b: Seq<u8>) -> Seq<u8>
    decreases b.len(),
{
    if b.len() == 0 {
        Seq::empty()
    } else if b[0] == 0x2B {
        seq![0x20u8] + decoded_bytes(b.drop_first())
    } else if b[0] == 0x25 && 2 < b.len() && hex_value(b[1]) is Some && hex_value(b[2]) is Some {
        seq![(hex_value(b[1])->0 * 16 + hex_value(b[2])->0) as u8] + decoded_bytes(b.skip(3))
    } else {
        seq![b[0]] + decoded_bytes(b.drop_first())
    }
}

/// The text a percent-encoded string decodes to: decoded bytes that are
/// UTF-8 are read as the characters they encode; others as
/// `String::from_utf8_lossy` reads them.
pub open spec fn percent_decoded(s: Seq<char>) -> Seq<char> {
    let b = decoded_bytes(vstd::utf8::encode_utf8(s));
    if vstd::utf8::valid_utf8(b) {
        vstd::utf8::decode_utf8(b)
    } else {
        utf8_lossy(b)
    }
}

proof fn lemma_scalar_has_no_escape_byte(c: u32)
    requires
        c != 0x25,
        c != 0x2B,
    ensures
        forall|i: int| 0 <= i < encode_scalar(c).len() ==> #[trigger] encode_scalar(c)[i] != 0x25u8 && encode_scalar(c)[i] != 0x2Bu8,
{
    assert(c <= 0x7F && c != 0x25 && c != 0x2B ==> (c & 0x7F) as u8 != 0x25u8 && (c & 0x7F) as u8 != 0x2Bu8) by (bit_vector);
    assert((0xC0u8 | ((c >> 6) & 0x1F) as u8) >= 0x80u8) by (bit_vector);
    assert((0xE0u8 | ((c >> 12) & 0x0F) as u8) >= 0x80u8) by (bit_vector);
    assert((0xF0u8 | ((c >> 18) & 0x7) as u8) >= 0x80u8) by (bit_vector);
    assert((0x80u8 | (c & 0x3F) as u8) >= 0x80u8) by (bit_vector);
    assert((0x80u8 | ((c >> 6) & 0x3F) as u8) >= 0x80u8) by (bit_vector);
    assert((0x80u8 | ((c >> 12) & 0x3F) as u8) >= 0x80u8) by (bit_vector);
}

proof fn lemma_encoding_has_no_escape_byte(s: Seq<char>)
    requires
        !s.contains('%'),
        !s.contains('+'),
    ensures
        forall|i: int| 0 <= i < encode_utf8(s).len() ==> #[trigger] encode_utf8(s)[i] != 0x25u8 && encode_utf8(s)[i] != 0x2Bu8,
    decreases s.len(),
{
    if s.len() > 0 {
        assert(s[0] != '%' && s[0] != '+');
        let c = s[0] as u32;
        vstd::utf8::char_u32_cast(s[0], c);
        if c == 0x25 {
            assert((0x25u32 as char) == '%');
        }
        if c == 0x2B {
            assert((0x2Bu32 as char) == '+');
        }
        lemma_scalar_has_no_escape_byte(c);
        let rest = s.drop_first();
        assert(!rest.contains('%')) by {
            if rest.contains('%') {
                let j = choose|j: int| 0 <= j < rest.len() && rest[j] == '%';
                assert(s[j + 1] == '%');
            }
        }
        assert(!rest.contains('+')) by {
            if rest.contains('+') {
                let j = choose|j: int| 0 <= j < rest.len() && rest[j] == '+';
                assert(s[j + 1] == '+');
            }
        }
        lemma_encoding_has_no_escape_byte(rest);
        let head = encode_scalar(s[0] as u32);
        assert forall|i: int| 0 <= i < encode_utf8(s).len() implies #[trigger] encode_utf8(s)[i] != 0x25u8 && encode_utf8(s)[i] != 0x2Bu8 by {
            if i < head.len() {
                assert(encode_utf8(s)[i] == head[i]);
            } else {
                assert(encode_utf8(s)[i] == encode_utf8(rest)[i - head.len()]);
            }
        }
    }
}

proof fn lemma_decoded_plain(b: Seq<u8>)
    requires
        forall|i: int| 0 <= i < b.len() ==> #[trigger] b[i] != 0x25u8 && b[i] != 0x2Bu8,
    ensures
        decoded_bytes(b) == b,
    decreases b.len(),
{
    if b.len() > 0 {
        assert(b[0] != 0x25u8 && b[0] != 0x2Bu8);
        let rest = b.drop_first();
        assert forall|i: int| 0 <= i < rest.len() implies #[trigger] rest[i] != 0x25u8 && rest[i] != 0x2Bu8 by {
            assert(rest[i] == b[i + 1]);
        }
        lemma_decoded_plain(rest);
        assert(seq![b[0]] + rest =~= b);
    }
}

/// Text with no `%` and no `+` decodes to itself.
pub proof fn lemma_percent_decode_plain(s: Seq<char>)
    requires
        !s.contains('%'),
        !s.contains('+'),
    ensures
        decoded_bytes(encode_utf8(s)) == encode_utf8(s),
        vstd::utf8::valid_utf8(encode_utf8(s)),
        vstd::utf8::decode_utf8(encode_utf8(s)) == s,
        percent_decoded(s) == s,
{
    broadcast use vstd::utf8::encode_utf8_valid_utf8, vstd::utf8::encode_utf8_decode_utf8;

    lemma_encoding_has_no_escape_byte(s);
    lemma_decoded_plain(encode_utf8(s));
}

/// Decodes `+` and `%XX` escapes.
pub fn percent_decode(s: &str) -> (r: String)
    ensures
        r@ == percent_decoded(s@),
        vstd::utf8::valid_utf8(decoded_bytes(vstd::utf8::encode_utf8(s@))) ==> r@ == vstd::utf8::decode_utf8(
            decoded_bytes(vstd::utf8::encode_utf8(s@)),
        ),
        !s@.contains('%') && !s@.contains('+') ==> r@ == s@,
{
    proof {
        if !s@.contains('%') && !s@.contains('+') {
            lemma_percent_decode_plain(s@);
        }
    }
    let bytes = s.as_bytes();
    let ghost b = bytes@;
    let mut out: Vec<u8> = Vec::new();
    let mut i: usize = 0;
    assert(b.skip(0) =~= b);
    assert(out@ + decoded_bytes(b.skip(0)) =~= decoded_bytes(b));
    while i < bytes.len()
        invariant
            i <= b.len(),
            b == bytes@,
            out@ + decoded_bytes(b.skip(i as int)) == decoded_bytes(b),
        decreases b.len() - i,
    {
        let ghost rest = b.skip(i as int);
        assert(rest[0] == b[i as int]);
        let byte = bytes[i];
        if byte == 0x2B {
            out.push(0x20);
            assert(rest.drop_first() =~= b.skip(i + 1));
            i = i + 1;
        } else if byte == 0x25 && bytes.len() - i > 2 {
            let hi = hex_digit(bytes[i + 1]);
            let lo = hex_digit(bytes[i + 2]);
            assert(rest[1] == b[i + 1] && rest[2] == b[i + 2]);
            match (hi, lo) {
                (Some(h), Some(l)) => {
                    out.push(h * 16 + l);
                    assert(rest.skip(3) =~= b.skip(i + 3));
                    i = i + 3;
                },
                _ => {
                    out.push(byte);
                    assert(rest.drop_first() =~= b.skip(i + 1));
                    i = i + 1;
                },
            }
        } else {
            out.push(byte);
            assert(rest.drop_first() =~= b.skip(i + 1));
            i = i + 1;
        }
        proof {
            assert(out@ + decoded_bytes(b.skip(i as int)) =~= decoded_bytes(b));
        }
    }
    assert(b.skip(b.len() as int) =~= Seq::<u8>::empty());
    assert(out@ =~= decoded_bytes(b));
    from_utf8_lossy(out.as_slice())
}

/// `s[i]` is the first `c` in `s`.
pub open spec fn first_at(s: Seq<char>, c: char, i: int) -> bool {
    &&& 0 <= i < s.len()
    &&& s[i] == c
    &&& forall|j: int| 0 <= j < i ==> s[j] != c
}

/// A `key=value` piece of a query string, decoded; a piece without `=` is a
/// key with an empty value.
pub open spec fn pair_of(p: Seq<char>) -> (Seq<char>, Seq<char>) {
    if exists|i: int| first_at(p, '=', i) {
        let i = choose|i: int| first_at(p, '=', i);
        (percent_decoded(p.take(i)), percent_decoded(p.skip(i + 1)))
    } else {
        (percent_decoded(p), Seq::empty())
    }
}

/// The pairs of the non-empty pieces, a later key replacing an earlier one.
pub open spec fn pieces_map(pieces: Seq<Seq<char>>) -> Map<Seq<char>, Seq<char>>
    decreases pieces.len(),
{
    if pieces.len() == 0 {
        Map::empty()
    } else {
        let m = pieces_map(pieces.drop_last());
        if pieces.last().len() == 0 {
            m
        } else {
            m.insert(pair_of(pieces.last()).0, pair_of(pieces.last()).1)
        }
    }
}

/// The parameters of a query string: its `&`-separated pieces.
pub open spec fn query_map(q: Seq<char>) -> Map<Seq<char>, Seq<char>> {
    pieces_map(split_on(q, '&'))
}

pub open spec fn params_view(m: Map<Seq<char>, String>) -> Map<Seq<char>, Seq<char>> {
    m.map_values(|v: String| v@)
}

/// Decodes one `key=value` piece.
fn decode_pair(p: &Vec<char>) -> (r: (String, String))
    ensures
        r.0@ == pair_of(p@).0,
        r.1@ == pair_of(p@).1,
{
    let mut i: usize = 0;
    while i < p.len()
        invariant
            i <= p@.len(),
            forall|j: int| 0 <= j < i ==> p@[j] != '=',
        ensures
            i <= p@.len(),
            forall|j: int| 0 <= j < i ==> p@[j] != '=',
            i < p@.len() ==> p@[i as int] == '=',
        decreases p@.len() - i,
    {
        if p[i] == '=' {
            break;
        }
        i = i + 1;
    }
    if i < p.len() {
        assert(first_at(p@, '=', i as int));
        proof {
            let c = choose|c: int| first_at(p@, '=', c);
            if c < i {
                assert(p@[c] != '=');
            } else if c > i {
                assert(p@[i as int] != '=');
            }
        }
        let key = string_of_range(p.as_slice(), 0, i);
        let value = string_of_range(p.as_slice(), i + 1, p.len());
        assert(key@ =~= p@.take(i as int));
        assert(value@ =~= p@.skip(i + 1));
        (percent_decode(key.as_str()), percent_decode(value.as_str()))
    } else {
        proof {
            if exists|c: int| first_at(p@, '=', c) {
                let c = choose|c: int| first_at(p@, '=', c);
                assert(p@[c] != '=');
            }
        }
        let whole = string_from_chars(p.as_slice());
        (percent_decode(whole.as_str()), String::new())
    }
}

/// The parameters of a query string (the part of a target after `?`): the
/// `&`-separated pieces that are not empty, each `key=value` (or a bare
/// key, with an empty value) and percent-decoded; a later key replaces an
/// earlier one.
pub fn parse_query(query: &str) -> (r: StringHashMap<String>)
    ensures
        params_view(r@) == query_map(query@),
{
    let chars = str_chars(query);
    let pieces = split_chars(chars.as_slice(), '&');
    let ghost ps = split_on(query@, '&');
    assert(pieces@.map_values(|v: Vec<char>| v@) == ps);
    let mut map: StringHashMap<String> = StringHashMap::new();
    let mut i: usize = 0;
    assert(params_view(map@) =~= pieces_map(ps.take(0)));
    while i < pieces.len()
        invariant
            i <= pieces@.len(),
            pieces@.map_values(|v: Vec<char>| v@) == ps,
            params_view(map@) == pieces_map(ps.take(i as int)),
        decreases pieces@.len() - i,
    {
        proof {
            let t = ps.take(i + 1);
            assert(t.drop_last() =~= ps.take(i as int));
            assert(t.last() == ps[i as int]);
            assert(ps[i as int] == pieces@[i as int]@);
        }
        if pieces[i].len() > 0 {
            let (k, v) = decode_pair(&pieces[i]);
            map.insert(k, v);
        }
        assert(params_view(map@) =~= pieces_map(ps.take(i + 1)));
        i = i + 1;
    }
    assert(ps.take(ps.len() as int) =~= ps);
    map
}

/// The abstract content of a [`Request`].
pub struct RequestModel {
    pub method: Seq<char>,
    pub path: Seq<char>,
    pub query: Map<Seq<char>, Seq<char>>,
}

/// A parsed request line.
pub struct Request {
    pub method: String,
    pub path: String,
    pub query: StringHashMap<String>,
}

impl View for Request {
    type V = RequestModel;

    open spec fn view(&self) -> RequestModel {
        RequestModel { method: self.method@, path: self.path@, query: params_view(self.query@) }
    }
}

/// The value of a parameter, if the query has it and it is not empty.
pub open spec fn param_of(query: Map<Seq<char>, Seq<char>>, key: Seq<char>) -> Option<Seq<char>> {
    if query.contains_key(key) && query[key].len() > 0 {
        Some(query[key])
    } else {
        None
    }
}

impl Request {
    /// The value of parameter `key`; an empty value counts as missing.
    pub fn param(&self, key: &str) -> (r: Option<&str>)
        ensures
            match r {
                Some(v) => param_of(self@.query, key@) == Some(v@),
                None => param_of(self@.query, key@) is None,
            },
    {
        match self.query.get(key) {
            Some(v) => {
                if v.unicode_len() > 0 {
                    Some(v.as_str())
                } else {
                    None
                }
            },
            None => None,
        }
    }
}

/// The whitespace-separated words of `s`, as `str::split_whitespace`
/// gives them.
pub open spec fn ws_tokens(s: Seq<char>) -> Seq<Seq<char>>
    decreases s.len(),
{
    if s.len() == 0 {
        Seq::empty()
    } else {
        let t = ws_tokens(s.drop_last());
        let c = s.last();
        if is_unicode_whitespace(c) {
            t
        } else if s.len() >= 2 && !is_unicode_whitespace(s[s.len() - 2]) && t.len() > 0 {
            t.update(t.len() - 1, t.last().push(c))
        } else {
            t.push(seq![c])
        }
    }
}

/// The whitespace-separated words of `s`.
fn whitespace_tokens(s: &Vec<char>) -> (r: Vec<Vec<char>>)
    ensures
        r@.map_values(|v: Vec<char>| v@) == ws_tokens(s@),
{
    let mut tokens: Vec<Vec<char>> = Vec::new();
    let mut in_token = false;
    let mut i: usize = 0;
    while i < s.len()
        invariant
            i <= s@.len(),
            tokens@.map_values(|v: Vec<char>| v@) == ws_tokens(s@.take(i as int)),
            in_token == (i > 0 && !is_unicode_whitespace(s@[i - 1])),
            in_token ==> tokens@.len() > 0,
        decreases s@.len() - i,
    {
        let c = s[i];
        let ws = is_whitespace(c);
        let ghost before = tokens@.map_values(|v: Vec<char>| v@);
        proof {
            let t = s@.take(i + 1);
            assert(t.drop_last() =~= s@.take(i as int));
            assert(t.last() == c);
            if i > 0 {
                assert(t[t.len() - 2] == s@[i - 1]);
            }
        }
        if ws {
            in_token = false;
        } else if in_token {
            let mut last = tokens.pop().unwrap();
            last.push(c);
            tokens.push(last);
            in_token = true;
        } else {
            let mut fresh: Vec<char> = Vec::new();
            fresh.push(c);
            tokens.push(fresh);
            in_token = true;
        }
        assert(tokens@.map_values(|v: Vec<char>| v@) =~= ws_tokens(s@.take(i + 1)));
        i = i + 1;
    }
    assert(s@.take(s@.len() as int) =~= s@);
    tokens
}

/// The request a request line holds: its first word is the method, its
/// second the target, split at the first `?` into the path and the query.
/// A line with fewer than two words holds none.
pub open spec fn request_of(line: Seq<char>) -> Option<RequestModel> {
    let t = ws_tokens(line);
    if t.len() < 2 {
        None
    } else if exists|i: int| first_at(t[1], '?', i) {
        let i = choose|i: int| first_at(t[1], '?', i);
        Some(RequestModel { method: t[0], path: t[1].take(i), query: query_map(t[1].skip(i + 1)) })
    } else {
        Some(RequestModel { method: t[0], path: t[1], query: Map::empty() })
    }
}

/// Reads the request line of a GET request (the headers that follow it
/// carry nothing this server uses).
pub fn parse_request_line(line: &str) -> (r: Option<Request>)
    ensures
        match r {
            Some(req) => request_of(line@) == Some(req@),
            None => request_of(line@) is None,
        },
{
    let chars = str_chars(line);
    let tokens = whitespace_tokens(&chars);
    let ghost t = ws_tokens(line@);
    if tokens.len() < 2 {
        return None;
    }
    assert(tokens@[0]@ == t[0] && tokens@[1]@ == t[1]);
    let method = string_from_chars(tokens[0].as_slice());
    let target = &tokens[1];
    let mut i: usize = 0;
    while i < target.len()
        invariant
            i <= target@.len(),
            forall|j: int| 0 <= j < i ==> target@[j] != '?',
        ensures
            i <= target@.len(),
            forall|j: int| 0 <= j < i ==> target@[j] != '?',
            i < target@.len() ==> target@[i as int] == '?',
        decreases target@.len() - i,
    {
        if target[i] == '?' {
            break;
        }
        i = i + 1;
    }
    if i < target.len() {
        assert(first_at(target@, '?', i as int));
        proof {
            let c = choose|c: int| first_at(target@, '?', c);
            if c < i {
                assert(target@[c] != '?');
            } else if c > i {
                assert(target@[i as int] != '?');
            }
        }
        let path = string_of_range(target.as_slice(), 0, i);
        let rest = string_of_range(target.as_slice(), i + 1, target.len());
        assert(path@ =~= target@.take(i as int));
        assert(rest@ =~= target@.skip(i + 1));
        let query = parse_query(rest.as_str());
        Some(Request { method, path, query })
    } else {
        proof {
            if exists|c: int| first_at(target@, '?', c) {
                let c = choose|c: int| first_at(target@, '?', c);
                assert(target@[c] != '?');
            }
        }
        let path = string_from_chars(target.as_slice());
        let query: StringHashMap<String> = StringHashMap::new();
        assert(params_view(query@) =~= Map::<Seq<char>, Seq<char>>::empty());
        Some(Request { method, path, query })
    }
}

/// What the test page answers a request with.
#[derive(Debug, PartialEq, Eq)]
pub enum Route {
    /// Anything but `GET`.
    MethodNotAllowed,
    /// The page itself.
    Index,
    /// Analyze a word.
    Analyze(String),
    /// Look up a root.
    Root(String),
    /// List a root's family.
    Family(String),
    /// An endpoint that needs a parameter the query lacks (its name).
    MissingParam(String),
    /// Any other path.
    NotFound,
}

/// The abstract content of a [`Route`].
pub enum RouteModel {
    MethodNotAllowed,
    Index,
    Analyze(Seq<char>),
    Root(Seq<char>),
    Family(Seq<char>),
    MissingParam(Seq<char>),
    NotFound,
}

impl View for Route {
    type V = RouteModel;

    open spec fn view(&self) -> RouteModel {
        match self {
            Route::MethodNotAllowed => RouteModel::MethodNotAllowed,
            Route::Index => RouteModel::Index,
            Route::Analyze(w) => RouteModel::Analyze(w@),
            Route::Root(t) => RouteModel::Root(t@),
            Route::Family(t) => RouteModel::Family(t@),
            Route::MissingParam(n) => RouteModel::MissingParam(n@),
            Route::NotFound => RouteModel::NotFound,
        }
    }
}

/// The endpoint a parameter is read from, by name.
pub open spec fn with_param(
    query: Map<Seq<char>, Seq<char>>,
    name: Seq<char>,
    found: spec_fn(Seq<char>) -> RouteModel,
) -> RouteModel {
    match param_of(query, name) {
        Some(v) => found(v),
        None => RouteModel::MissingParam(name),
    }
}

/// Which answer a request gets.
pub open spec fn route_of(req: RequestModel) -> RouteModel {
    if req.method != "GET"@ {
        RouteModel::MethodNotAllowed
    } else if req.path == "/"@ || req.path == "/index.html"@ {
        RouteModel::Index
    } else if req.path == "/api/analyze"@ {
        with_param(req.query, "word"@, |w: Seq<char>| RouteModel::Analyze(w))
    } else if req.path == "/api/root"@ {
        with_param(req.query, "text"@, |t: Seq<char>| RouteModel::Root(t))
    } else if req.path == "/api/family"@ {
        with_param(req.query, "text"@, |t: Seq<char>| RouteModel::Family(t))
    } else {
        RouteModel::NotFound
    }
}

/// Decides which answer a request gets: only `GET` is served; `/` and
/// `/index.html` are the page; the three API endpoints need their
/// parameter (`word` for analyze, `text` for root and family), non-empty;
/// every other path is unknown.
pub fn route(req: &Request) -> (r: Route)
    ensures
        r@ == route_of(req@),
{
    if !str_eq(req.method.as_str(), "GET") {
        return Route::MethodNotAllowed;
    }
    let path = req.path.as_str();
    if str_eq(path, "/") || str_eq(path, "/index.html") {
        Route::Index
    } else if str_eq(path, "/api/analyze") {
        match req.param("word") {
            Some(w) => Route::Analyze(w.to_string()),
            None => Route::MissingParam("word".to_string()),
        }
    } else if str_eq(path, "/api/root") {
        match req.param("text") {
            Some(t) => Route::Root(t.to_string()),
            None => Route::MissingParam("text".to_string()),
        }
    } else if str_eq(path, "/api/family") {
        match req.param("text") {
            Some(t) => Route::Family(t.to_string()),
            None => Route::MissingParam("text".to_string()),
        }
    } else {
        Route::NotFound
    }
}

} // verus!
