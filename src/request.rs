//! Parsing a request buffer into method, path, version, headers and body.

use vstd::prelude::*;
use crate::headers::Headers;
use crate::scan::{copy_range, find, find_between, lemma_find_between_at, occurs_at};

verus! {

/// Carriage return, line feed.
pub open spec fn crlf() -> Seq<u8> {
    seq![13u8, 10u8]
}

/// A single space.
pub open spec fn space() -> Seq<u8> {
    seq![32u8]
}

/// The separator between a header's name and its value.
pub open spec fn colon_space() -> Seq<u8> {
    seq![58u8, 32u8]
}

/// The request line of `s`: method, path and version, and the index just
/// past its line ending. The line is split at its first two spaces; method
/// and path must be non-empty, the version is the rest of the line.
pub open spec fn parse_request_line(s: Seq<u8>) -> Option<(Seq<u8>, Seq<u8>, Seq<u8>, int)> {
    match find_between(s, crlf(), 0, s.len() as int) {
        None => None,
        Some(e) => match find_between(s, space(), 0, e) {
            None => None,
            Some(a) => match find_between(s, space(), a + 1, e) {
                None => None,
                Some(b) => if a == 0 || b == a + 1 {
                    None
                } else {
                    Some((s.subrange(0, a), s.subrange(a + 1, b), s.subrange(b + 1, e), e + 2))
                },
            },
        },
    }
}

/// The header line of `s` that starts at index `i`: its name and value,
/// split at the first `": "` of the line, and the index just past its line
/// ending. `None` where the line has no line ending or no separator.
pub open spec fn header_line_at(s: Seq<u8>, i: int) -> Option<(Seq<u8>, Seq<u8>, int)> {
    match find_between(s, crlf(), i, s.len() as int) {
        None => None,
        Some(e) => match find_between(s, colon_space(), i, e) {
            None => None,
            Some(c) => Some((s.subrange(i, c), s.subrange(c + 2, e), e + 2)),
        },
    }
}

/// The header lines of `s` from index `i` on, added to `m` in order, and
/// the index just past the blank line that ends them. A line that is not a
/// header line makes the whole block malformed.
pub open spec fn parse_header_lines(s: Seq<u8>, i: int, m: Map<Seq<u8>, Seq<u8>>) -> Option<
    (Map<Seq<u8>, Seq<u8>>, int),
>
    decreases s.len() - i,
{
    if i < 0 || i > s.len() {
        None
    } else if find_between(s, crlf(), i, s.len() as int) == Some(i) {
        Some((m, i + 2))
    } else {
        match header_line_at(s, i) {
            None => None,
            Some((name, value, j)) => if j <= i || j > s.len() {
                None
            } else {
                parse_header_lines(s, j, m.insert(name, value))
            },
        }
    }
}

/// A request as mathematical values.
pub struct RequestView {
    pub method: Seq<u8>,
    pub path: Seq<u8>,
    pub version: Seq<u8>,
    pub headers: Map<Seq<u8>, Seq<u8>>,
    pub body: Seq<u8>,
}

/// The request that the bytes `s` hold, or `None` where they are malformed.
/// The body is every byte after the blank line that ends the headers.
pub open spec fn parse_spec(s: Seq<u8>) -> Option<RequestView> {
    match parse_request_line(s) {
        None => None,
        Some((method, path, version, i)) => match parse_header_lines(s, i, Map::empty()) {
            None => None,
            Some((headers, j)) => Some(
                RequestView { method, path, version, headers, body: s.subrange(j, s.len() as int) },
            ),
        },
    }
}

/// A parsed request.
pub struct Request {
    pub method: Vec<u8>,
    pub path: Vec<u8>,
    pub version: Vec<u8>,
    pub headers: Headers,
    pub body: Vec<u8>,
}

impl View for Request {
    type V = RequestView;

    open spec fn view(&self) -> RequestView {
        RequestView {
            method: self.method@,
            path: self.path@,
            version: self.version@,
            headers: self.headers@,
            body: self.body@,
        }
    }
}

/// Why a buffer is not a request.
#[derive(Debug, Clone, Copy, PartialEq, Eq)]
pub enum ParseError {
    /// A required delimiter is missing, or the method or path is empty.
    MalformedRequest,
}

/// The bytes of `crlf()`.
pub fn crlf_bytes() -> (r: Vec<u8>)
    ensures
        r@ == crlf(),
{
    let mut r: Vec<u8> = Vec::new();
    r.push(13u8);
    r.push(10u8);
    assert(r@ =~= crlf());
    r
}

/// The bytes of `space()`.
pub fn space_bytes() -> (r: Vec<u8>)
    ensures
        r@ == space(),
{
    let mut r: Vec<u8> = Vec::new();
    r.push(32u8);
    assert(r@ =~= space());
    r
}

/// The bytes of `colon_space()`.
pub fn colon_space_bytes() -> (r: Vec<u8>)
    ensures
        r@ == colon_space(),
{
    let mut r: Vec<u8> = Vec::new();
    r.push(58u8);
    r.push(32u8);
    assert(r@ =~= colon_space());
    r
}

/// Splits the request line off `buf`: method, path, version and the index
/// just past the line ending.
pub fn http_command(buf: &[u8]) -> (r: Option<(Vec<u8>, Vec<u8>, Vec<u8>, usize)>)
    ensures
        match parse_request_line(buf@) {
            None => r is None,
            Some((m, p, v, i)) => (r matches Some((m2, p2, v2, i2)) && m2@ == m && p2@ == p
                && v2@ == v && i2 == i),
        },
{
    let nl = crlf_bytes();
    let sp = space_bytes();
    let e = match find(buf, nl.as_slice(), 0, buf.len()) {
        None => return None,
        Some(e) => e,
    };
    proof {
        crate::scan::lemma_find_between(buf@, crlf(), 0, buf@.len() as int);
    }
    let a = match find(buf, sp.as_slice(), 0, e) {
        None => return None,
        Some(a) => a,
    };
    proof {
        crate::scan::lemma_find_between(buf@, space(), 0, e as int);
    }
    let b = match find(buf, sp.as_slice(), a + 1, e) {
        None => return None,
        Some(b) => b,
    };
    proof {
        crate::scan::lemma_find_between(buf@, space(), a + 1, e as int);
    }
    if a == 0 || b == a + 1 {
        return None;
    }
    let method = copy_range(buf, 0, a);
    let path = copy_range(buf, a + 1, b);
    let version = copy_range(buf, b + 1, e);
    Some((method, path, version, e + 2))
}

/// Reads the header line of `buf` that starts at index `start`: name,
/// value and the index just past the line ending.
pub fn http_header(buf: &[u8], start: usize) -> (r: Option<(Vec<u8>, Vec<u8>, usize)>)
    ensures
        match header_line_at(buf@, start as int) {
            None => r is None,
            Some((n, v, j)) => (r matches Some((n2, v2, j2)) && n2@ == n && v2@ == v && j2 == j),
        },
        r matches Some((_, _, j)) ==> start + 2 <= j <= buf@.len(),
{
    let nl = crlf_bytes();
    let sep = colon_space_bytes();
    let e = match find(buf, nl.as_slice(), start, buf.len()) {
        None => return None,
        Some(e) => e,
    };
    proof {
        crate::scan::lemma_find_between(buf@, crlf(), start as int, buf@.len() as int);
    }
    let c = match find(buf, sep.as_slice(), start, e) {
        None => return None,
        Some(c) => c,
    };
    proof {
        crate::scan::lemma_find_between(buf@, colon_space(), start as int, e as int);
    }
    let name = copy_range(buf, start, c);
    let value = copy_range(buf, c + 2, e);
    Some((name, value, e + 2))
}

/// Whether a line ending starts at index `i` of `buf`.
fn blank_line_at(buf: &[u8], i: usize) -> (r: bool)
    ensures
        r == (find_between(buf@, crlf(), i as int, buf@.len() as int) == Some(i as int)),
        r ==> i + 2 <= buf@.len(),
{
    let nl = crlf_bytes();
    let r = crate::scan::matches_at(buf, nl.as_slice(), i);
    proof {
        if i <= buf@.len() {
            crate::scan::lemma_find_between(buf@, crlf(), i as int, buf@.len() as int);
        }
    }
    r
}

/// Reads the header lines of `buf` from index `start` on, up to and
/// including the blank line that ends them.
pub fn http_headers(buf: &[u8], start: usize) -> (r: Option<(Headers, usize)>)
    ensures
        match parse_header_lines(buf@, start as int, Map::empty()) {
            None => r is None,
            Some((m, j)) => (r matches Some((h, j2)) && h@ == m && j2 == j),
        },
        r matches Some((_, j)) ==> j <= buf@.len(),
{
    if start > buf.len() {
        return None;
    }
    let n: usize = buf.len();
    let mut headers = Headers::new();
    let mut i: usize = start;
    loop
        invariant
            n == buf@.len(),
            i <= buf@.len(),
            parse_header_lines(buf@, start as int, Map::empty()) == parse_header_lines(
                buf@,
                i as int,
                headers@,
            ),
        decreases buf@.len() - i,
    {
        if blank_line_at(buf, i) {
            return Some((headers, i + 2));
        }
        match http_header(buf, i) {
            None => return None,
            Some((name, value, next)) => {
                headers.insert(name, value);
                i = next;
            },
        }
    }
}

/// Parses a whole request buffer.
pub fn http_request(buf: &[u8]) -> (r: Result<Request, ParseError>)
    ensures
        match parse_spec(buf@) {
            None => r is Err,
            Some(v) => (r matches Ok(q) && q@ == v),
        },
{
    let (method, path, version, i) = match http_command(buf) {
        None => return Err(ParseError::MalformedRequest),
        Some(t) => t,
    };
    let (headers, j) = match http_headers(buf, i) {
        None => return Err(ParseError::MalformedRequest),
        Some(t) => t,
    };
    let body = copy_range(buf, j, buf.len());
    Ok(Request { method, path, version, headers, body })
}

/// No byte of `s` is `b`.
pub open spec fn excludes(s: Seq<u8>, b: u8) -> bool {
    forall|i: int| 0 <= i < s.len() ==> s[i] != b
}

/// No occurrence of `pat` starts in `i .. k` where `s` differs from the
/// first byte of `pat`.
proof fn lemma_first_byte_absent(s: Seq<u8>, pat: Seq<u8>, i: int, k: int)
    requires
        pat.len() > 0,
        forall|j: int| i <= j < k ==> s[j] != pat[0],
    ensures
        forall|j: int| i <= j < k ==> !occurs_at(s, pat, j),
{
    assert forall|j: int| i <= j < k implies !occurs_at(s, pat, j) by {
        if occurs_at(s, pat, j) {
            assert(s.subrange(j, j + pat.len())[0] == s[j]);
        }
    }
}

/// The bytes of the request line `method SP path SP version CRLF`.
pub open spec fn request_line(method: Seq<u8>, path: Seq<u8>, version: Seq<u8>) -> Seq<u8> {
    method + space() + path + space() + version + crlf()
}

/// A request line whose method and path are non-empty and free of spaces,
/// and whose three parts hold no carriage return, is split back into exactly
/// its method, path and version, whatever follows it.
pub proof fn lemma_request_line_round_trip(
    method: Seq<u8>,
    path: Seq<u8>,
    version: Seq<u8>,
    rest: Seq<u8>,
)
    requires
        method.len() > 0,
        path.len() > 0,
        excludes(method, 32),
        excludes(path, 32),
        excludes(method, 13),
        excludes(path, 13),
        excludes(version, 13),
    ensures
        parse_request_line(request_line(method, path, version) + rest) == Some(
            (method, path, version, request_line(method, path, version).len() as int),
        ),
{
    let line = request_line(method, path, version);
    let s = line + rest;
    let a = method.len() as int;
    let b = a + 1 + path.len();
    let e = b + 1 + version.len();
    assert(forall|j: int| 0 <= j < a ==> s[j] == method[j]);
    assert(s[a] == 32);
    assert(forall|j: int| a < j < b ==> s[j] == path[j - a - 1]);
    assert(s[b] == 32);
    assert(forall|j: int| b < j < e ==> s[j] == version[j - b - 1]);
    assert(s[e] == 13 && s[e + 1] == 10);
    assert(s.subrange(e, e + 2) =~= crlf());
    lemma_first_byte_absent(s, crlf(), 0, e);
    lemma_find_between_at(s, crlf(), 0, s.len() as int, e);
    assert(s.subrange(a, a + 1) =~= space());
    lemma_first_byte_absent(s, space(), 0, a);
    lemma_find_between_at(s, space(), 0, e, a);
    assert(s.subrange(b, b + 1) =~= space());
    lemma_first_byte_absent(s, space(), a + 1, b);
    lemma_find_between_at(s, space(), a + 1, e, b);
    assert(s.subrange(0, a) =~= method);
    assert(s.subrange(a + 1, b) =~= path);
    assert(s.subrange(b + 1, e) =~= version);
}

/// The bytes of the header line `name: value CRLF`.
pub open spec fn header_line(name: Seq<u8>, value: Seq<u8>) -> Seq<u8> {
    name + colon_space() + value + crlf()
}

/// The header lines of `ps`, in order.
pub open spec fn header_block(ps: Seq<(Seq<u8>, Seq<u8>)>) -> Seq<u8>
    decreases ps.len(),
{
    if ps.len() == 0 {
        Seq::empty()
    } else {
        header_line(ps[0].0, ps[0].1) + header_block(ps.drop_first())
    }
}

/// `m` with the pairs of `ps` inserted in order, so that the last pair for
/// a name gives its value.
pub open spec fn insert_all(m: Map<Seq<u8>, Seq<u8>>, ps: Seq<(Seq<u8>, Seq<u8>)>) -> Map<
    Seq<u8>,
    Seq<u8>,
>
    decreases ps.len(),
{
    if ps.len() == 0 {
        m
    } else {
        insert_all(m.insert(ps[0].0, ps[0].1), ps.drop_first())
    }
}

/// A header whose name holds no colon and no carriage return, and whose
/// value holds no carriage return.
pub open spec fn well_formed_header(name: Seq<u8>, value: Seq<u8>) -> bool {
    excludes(name, 58) && excludes(name, 13) && excludes(value, 13)
}

/// Header lines of well-formed headers, followed by a blank line, are read
/// back as the pairs they hold, inserted in order.
pub proof fn lemma_header_lines(
    s: Seq<u8>,
    i: int,
    ps: Seq<(Seq<u8>, Seq<u8>)>,
    m: Map<Seq<u8>, Seq<u8>>,
    body: Seq<u8>,
)
    requires
        0 <= i <= s.len(),
        s.subrange(i, s.len() as int) == header_block(ps) + crlf() + body,
        forall|k: int| 0 <= k < ps.len() ==> well_formed_header(#[trigger] ps[k].0, ps[k].1),
    ensures
        parse_header_lines(s, i, m) == Some((insert_all(m, ps), s.len() - body.len())),
    decreases ps.len(),
{
    let t = s.subrange(i, s.len() as int);
    assert(forall|k: int| 0 <= k < t.len() ==> s[i + k] == t[k]);
    if ps.len() == 0 {
        assert(t =~= crlf() + body);
        assert(s.subrange(i, i + 2) =~= crlf());
        lemma_find_between_at(s, crlf(), i, s.len() as int, i);
    } else {
        let name = ps[0].0;
        let value = ps[0].1;
        assert(well_formed_header(name, value));
        let tail = header_block(ps.drop_first()) + crlf() + body;
        assert(t =~= header_line(name, value) + tail);
        let c = i + name.len();
        let e = c + 2 + value.len();
        let line = header_line(name, value);
        assert(forall|k: int| 0 <= k < line.len() ==> t[k] == line[k]);
        assert forall|j: int| i <= j < c implies s[j] == name[j - i] by {
            assert(s[j] == t[j - i]);
            assert(line[j - i] == name[j - i]);
        }
        assert(s[c] == 58 && s[c + 1] == 32) by {
            assert(s[c] == t[c - i] && s[c + 1] == t[c + 1 - i]);
            assert(line[c - i] == 58 && line[c + 1 - i] == 32);
        }
        assert forall|j: int| c + 2 <= j < e implies s[j] == value[j - c - 2] by {
            assert(s[j] == t[j - i]);
            assert(line[j - i] == value[j - c - 2]);
        }
        assert(s[e] == 13 && s[e + 1] == 10) by {
            assert(s[e] == t[e - i] && s[e + 1] == t[e + 1 - i]);
            assert(line[e - i] == 13 && line[e + 1 - i] == 10);
        }
        assert(s.subrange(e, e + 2) =~= crlf());
        lemma_first_byte_absent(s, crlf(), i, e);
        lemma_find_between_at(s, crlf(), i, s.len() as int, e);
        assert(s.subrange(c, c + 2) =~= colon_space());
        lemma_first_byte_absent(s, colon_space(), i, c);
        lemma_find_between_at(s, colon_space(), i, e, c);
        assert(s.subrange(i, c) =~= name);
        assert(s.subrange(c + 2, e) =~= value);
        assert(e + 2 - i == line.len());
        assert(forall|k: int| 0 <= k < tail.len() ==> t[line.len() + k] == tail[k]);
        assert forall|k: int| 0 <= k < tail.len() implies s[e + 2 + k] == tail[k] by {
            assert(s[e + 2 + k] == t[line.len() + k]);
        }
        assert(s.subrange(e + 2, s.len() as int) =~= tail);
        assert forall|k: int| 0 <= k < ps.drop_first().len() implies well_formed_header(
            #[trigger] ps.drop_first()[k].0,
            ps.drop_first()[k].1,
        ) by {
            assert(ps.drop_first()[k] == ps[k + 1]);
        }
        lemma_header_lines(s, e + 2, ps.drop_first(), m.insert(name, value), body);
    }
}

/// The names of the pairs in `ps`.
pub open spec fn names(ps: Seq<(Seq<u8>, Seq<u8>)>) -> Set<Seq<u8>> {
    Set::new(|n: Seq<u8>| exists|k: int| 0 <= k < ps.len() && ps[k].0 == n)
}

/// Inserting `ps` in order adds exactly their names, and each name ends up
/// with the value of its last pair.
pub proof fn lemma_insert_all(m: Map<Seq<u8>, Seq<u8>>, ps: Seq<(Seq<u8>, Seq<u8>)>)
    ensures
        insert_all(m, ps).dom() == m.dom() + names(ps),
        forall|k: int|
            0 <= k < ps.len() && (forall|l: int| k < l < ps.len() ==> ps[l].0 != ps[k].0)
                ==> insert_all(m, ps)[#[trigger] ps[k].0] == ps[k].1,
        forall|n: Seq<u8>| !names(ps).contains(n) ==> insert_all(m, ps).dom().contains(n)
            ==> #[trigger] insert_all(m, ps)[n] == m[n],
    decreases ps.len(),
{
    if ps.len() == 0 {
        assert(names(ps) =~= Set::empty());
        assert(m.dom() + names(ps) =~= m.dom());
    } else {
        let rest = ps.drop_first();
        let m1 = m.insert(ps[0].0, ps[0].1);
        lemma_insert_all(m1, rest);
        assert forall|n: Seq<u8>| names(ps).contains(n) <==> n == ps[0].0 || names(rest).contains(
            n,
        ) by {
            if names(ps).contains(n) && n != ps[0].0 {
                let k = choose|k: int| 0 <= k < ps.len() && ps[k].0 == n;
                assert(rest[k - 1] == ps[k]);
            }
            if names(rest).contains(n) {
                let k = choose|k: int| 0 <= k < rest.len() && rest[k].0 == n;
                assert(ps[k + 1] == rest[k]);
            }
        }
        assert(insert_all(m, ps).dom() =~= m.dom() + names(ps));
        assert forall|k: int|
            0 <= k < ps.len() && (forall|l: int| k < l < ps.len() ==> ps[l].0 != ps[k].0)
                implies insert_all(m, ps)[#[trigger] ps[k].0] == ps[k].1 by {
            if k > 0 {
                assert(rest[k - 1] == ps[k]);
                assert forall|l: int| k - 1 < l < rest.len() implies #[trigger] rest[l].0 != rest[k - 1].0 by {
                    assert(rest[l] == ps[l + 1]);
                }
            } else {
                assert(!names(rest).contains(ps[0].0)) by {
                    if names(rest).contains(ps[0].0) {
                        let l = choose|l: int| 0 <= l < rest.len() && rest[l].0 == ps[0].0;
                        assert(rest[l] == ps[l + 1]);
                    }
                }
            }
        }
    }
}

/// Pairs with distinct names, inserted into a finite map that has none of
/// them, add one entry each.
pub proof fn lemma_insert_all_len(m: Map<Seq<u8>, Seq<u8>>, ps: Seq<(Seq<u8>, Seq<u8>)>)
    requires
        m.dom().finite(),
        forall|k: int, l: int| 0 <= k < l < ps.len() ==> ps[k].0 != ps[l].0,
        forall|k: int| 0 <= k < ps.len() ==> !m.dom().contains(#[trigger] ps[k].0),
    ensures
        insert_all(m, ps).dom().finite(),
        insert_all(m, ps).dom().len() == m.dom().len() + ps.len(),
    decreases ps.len(),
{
    if ps.len() > 0 {
        let rest = ps.drop_first();
        let m1 = m.insert(ps[0].0, ps[0].1);
        assert forall|k: int| 0 <= k < rest.len() implies !m1.dom().contains(#[trigger] rest[k].0) by {
            assert(rest[k] == ps[k + 1]);
        }
        assert forall|k: int, l: int| 0 <= k < l < rest.len() implies rest[k].0 != rest[l].0 by {
            assert(rest[k] == ps[k + 1] && rest[l] == ps[l + 1]);
        }
        lemma_insert_all_len(m1, rest);
    }
}

/// A request made of a valid request line, well-formed header lines, a blank
/// line and a body is parsed back into exactly those parts; its headers map
/// each name to the value of its last line.
pub proof fn lemma_parse_request(
    method: Seq<u8>,
    path: Seq<u8>,
    version: Seq<u8>,
    ps: Seq<(Seq<u8>, Seq<u8>)>,
    body: Seq<u8>,
)
    requires
        method.len() > 0,
        path.len() > 0,
        excludes(method, 32),
        excludes(path, 32),
        excludes(method, 13),
        excludes(path, 13),
        excludes(version, 13),
        forall|k: int| 0 <= k < ps.len() ==> well_formed_header(#[trigger] ps[k].0, ps[k].1),
    ensures
        parse_spec(request_line(method, path, version) + header_block(ps) + crlf() + body) == Some(
            RequestView { method, path, version, headers: insert_all(Map::empty(), ps), body },
        ),
{
    let line = request_line(method, path, version);
    let rest = header_block(ps) + crlf() + body;
    let s = line + rest;
    lemma_request_line_round_trip(method, path, version, rest);
    assert(s.subrange(line.len() as int, s.len() as int) =~= rest);
    lemma_header_lines(s, line.len() as int, ps, Map::empty(), body);
    assert(s.subrange(s.len() - body.len(), s.len() as int) =~= body);
    assert(line + header_block(ps) + crlf() + body =~= s);
}

/// N well-formed header lines read as a map of exactly their names, each
/// holding the value of its last line; with N distinct names the map has N
/// entries.
pub proof fn lemma_header_count(
    method: Seq<u8>,
    path: Seq<u8>,
    version: Seq<u8>,
    ps: Seq<(Seq<u8>, Seq<u8>)>,
    body: Seq<u8>,
)
    requires
        method.len() > 0,
        path.len() > 0,
        excludes(method, 32),
        excludes(path, 32),
        excludes(method, 13),
        excludes(path, 13),
        excludes(version, 13),
        forall|k: int| 0 <= k < ps.len() ==> well_formed_header(#[trigger] ps[k].0, ps[k].1),
    ensures
        parse_spec(request_line(method, path, version) + header_block(ps) + crlf() + body) matches Some(
            r,
        ) && r.headers.dom() == names(ps) && (forall|k: int|
            0 <= k < ps.len() && (forall|l: int| k < l < ps.len() ==> ps[l].0 != ps[k].0)
                ==> r.headers[#[trigger] ps[k].0] == ps[k].1) && ((forall|k: int, l: int|
            0 <= k < l < ps.len() ==> ps[k].0 != ps[l].0) ==> r.headers.dom().len() == ps.len()),
{
    lemma_parse_request(method, path, version, ps, body);
    let e = Map::<Seq<u8>, Seq<u8>>::empty();
    lemma_insert_all(e, ps);
    assert(e.dom() + names(ps) =~= names(ps));
    if forall|k: int, l: int| 0 <= k < l < ps.len() ==> ps[k].0 != ps[l].0 {
        lemma_insert_all_len(e, ps);
    }
}

} // verus!
