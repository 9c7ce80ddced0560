//! Responses and their wire format.
//!
//! A response is framed so that `Content-Length`, where present, bounds the
//! body exactly: nothing follows the body on the wire.

use vstd::prelude::*;
use crate::request::{colon_space, crlf, space};
use crate::scan::{append, ascii, ascii_bytes, ascii_vec};

verus! {

/// The decimal digits of `n`, most significant first.
pub open spec fn decimal(n: nat) -> Seq<u8>
    decreases n,
{
    if n < 10 {
        seq![(48 + n) as u8]
    } else {
        decimal(n / 10).push((48 + n % 10) as u8)
    }
}

/// A response as mathematical values.
pub struct ResponseView {
    pub status: u16,
    pub reason: Seq<u8>,
    pub headers: Seq<(Seq<u8>, Seq<u8>)>,
    pub body: Seq<u8>,
}

/// A response: status code, reason phrase, headers in wire order, body.
pub struct Response {
    pub status: u16,
    pub reason: Vec<u8>,
    pub headers: Vec<(Vec<u8>, Vec<u8>)>,
    pub body: Vec<u8>,
}

impl View for Response {
    type V = ResponseView;

    open spec fn view(&self) -> ResponseView {
        ResponseView {
            status: self.status,
            reason: self.reason@,
            headers: self.headers@.map_values(|p: (Vec<u8>, Vec<u8>)| (p.0@, p.1@)),
            body: self.body@,
        }
    }
}

/// The header lines `Name: value\r\n`, in order.
pub open spec fn header_lines(hs: Seq<(Seq<u8>, Seq<u8>)>) -> Seq<u8>
    decreases hs.len(),
{
    if hs.len() == 0 {
        Seq::empty()
    } else {
        header_lines(hs.drop_last()) + hs.last().0 + colon_space() + hs.last().1 + crlf()
    }
}

/// The bytes that carry `r`: status line, header lines, blank line, body.
pub open spec fn wire(r: ResponseView) -> Seq<u8> {
    ascii("HTTP/1.1"@) + space() + decimal(r.status as nat) + space() + r.reason + crlf()
        + header_lines(r.headers) + crlf() + r.body
}

/// Every `Content-Length` header of `r` gives the length of its body.
pub open spec fn content_length_exact(r: ResponseView) -> bool {
    forall|i: int|
        0 <= i < r.headers.len() && #[trigger] r.headers[i].0 == ascii("Content-Length"@)
            ==> r.headers[i].1 == decimal(r.body.len())
}

/// A response with no headers and no body.
pub open spec fn bare(status: u16, reason: Seq<char>) -> ResponseView {
    ResponseView { status, reason: ascii(reason), headers: Seq::empty(), body: Seq::empty() }
}

/// `200 OK` carrying `body` as `content_type`, with its length.
pub open spec fn with_body(content_type: Seq<u8>, body: Seq<u8>) -> ResponseView {
    ResponseView {
        status: 200,
        reason: ascii("OK"@),
        headers: seq![
            (ascii("Content-Type"@), content_type),
            (ascii("Content-Length"@), decimal(body.len())),
        ],
        body,
    }
}

/// Appends the decimal digits of `n` to `out`.
pub fn push_decimal(out: &mut Vec<u8>, n: usize)
    ensures
        final(out)@ == old(out)@ + decimal(n as nat),
    decreases n,
{
    let ghost start = out@;
    if n >= 10 {
        push_decimal(out, n / 10);
    }
    let d: u8 = (n % 10) as u8;
    out.push(48 + d);
    if n >= 10 {
        assert(out@ =~= start + decimal(n as nat));
    } else {
        assert(out@ =~= start + decimal(n as nat));
    }
}

/// The decimal digits of `n`.
pub fn decimal_bytes(n: usize) -> (r: Vec<u8>)
    ensures
        r@ == decimal(n as nat),
{
    let mut r: Vec<u8> = Vec::new();
    push_decimal(&mut r, n);
    assert(r@ =~= decimal(n as nat));
    r
}

impl Response {
    /// `200 OK` with no headers and no body.
    pub fn ok() -> (r: Response)
        ensures
            r@ == bare(200, "OK"@),
            content_length_exact(r@),
    {
        proof {
            reveal_strlit("OK");
        }
        let r = Response { status: 200, reason: ascii_vec("OK"), headers: Vec::new(), body: Vec::new() };
        assert(r@.headers =~= Seq::empty());
        r
    }

    /// `201 Created` with no headers and no body.
    pub fn created() -> (r: Response)
        ensures
            r@ == bare(201, "Created"@),
            content_length_exact(r@),
    {
        proof {
            reveal_strlit("Created");
        }
        let r = Response {
            status: 201,
            reason: ascii_vec("Created"),
            headers: Vec::new(),
            body: Vec::new(),
        };
        assert(r@.headers =~= Seq::empty());
        r
    }

    /// `400 Bad Request` with no headers and no body.
    pub fn bad_request() -> (r: Response)
        ensures
            r@ == bare(400, "Bad Request"@),
            content_length_exact(r@),
    {
        proof {
            reveal_strlit("Bad Request");
        }
        let r = Response {
            status: 400,
            reason: ascii_vec("Bad Request"),
            headers: Vec::new(),
            body: Vec::new(),
        };
        assert(r@.headers =~= Seq::empty());
        r
    }

    /// `404 Not Found` with no headers and no body.
    pub fn not_found() -> (r: Response)
        ensures
            r@ == bare(404, "Not Found"@),
            content_length_exact(r@),
    {
        proof {
            reveal_strlit("Not Found");
        }
        let r = Response {
            status: 404,
            reason: ascii_vec("Not Found"),
            headers: Vec::new(),
            body: Vec::new(),
        };
        assert(r@.headers =~= Seq::empty());
        r
    }

    /// `200 OK` carrying `body` as `content_type`, with `Content-Length`.
    pub fn with_body(content_type: Vec<u8>, body: Vec<u8>) -> (r: Response)
        ensures
            r@ == with_body(content_type@, body@),
            content_length_exact(r@),
    {
        proof {
            reveal_strlit("OK");
            reveal_strlit("Content-Type");
            reveal_strlit("Content-Length");
        }
        let mut headers: Vec<(Vec<u8>, Vec<u8>)> = Vec::new();
        headers.push((ascii_vec("Content-Type"), content_type));
        headers.push((ascii_vec("Content-Length"), decimal_bytes(body.len())));
        let r = Response { status: 200, reason: ascii_vec("OK"), headers, body };
        assert(r@.headers =~= with_body(content_type@, body@).headers);
        assert(ascii("Content-Type"@) != ascii("Content-Length"@)) by {
            assert(ascii("Content-Type"@).len() != ascii("Content-Length"@).len());
        }
        r
    }

    /// The bytes that carry this response.
    pub fn to_bytes(&self) -> (r: Vec<u8>)
        ensures
            r@ == wire(self@),
    {
        proof {
            reveal_strlit("HTTP/1.1");
        }
        let nl = crate::request::crlf_bytes();
        let sp = crate::request::space_bytes();
        let sep = crate::request::colon_space_bytes();
        let mut out: Vec<u8> = Vec::new();
        append(&mut out, ascii_bytes("HTTP/1.1"));
        append(&mut out, sp.as_slice());
        push_decimal(&mut out, self.status as usize);
        append(&mut out, sp.as_slice());
        append(&mut out, self.reason.as_slice());
        append(&mut out, nl.as_slice());
        let ghost head = out@;
        let mut i: usize = 0;
        while i < self.headers.len()
            invariant
                i <= self.headers@.len(),
                nl@ == crlf(),
                sep@ == colon_space(),
                out@ == head + header_lines(self@.headers.subrange(0, i as int)),
            decreases self.headers.len() - i,
        {
            let ghost hs = self@.headers.subrange(0, i as int + 1);
            append(&mut out, self.headers[i].0.as_slice());
            append(&mut out, sep.as_slice());
            append(&mut out, self.headers[i].1.as_slice());
            append(&mut out, nl.as_slice());
            assert(hs.drop_last() =~= self@.headers.subrange(0, i as int));
            i = i + 1;
            assert(out@ =~= head + header_lines(self@.headers.subrange(0, i as int)));
        }
        assert(self@.headers.subrange(0, i as int) =~= self@.headers);
        append(&mut out, nl.as_slice());
        append(&mut out, self.body.as_slice());
        out
    }
}

} // verus!
