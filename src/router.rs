//! Route dispatch and the decisions of one connection.
//!
//! A connection reads one buffer, parses it, and dispatches on method and
//! path. What the dispatcher cannot do itself (reading or writing a file) it
//! hands back as an action; the caller performs it and reports the outcome.
//!
//! Choices made where the protocol leaves room:
//! - a malformed request, or a file route with no base directory, closes
//!   the connection without a response;
//! - `/user-agent` without a `User-Agent` header answers `400 Bad Request`;
//! - `Accept-Encoding` is not acted upon: bodies go out unencoded and no
//!   `Content-Encoding` is claimed.

use vstd::prelude::*;
use crate::request::{http_request, parse_spec, Request, RequestView};
use crate::response::{bare, content_length_exact, with_body, Response, ResponseView};
use crate::scan::{append, ascii, ascii_bytes, ascii_vec, bytes_eq, copy_range, starts_with};

verus! {

/// What a connection does next, as mathematical values.
pub enum ActionView {
    Respond(ResponseView),
    ReadFile(Seq<u8>),
    WriteFile(Seq<u8>, Seq<u8>),
    Close,
}

/// What a connection does next.
pub enum Action {
    /// Write this response, then close.
    Respond(Response),
    /// Read the file at this path, then report with `on_file_read`.
    ReadFile(Vec<u8>),
    /// Create or truncate the file at this path and write these bytes to it,
    /// then report with `on_file_written`.
    WriteFile(Vec<u8>, Vec<u8>),
    /// Close without a response.
    Close,
}

impl View for Action {
    type V = ActionView;

    open spec fn view(&self) -> ActionView {
        match self {
            Action::Respond(r) => ActionView::Respond(r@),
            Action::ReadFile(p) => ActionView::ReadFile(p@),
            Action::WriteFile(p, b) => ActionView::WriteFile(p@, b@),
            Action::Close => ActionView::Close,
        }
    }
}

/// `s` begins with `prefix`.
pub open spec fn has_prefix(s: Seq<u8>, prefix: Seq<u8>) -> bool {
    prefix.len() <= s.len() && s.subrange(0, prefix.len() as int) == prefix
}

/// What follows `prefix` in `s`.
pub open spec fn after(s: Seq<u8>, prefix: Seq<u8>) -> Seq<u8> {
    s.subrange(prefix.len() as int, s.len() as int)
}

/// The path of file `name` under base directory `dir`: their literal join.
pub open spec fn file_path(dir: Seq<u8>, name: Seq<u8>) -> Seq<u8> {
    dir + ascii("/"@) + name
}

/// The action for `req`, given the optional base directory. Routes are tried
/// in order: `/`, `/echo/<text>`, `/user-agent`, `GET /files/<name>`,
/// `POST /files/<name>`; anything else is not found.
pub open spec fn dispatch_spec(req: RequestView, dir: Option<Seq<u8>>) -> ActionView {
    let files = ascii("/files/"@);
    if req.path == ascii("/"@) {
        ActionView::Respond(bare(200, "OK"@))
    } else if has_prefix(req.path, ascii("/echo/"@)) {
        ActionView::Respond(with_body(ascii("text/plain"@), after(req.path, ascii("/echo/"@))))
    } else if req.path == ascii("/user-agent"@) {
        if req.headers.contains_key(ascii("User-Agent"@)) {
            ActionView::Respond(with_body(ascii("text/plain"@), req.headers[ascii("User-Agent"@)]))
        } else {
            ActionView::Respond(bare(400, "Bad Request"@))
        }
    } else if has_prefix(req.path, files) && req.method == ascii("GET"@) {
        match dir {
            None => ActionView::Close,
            Some(d) => ActionView::ReadFile(file_path(d, after(req.path, files))),
        }
    } else if has_prefix(req.path, files) && req.method == ascii("POST"@) {
        match dir {
            None => ActionView::Close,
            Some(d) => ActionView::WriteFile(file_path(d, after(req.path, files)), req.body),
        }
    } else {
        ActionView::Respond(bare(404, "Not Found"@))
    }
}

/// The action for the request buffer `buf`.
pub open spec fn handle_spec(buf: Seq<u8>, dir: Option<Seq<u8>>) -> ActionView {
    match parse_spec(buf) {
        None => ActionView::Close,
        Some(req) => dispatch_spec(req, dir),
    }
}

/// The view of an optional byte vector.
pub open spec fn opt_view(o: Option<Vec<u8>>) -> Option<Seq<u8>> {
    match o {
        None => None,
        Some(v) => Some(v@),
    }
}

/// The response to a file read: the contents as an octet stream, or not
/// found.
pub open spec fn read_response(contents: Option<Seq<u8>>) -> ResponseView {
    match contents {
        Some(b) => with_body(ascii("application/octet-stream"@), b),
        None => bare(404, "Not Found"@),
    }
}

/// The join of `dir`, `/` and `name`.
fn join_path(dir: &Vec<u8>, name: &[u8]) -> (r: Vec<u8>)
    ensures
        r@ == file_path(dir@, name@),
{
    proof {
        reveal_strlit("/");
    }
    let mut r = copy_range(dir.as_slice(), 0, dir.len());
    append(&mut r, ascii_bytes("/"));
    append(&mut r, name);
    assert(dir@.subrange(0, dir@.len() as int) =~= dir@);
    r
}

/// Selects the route for `req` and decides what to do.
pub fn dispatch(req: &Request, dir: &Option<Vec<u8>>) -> (r: Action)
    ensures
        r@ == dispatch_spec(req@, opt_view(*dir)),
        r@ matches ActionView::Respond(resp) ==> content_length_exact(resp),
{
    proof {
        reveal_strlit("/");
        reveal_strlit("/echo/");
        reveal_strlit("/user-agent");
        reveal_strlit("/files/");
        reveal_strlit("GET");
        reveal_strlit("POST");
        reveal_strlit("text/plain");
        reveal_strlit("User-Agent");
    }
    let path = req.path.as_slice();
    let files = ascii_bytes("/files/");
    if bytes_eq(path, ascii_bytes("/")) {
        Action::Respond(Response::ok())
    } else if starts_with(path, ascii_bytes("/echo/")) {
        let text = copy_range(path, 6, path.len());
        Action::Respond(Response::with_body(ascii_vec("text/plain"), text))
    } else if bytes_eq(path, ascii_bytes("/user-agent")) {
        match req.headers.get(ascii_bytes("User-Agent")) {
            Some(agent) => {
                let body = copy_range(agent.as_slice(), 0, agent.len());
                assert(agent@.subrange(0, agent@.len() as int) =~= agent@);
                Action::Respond(Response::with_body(ascii_vec("text/plain"), body))
            },
            None => Action::Respond(Response::bad_request()),
        }
    } else if starts_with(path, files) && bytes_eq(req.method.as_slice(), ascii_bytes("GET")) {
        match dir {
            None => Action::Close,
            Some(d) => Action::ReadFile(join_path(d, copy_range(path, 7, path.len()).as_slice())),
        }
    } else if starts_with(path, files) && bytes_eq(req.method.as_slice(), ascii_bytes("POST")) {
        match dir {
            None => Action::Close,
            Some(d) => {
                let body = copy_range(req.body.as_slice(), 0, req.body.len());
                assert(req.body@.subrange(0, req.body@.len() as int) =~= req.body@);
                Action::WriteFile(join_path(d, copy_range(path, 7, path.len()).as_slice()), body)
            },
        }
    } else {
        Action::Respond(Response::not_found())
    }
}

/// Whether `std::str::from_utf8` accepts the bytes as UTF-8.
pub uninterp spec fn utf8_valid(b: Seq<u8>) -> bool;

/// Relies on `std::str::from_utf8`: it returns `Ok` exactly when the bytes
/// are valid UTF-8, which depends on the bytes alone.
#[verifier::external_body]
fn is_utf8(b: &[u8]) -> (r: bool)
    ensures
        r == utf8_valid(b@),
{
    std::str::from_utf8(b).is_ok()
}

/// Parses request bytes already known to be text and decides what to do.
pub fn handle_text(buf: &[u8], dir: &Option<Vec<u8>>) -> (r: Action)
    ensures
        r@ == handle_spec(buf@, opt_view(*dir)),
        r@ matches ActionView::Respond(resp) ==> content_length_exact(resp),
{
    match http_request(buf) {
        Err(_) => Action::Close,
        Ok(req) => dispatch(&req, dir),
    }
}

/// Decides what to do with the bytes read from a connection: a buffer that
/// is not UTF-8 text is closed on, any other is parsed and dispatched.
pub fn handle_request(buf: &[u8], dir: &Option<Vec<u8>>) -> (r: Action)
    ensures
        r@ == if utf8_valid(buf@) {
            handle_spec(buf@, opt_view(*dir))
        } else {
            ActionView::Close
        },
        r@ matches ActionView::Respond(resp) ==> content_length_exact(resp),
{
    if is_utf8(buf) {
        handle_text(buf, dir)
    } else {
        Action::Close
    }
}

/// The response once a requested file has been read: its contents, or
/// `None` where it could not be opened.
pub fn on_file_read(contents: Option<Vec<u8>>) -> (r: Response)
    ensures
        r@ == read_response(opt_view(contents)),
        content_length_exact(r@),
{
    match contents {
        Some(b) => {
            proof {
                reveal_strlit("application/octet-stream");
            }
            Response::with_body(ascii_vec("application/octet-stream"), b)
        },
        None => Response::not_found(),
    }
}

/// What to do once a requested write has finished, given whether it
/// succeeded: `201 Created`, or close without a response.
pub fn on_file_written(ok: bool) -> (r: Action)
    ensures
        r@ == if ok {
            ActionView::Respond(bare(201, "Created"@))
        } else {
            ActionView::Close
        },
        r@ matches ActionView::Respond(resp) ==> content_length_exact(resp),
{
    if ok {
        Action::Respond(Response::created())
    } else {
        Action::Close
    }
}

/// A file path is matched by no route before the file routes.
proof fn lemma_files_route_only(path: Seq<u8>)
    requires
        has_prefix(path, ascii("/files/"@)),
    ensures
        path != ascii("/"@),
        !has_prefix(path, ascii("/echo/"@)),
        path != ascii("/user-agent"@),
{
    reveal_strlit("/");
    reveal_strlit("/files/");
    reveal_strlit("/echo/");
    reveal_strlit("/user-agent");
    assert(path[1] == ascii("/files/"@)[1]);
    if has_prefix(path, ascii("/echo/"@)) {
        assert(path[1] == ascii("/echo/"@)[1]);
    }
    if path == ascii("/user-agent"@) {
        assert(path[1] == ascii("/user-agent"@)[1]);
    }
}

/// A POST to `/files/<name>` and a GET of the same path, under the same base
/// directory, write and read one and the same file; reading back what the
/// POST wrote answers `200` with exactly that body as an octet stream.
pub proof fn lemma_write_then_read(post: RequestView, get: RequestView, dir: Seq<u8>)
    requires
        post.method == ascii("POST"@),
        get.method == ascii("GET"@),
        get.path == post.path,
        has_prefix(post.path, ascii("/files/"@)),
    ensures
        dispatch_spec(post, Some(dir)) == ActionView::WriteFile(
            file_path(dir, after(post.path, ascii("/files/"@))),
            post.body,
        ),
        dispatch_spec(get, Some(dir)) == ActionView::ReadFile(
            file_path(dir, after(post.path, ascii("/files/"@))),
        ),
        read_response(Some(post.body)).status == 200,
        read_response(Some(post.body)).body == post.body,
        read_response(Some(post.body)).headers[0] == (
            ascii("Content-Type"@),
            ascii("application/octet-stream"@),
        ),
{
    lemma_files_route_only(post.path);
    reveal_strlit("GET");
    reveal_strlit("POST");
    assert(ascii("GET"@).len() != ascii("POST"@).len());
}

/// Handling a GET request never writes to the file store: repeating it with
/// the same bytes against an unchanged store gives the same action again.
pub proof fn lemma_get_never_writes(buf: Seq<u8>, dir: Option<Seq<u8>>)
    requires
        parse_spec(buf) matches Some(r) && r.method == ascii("GET"@),
    ensures
        !(handle_spec(buf, dir) is WriteFile),
{
    reveal_strlit("GET");
    reveal_strlit("POST");
    assert(ascii("GET"@).len() != ascii("POST"@).len());
}

} // verus!
