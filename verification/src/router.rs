//! Routing: which response a request gets.
//!
//! A request on `/`, `/user-agent` or `/echo...` is answered from the request
//! alone. One on `/files...` needs a file: [`dispatch`] then says which, the
//! caller opens or creates it, and [`respond_fetched`] or [`respond_stored`]
//! writes the response that fits what came of it.

use crate::header::{
    content_length_line, content_type_line, lemma_status_line_texts, status_line, HttpMethod,
    RequestHeader, ResponseHeader,
};
use crate::request::{
    law_plain_request, law_request_with_body, law_request_with_header, parse_request, Request,
    RequestError, RequestView,
};
use crate::server::Server;
use crate::text::{bytes_eq, colon_space, crlf, decimal, has_prefix, is_space, lit, starts_with};
use vstd::prelude::*;
use vstd::slice::slice_subrange;
use vstd::slice::slice_to_vec;
use vstd::string::*;

verus! {

/// Where a path leads.
#[derive(Clone, Copy, Debug, PartialEq, Eq, Structural)]
pub enum Route {
    /// `/`, the probe.
    Root,
    /// `/user-agent`, which answers with the request's `User-Agent`.
    UserAgent,
    /// A path that begins with `/echo`, which answers with the rest of it.
    Echo,
    /// A path that begins with `/files`, which reads or writes a file.
    Files,
    /// Any other path.
    NotFound,
}

/// The route of `path`. The first that fits is taken: `/` and `/user-agent`
/// must fit letter for letter, `/echo` and `/files` as the beginning.
pub open spec fn route_of(path: Seq<u8>) -> Route {
    if path == lit("/") {
        Route::Root
    } else if path == lit("/user-agent") {
        Route::UserAgent
    } else if starts_with(path, lit("/echo")) {
        Route::Echo
    } else if starts_with(path, lit("/files")) {
        Route::Files
    } else {
        Route::NotFound
    }
}

/// What is left of `path` behind its first `n` bytes; nothing where it has no
/// more than `n`.
pub open spec fn remainder(path: Seq<u8>, n: int) -> Seq<u8> {
    if 0 <= n <= path.len() {
        path.skip(n)
    } else {
        Seq::empty()
    }
}

/// A response without headers and without a body: the status line and the
/// empty line.
pub open spec fn bare_response(code: int) -> Seq<u8> {
    status_line(code) + crlf()
}

/// A response with a body: the status line, the content type, the length of
/// the body, the empty line, and the body.
pub open spec fn full_response(code: int, content_type: Seq<u8>, body: Seq<u8>) -> Seq<u8> {
    status_line(code) + content_type_line(content_type) + content_length_line(body.len())
        + crlf() + body
}

/// What is left to do for a request once [`dispatch`] has seen it.
#[derive(Debug, PartialEq, Eq)]
pub enum Outcome {
    /// Nothing: the response has been written.
    Responded,
    /// The file `name` is to be opened and read, and [`respond_fetched`]
    /// called with what it held.
    Fetch { name: Vec<u8> },
    /// The file `name` is to be created, [`respond_stored`] called, and
    /// `body` written to the file if it could be created.
    Store { name: Vec<u8>, body: Vec<u8> },
}

/// An [`Outcome`], as plain values.
pub enum OutcomeView {
    Responded,
    Fetch { name: Seq<u8> },
    Store { name: Seq<u8>, body: Seq<u8> },
}

impl View for Outcome {
    type V = OutcomeView;

    open spec fn view(&self) -> OutcomeView {
        match self {
            Outcome::Responded => OutcomeView::Responded,
            Outcome::Fetch { name } => OutcomeView::Fetch { name: name@ },
            Outcome::Store { name, body } => OutcomeView::Store { name: name@, body: body@ },
        }
    }
}

/// What a request gets: the bytes of the response that can be written at
/// once, and what is left to do; or the error for which the request is given
/// up without a response.
pub open spec fn answer(request: RequestView) -> Result<(Seq<u8>, OutcomeView), RequestError> {
    match route_of(request.path) {
        Route::Root => Ok((bare_response(200), OutcomeView::Responded)),
        Route::UserAgent => if request.headers.contains_key(RequestHeader::Agent) {
            Ok(
                (
                    full_response(200, lit("text/plain"), request.headers[RequestHeader::Agent]),
                    OutcomeView::Responded,
                ),
            )
        } else {
            Err(RequestError::MissingHeader)
        },
        Route::Echo => Ok(
            (
                full_response(200, lit("text/plain"), remainder(request.path, 6)),
                OutcomeView::Responded,
            ),
        ),
        Route::Files => match request.method {
            HttpMethod::Get => Ok(
                (Seq::empty(), OutcomeView::Fetch { name: remainder(request.path, 7) }),
            ),
            HttpMethod::Post => Ok(
                (
                    Seq::empty(),
                    OutcomeView::Store { name: remainder(request.path, 7), body: request.body },
                ),
            ),
        },
        Route::NotFound => Ok((bare_response(404), OutcomeView::Responded)),
    }
}

/// The response to a `GET` on a file: the file's contents where it could be
/// opened, `404` where it could not.
pub open spec fn fetched_response(contents: Option<Seq<u8>>) -> Seq<u8> {
    match contents {
        Some(bytes) => full_response(200, lit("application/octet-stream"), bytes),
        None => bare_response(404),
    }
}

/// The response to a `POST` on a file: `201` where the file could be created,
/// `404` where it could not.
pub open spec fn stored_response(created: bool) -> Seq<u8> {
    if created {
        bare_response(201)
    } else {
        bare_response(404)
    }
}

/// Finds the route of a path.
pub fn route(path: &[u8]) -> (r: Route)
    ensures
        r == route_of(path@),
{
    if bytes_eq(path, "/".as_bytes()) {
        Route::Root
    } else if bytes_eq(path, "/user-agent".as_bytes()) {
        Route::UserAgent
    } else if has_prefix(path, "/echo".as_bytes()) {
        Route::Echo
    } else if has_prefix(path, "/files".as_bytes()) {
        Route::Files
    } else {
        Route::NotFound
    }
}

/// The bytes of `path` behind its first `n`.
pub fn rest_of(path: &[u8], n: usize) -> (rest: Vec<u8>)
    ensures
        rest@ == remainder(path@, n as int),
{
    if n <= path.len() {
        slice_to_vec(slice_subrange(path, n, path.len()))
    } else {
        Vec::new()
    }
}

/// Writes a response without a body.
pub fn respond_bare(server: &mut Server, code: i32)
    requires
        old(server).wf(),
    ensures
        final(server).wf(),
        final(server).received() == old(server).received(),
        final(server).position() == old(server).position(),
        final(server).written() == old(server).written() + bare_response(code as int),
{
    server.with(ResponseHeader::Status(code)).send(None);
    assert(server.written() =~= old(server).written() + bare_response(code as int));
}

/// Writes a response with a body.
pub fn respond_full(server: &mut Server, code: i32, content_type: &str, body: Vec<u8>)
    requires
        old(server).wf(),
    ensures
        final(server).wf(),
        final(server).received() == old(server).received(),
        final(server).position() == old(server).position(),
        final(server).written() == old(server).written() + full_response(
            code as int,
            lit(content_type),
            body@,
        ),
{
    let n = body.len();
    server.with(ResponseHeader::Status(code)).with(ResponseHeader::Type(content_type.to_owned())).with(
        ResponseHeader::Length(n),
    ).send(Some(body));
    assert(server.written() =~= old(server).written() + full_response(
        code as int,
        lit(content_type),
        body@,
    ));
}

/// Answers `request` as far as the request alone allows. The response, if
/// one can be written at once, is written to `server`; for a request on a
/// file nothing is written yet.
pub fn dispatch(server: &mut Server, request: Request) -> (r: Result<Outcome, RequestError>)
    requires
        old(server).wf(),
    ensures
        final(server).wf(),
        final(server).received() == old(server).received(),
        final(server).position() == old(server).position(),
        match answer(request@) {
            Ok((bytes, outcome)) => match r {
                Ok(left) => {
                    &&& left@ == outcome
                    &&& final(server).written() == old(server).written() + bytes
                },
                Err(_) => false,
            },
            Err(e) => {
                &&& r == Err::<Outcome, RequestError>(e)
                &&& final(server).written() == old(server).written()
            },
        },
{
    match route(request.path.as_slice()) {
        Route::Root => {
            respond_bare(server, 200);
            Ok(Outcome::Responded)
        },
        Route::UserAgent => match request.headers.get(RequestHeader::Agent) {
            Some(value) => {
                respond_full(server, 200, "text/plain", slice_to_vec(value.as_slice()));
                Ok(Outcome::Responded)
            },
            None => Err(RequestError::MissingHeader),
        },
        Route::Echo => {
            respond_full(server, 200, "text/plain", rest_of(request.path.as_slice(), 6));
            Ok(Outcome::Responded)
        },
        Route::Files => {
            let name = rest_of(request.path.as_slice(), 7);
            assert(server.written() =~= old(server).written() + Seq::<u8>::empty());
            match request.method {
                HttpMethod::Get => Ok(Outcome::Fetch { name }),
                HttpMethod::Post => Ok(Outcome::Store { name, body: request.body }),
            }
        },
        Route::NotFound => {
            respond_bare(server, 404);
            Ok(Outcome::Responded)
        },
    }
}

/// Writes the response to a `GET` on a file, given what the file held, or
/// `None` where it could not be opened.
pub fn respond_fetched(server: &mut Server, contents: Option<Vec<u8>>)
    requires
        old(server).wf(),
    ensures
        final(server).wf(),
        final(server).received() == old(server).received(),
        final(server).position() == old(server).position(),
        final(server).written() == old(server).written() + fetched_response(
            match contents {
                Some(bytes) => Some(bytes@),
                None => None,
            },
        ),
{
    match contents {
        Some(bytes) => respond_full(server, 200, "application/octet-stream", bytes),
        None => respond_bare(server, 404),
    }
}

/// Writes the response to a `POST` on a file, given whether the file could be
/// created.
pub fn respond_stored(server: &mut Server, created: bool)
    requires
        old(server).wf(),
    ensures
        final(server).wf(),
        final(server).received() == old(server).received(),
        final(server).position() == old(server).position(),
        final(server).written() == old(server).written() + stored_response(created),
{
    if created {
        respond_bare(server, 201)
    } else {
        respond_bare(server, 404)
    }
}

/// Reads one request from `server` and answers it as far as the request
/// alone allows. A request that is malformed, or has not come in whole, is
/// left unread; no response is written for it, nor for one that lacks a
/// header its route needs.
pub fn handle_request(server: &mut Server) -> (r: Result<Outcome, RequestError>)
    requires
        old(server).wf(),
    ensures
        final(server).wf(),
        final(server).received() == old(server).received(),
        match parse_request(old(server).unread()) {
            Ok(parsed) => {
                &&& final(server).position() == old(server).position() + parsed.len
                &&& match answer(parsed.request) {
                    Ok((bytes, outcome)) => match r {
                        Ok(left) => {
                            &&& left@ == outcome
                            &&& final(server).written() == old(server).written() + bytes
                        },
                        Err(_) => false,
                    },
                    Err(e) => {
                        &&& r == Err::<Outcome, RequestError>(e)
                        &&& final(server).written() == old(server).written()
                    },
                }
            },
            Err(e) => {
                &&& r == Err::<Outcome, RequestError>(e)
                &&& final(server).position() == old(server).position()
                &&& final(server).written() == old(server).written()
            },
        },
{
    let request = match server.read_all() {
        Ok(request) => request,
        Err(e) => {
            return Err(e);
        },
    };
    dispatch(server, request)
}

/// The responses without a body, letter for letter.
pub proof fn lemma_bare_response_texts()
    ensures
        bare_response(200) == lit("HTTP/1.1 200 OK\r\n\r\n"),
        bare_response(201) == lit("HTTP/1.1 201 Created\r\n\r\n"),
        bare_response(404) == lit("HTTP/1.1 404 Not Found\r\n\r\n"),
{
    lemma_status_line_texts();
    assert(lit("HTTP/1.1 200 OK\r\n") + crlf() == lit("HTTP/1.1 200 OK\r\n\r\n")) by {
        reveal_strlit("HTTP/1.1 200 OK\r\n");
        reveal_strlit("HTTP/1.1 200 OK\r\n\r\n");
        assert(is_ascii("HTTP/1.1 200 OK\r\n"));
        assert(is_ascii("HTTP/1.1 200 OK\r\n\r\n"));
        is_ascii_spec_bytes("HTTP/1.1 200 OK\r\n");
        is_ascii_spec_bytes("HTTP/1.1 200 OK\r\n\r\n");
        assert(lit("HTTP/1.1 200 OK\r\n") + crlf() =~= lit("HTTP/1.1 200 OK\r\n\r\n"));
    }
    assert(lit("HTTP/1.1 201 Created\r\n") + crlf() == lit("HTTP/1.1 201 Created\r\n\r\n")) by {
        reveal_strlit("HTTP/1.1 201 Created\r\n");
        reveal_strlit("HTTP/1.1 201 Created\r\n\r\n");
        assert(is_ascii("HTTP/1.1 201 Created\r\n"));
        assert(is_ascii("HTTP/1.1 201 Created\r\n\r\n"));
        is_ascii_spec_bytes("HTTP/1.1 201 Created\r\n");
        is_ascii_spec_bytes("HTTP/1.1 201 Created\r\n\r\n");
        assert(lit("HTTP/1.1 201 Created\r\n") + crlf() =~= lit("HTTP/1.1 201 Created\r\n\r\n"));
    }
    assert(lit("HTTP/1.1 404 Not Found\r\n") + crlf() == lit("HTTP/1.1 404 Not Found\r\n\r\n"))
        by {
        reveal_strlit("HTTP/1.1 404 Not Found\r\n");
        reveal_strlit("HTTP/1.1 404 Not Found\r\n\r\n");
        assert(is_ascii("HTTP/1.1 404 Not Found\r\n"));
        assert(is_ascii("HTTP/1.1 404 Not Found\r\n\r\n"));
        is_ascii_spec_bytes("HTTP/1.1 404 Not Found\r\n");
        is_ascii_spec_bytes("HTTP/1.1 404 Not Found\r\n\r\n");
        assert(lit("HTTP/1.1 404 Not Found\r\n") + crlf() =~= lit(
            "HTTP/1.1 404 Not Found\r\n\r\n",
        ));
    }
}

/// The head of a `200` response with a `text/plain` body, up to the length.
proof fn lemma_head_plain()
    ensures
        lit("HTTP/1.1 200 OK\r\n") + lit("Content-Type: ") + lit("text/plain") + crlf() + lit(
            "Content-Length: ",
        ) == lit("HTTP/1.1 200 OK\r\nContent-Type: text/plain\r\nContent-Length: "),
{
    reveal_strlit("HTTP/1.1 200 OK\r\n");
    reveal_strlit("Content-Type: ");
    reveal_strlit("text/plain");
    reveal_strlit("Content-Length: ");
    reveal_strlit("HTTP/1.1 200 OK\r\nContent-Type: text/plain\r\nContent-Length: ");
    assert(is_ascii("HTTP/1.1 200 OK\r\n"));
    assert(is_ascii("Content-Type: "));
    assert(is_ascii("text/plain"));
    assert(is_ascii("Content-Length: "));
    assert(is_ascii("HTTP/1.1 200 OK\r\nContent-Type: text/plain\r\nContent-Length: "));
    is_ascii_spec_bytes("HTTP/1.1 200 OK\r\n");
    is_ascii_spec_bytes("Content-Type: ");
    is_ascii_spec_bytes("text/plain");
    is_ascii_spec_bytes("Content-Length: ");
    is_ascii_spec_bytes("HTTP/1.1 200 OK\r\nContent-Type: text/plain\r\nContent-Length: ");
    assert(lit("HTTP/1.1 200 OK\r\n") + lit("Content-Type: ") + lit("text/plain") + crlf() + lit(
        "Content-Length: ",
    ) =~= lit("HTTP/1.1 200 OK\r\nContent-Type: text/plain\r\nContent-Length: "));
}

/// The head of a `200` response with an `application/octet-stream` body, up
/// to the length.
proof fn lemma_head_octets()
    ensures
        lit("HTTP/1.1 200 OK\r\n") + lit("Content-Type: ") + lit("application/octet-stream")
            + crlf() + lit("Content-Length: ") == lit(
            "HTTP/1.1 200 OK\r\nContent-Type: application/octet-stream\r\nContent-Length: ",
        ),
{
    reveal_strlit("HTTP/1.1 200 OK\r\n");
    reveal_strlit("Content-Type: ");
    reveal_strlit("application/octet-stream");
    reveal_strlit("Content-Length: ");
    reveal_strlit("HTTP/1.1 200 OK\r\nContent-Type: application/octet-stream\r\nContent-Length: ");
    assert(is_ascii("HTTP/1.1 200 OK\r\n"));
    assert(is_ascii("Content-Type: "));
    assert(is_ascii("application/octet-stream"));
    assert(is_ascii("Content-Length: "));
    assert(is_ascii(
        "HTTP/1.1 200 OK\r\nContent-Type: application/octet-stream\r\nContent-Length: ",
    ));
    is_ascii_spec_bytes("HTTP/1.1 200 OK\r\n");
    is_ascii_spec_bytes("Content-Type: ");
    is_ascii_spec_bytes("application/octet-stream");
    is_ascii_spec_bytes("Content-Length: ");
    is_ascii_spec_bytes(
        "HTTP/1.1 200 OK\r\nContent-Type: application/octet-stream\r\nContent-Length: ",
    );
    assert(lit("HTTP/1.1 200 OK\r\n") + lit("Content-Type: ") + lit("application/octet-stream")
        + crlf() + lit("Content-Length: ") =~= lit(
        "HTTP/1.1 200 OK\r\nContent-Type: application/octet-stream\r\nContent-Length: ",
    ));
}

/// Two terminators, as one literal.
proof fn lemma_blank_line()
    ensures
        crlf() + crlf() == lit("\r\n\r\n"),
{
    reveal_strlit("\r\n\r\n");
    assert(is_ascii("\r\n\r\n"));
    is_ascii_spec_bytes("\r\n\r\n");
    assert(crlf() + crlf() =~= lit("\r\n\r\n"));
}

/// A response with a body, put together from its head up to the length.
proof fn lemma_full_response_parts(status: Seq<u8>, kind: Seq<u8>, body: Seq<u8>)
    ensures
        status + content_type_line(kind) + content_length_line(body.len()) + crlf() + body == (
        status + lit("Content-Type: ") + kind + crlf() + lit("Content-Length: ")) + decimal(
            body.len(),
        ) + (crlf() + crlf()) + body,
{
    assert(status + content_type_line(kind) + content_length_line(body.len()) + crlf() + body
        =~= (status + lit("Content-Type: ") + kind + crlf() + lit("Content-Length: ")) + decimal(
        body.len(),
    ) + (crlf() + crlf()) + body);
}

/// The `200` responses with a body, letter for letter: the head up to the
/// length, the length in decimal, the empty line, the body.
pub proof fn lemma_full_response_texts(body: Seq<u8>)
    ensures
        full_response(200, lit("text/plain"), body) == lit(
            "HTTP/1.1 200 OK\r\nContent-Type: text/plain\r\nContent-Length: ",
        ) + decimal(body.len()) + lit("\r\n\r\n") + body,
        full_response(200, lit("application/octet-stream"), body) == lit(
            "HTTP/1.1 200 OK\r\nContent-Type: application/octet-stream\r\nContent-Length: ",
        ) + decimal(body.len()) + lit("\r\n\r\n") + body,
{
    lemma_status_line_texts();
    lemma_head_plain();
    lemma_head_octets();
    lemma_blank_line();
    lemma_full_response_parts(lit("HTTP/1.1 200 OK\r\n"), lit("text/plain"), body);
    lemma_full_response_parts(lit("HTTP/1.1 200 OK\r\n"), lit("application/octet-stream"), body);
}

/// The texts of the routes, byte for byte.
proof fn lemma_route_texts()
    ensures
        lit("/") == seq![47u8],
        lit("/user-agent") == seq![47u8, 117, 115, 101, 114, 45, 97, 103, 101, 110, 116],
        lit("/echo") == seq![47u8, 101, 99, 104, 111],
        lit("/files") == seq![47u8, 102, 105, 108, 101, 115],
        lit("/echo/") == seq![47u8, 101, 99, 104, 111, 47],
        lit("/files/") == seq![47u8, 102, 105, 108, 101, 115, 47],
{
    reveal_strlit("/");
    reveal_strlit("/user-agent");
    reveal_strlit("/echo");
    reveal_strlit("/files");
    reveal_strlit("/echo/");
    reveal_strlit("/files/");
    assert(is_ascii("/"));
    assert(is_ascii("/user-agent"));
    assert(is_ascii("/echo"));
    assert(is_ascii("/files"));
    assert(is_ascii("/echo/"));
    assert(is_ascii("/files/"));
    is_ascii_spec_bytes("/");
    is_ascii_spec_bytes("/user-agent");
    is_ascii_spec_bytes("/echo");
    is_ascii_spec_bytes("/files");
    is_ascii_spec_bytes("/echo/");
    is_ascii_spec_bytes("/files/");
    assert(lit("/") =~= seq![47u8]);
    assert(lit("/user-agent") =~= seq![47u8, 117, 115, 101, 114, 45, 97, 103, 101, 110, 116]);
    assert(lit("/echo") =~= seq![47u8, 101, 99, 104, 111]);
    assert(lit("/files") =~= seq![47u8, 102, 105, 108, 101, 115]);
    assert(lit("/echo/") =~= seq![47u8, 101, 99, 104, 111, 47]);
    assert(lit("/files/") =~= seq![47u8, 102, 105, 108, 101, 115, 47]);
}

/// A request on `/` is answered with `200` and nothing else, whatever its
/// method, headers and body.
pub proof fn law_root(request: RequestView)
    requires
        request.path == lit("/"),
    ensures
        answer(request) == Ok::<(Seq<u8>, OutcomeView), RequestError>(
            (lit("HTTP/1.1 200 OK\r\n\r\n"), OutcomeView::Responded),
        ),
{
    lemma_bare_response_texts();
}

/// A request on a path that is none of the routes is answered with `404` and
/// nothing else.
pub proof fn law_not_found(request: RequestView)
    requires
        request.path != lit("/"),
        request.path != lit("/user-agent"),
        !starts_with(request.path, lit("/echo")),
        !starts_with(request.path, lit("/files")),
    ensures
        answer(request) == Ok::<(Seq<u8>, OutcomeView), RequestError>(
            (lit("HTTP/1.1 404 Not Found\r\n\r\n"), OutcomeView::Responded),
        ),
{
    lemma_bare_response_texts();
}

/// A request on `/echo/` and some bytes `s` is answered with `200`, the
/// content type `text/plain`, the length of `s`, and `s` as the body.
pub proof fn law_echo(request: RequestView, s: Seq<u8>)
    requires
        request.path == lit("/echo/") + s,
    ensures
        answer(request) == Ok::<(Seq<u8>, OutcomeView), RequestError>(
            (
                lit("HTTP/1.1 200 OK\r\nContent-Type: text/plain\r\nContent-Length: ") + decimal(
                    s.len(),
                ) + lit("\r\n\r\n") + s,
                OutcomeView::Responded,
            ),
        ),
{
    lemma_route_texts();
    lemma_full_response_texts(s);
    let path = request.path;
    assert(path[1] == 101);
    assert(path.subrange(0, 5) =~= lit("/echo"));
    assert(remainder(path, 6) =~= s);
}

/// Echo, from the bytes that come in to the bytes that go out. A `GET` on
/// `/echo/` and some bytes `s`, where `s` holds neither a space nor a
/// carriage return, is read as such, and is answered with `200`, the content
/// type `text/plain`, the length of `s`, and `s` as the body.
pub proof fn law_echo_on_the_wire(s: Seq<u8>, version: Seq<u8>, more: Seq<u8>)
    requires
        forall|i: int| 0 <= i < s.len() ==> s[i] != 32 && s[i] != 13,
        forall|i: int| 0 <= i < version.len() ==> version[i] != 13,
    ensures
        ({
            let stream = lit("GET") + seq![32u8] + (lit("/echo/") + s) + seq![32u8] + version
                + crlf() + crlf() + more;
            &&& parse_request(stream) is Ok
            &&& parse_request(stream)->Ok_0.len == stream.len() - more.len()
            &&& answer(parse_request(stream)->Ok_0.request) == Ok::<
                (Seq<u8>, OutcomeView),
                RequestError,
            >(
                (
                    lit("HTTP/1.1 200 OK\r\nContent-Type: text/plain\r\nContent-Length: ")
                        + decimal(s.len()) + lit("\r\n\r\n") + s,
                    OutcomeView::Responded,
                ),
            )
        }),
{
    lemma_route_texts();
    HttpMethod::Get.lemma_text();
    let path = lit("/echo/") + s;
    law_plain_request(HttpMethod::Get, path, version, more);
    let stream = lit("GET") + seq![32u8] + path + seq![32u8] + version + crlf() + crlf() + more;
    law_echo(parse_request(stream)->Ok_0.request, s);
}

/// A request on `/user-agent` is answered with `200`, the content type
/// `text/plain`, and the value of its `User-Agent` header as the body, with
/// the length of that value. Without the header the request is given up.
pub proof fn law_user_agent(request: RequestView)
    requires
        request.path == lit("/user-agent"),
    ensures
        request.headers.contains_key(RequestHeader::Agent) ==> answer(request) == Ok::<
            (Seq<u8>, OutcomeView),
            RequestError,
        >(
            (
                lit("HTTP/1.1 200 OK\r\nContent-Type: text/plain\r\nContent-Length: ") + decimal(
                    request.headers[RequestHeader::Agent].len(),
                ) + lit("\r\n\r\n") + request.headers[RequestHeader::Agent],
                OutcomeView::Responded,
            ),
        ),
        !request.headers.contains_key(RequestHeader::Agent) ==> answer(request) == Err::<
            (Seq<u8>, OutcomeView),
            RequestError,
        >(RequestError::MissingHeader),
{
    lemma_route_texts();
    if request.headers.contains_key(RequestHeader::Agent) {
        lemma_full_response_texts(request.headers[RequestHeader::Agent]);
    }
}

/// `User-Agent`, from the bytes that come in to the bytes that go out. A
/// `GET` on `/user-agent` with the one header `User-Agent`, whose value
/// neither begins nor ends with whitespace and holds no carriage return, is
/// answered with `200`, the content type `text/plain`, the length of the
/// value, and the value as the body.
pub proof fn law_user_agent_on_the_wire(value: Seq<u8>, version: Seq<u8>, more: Seq<u8>)
    requires
        forall|i: int| 0 <= i < value.len() ==> value[i] != 13,
        value.len() > 0 ==> !is_space(value[0]) && !is_space(value.last()),
        forall|i: int| 0 <= i < version.len() ==> version[i] != 13,
    ensures
        ({
            let stream = lit("GET") + seq![32u8] + lit("/user-agent") + seq![32u8] + version
                + crlf() + (lit("User-Agent") + colon_space() + value + crlf()) + crlf() + more;
            &&& parse_request(stream) is Ok
            &&& parse_request(stream)->Ok_0.len == stream.len() - more.len()
            &&& answer(parse_request(stream)->Ok_0.request) == Ok::<
                (Seq<u8>, OutcomeView),
                RequestError,
            >(
                (
                    lit("HTTP/1.1 200 OK\r\nContent-Type: text/plain\r\nContent-Length: ")
                        + decimal(value.len()) + lit("\r\n\r\n") + value,
                    OutcomeView::Responded,
                ),
            )
        }),
{
    lemma_route_texts();
    law_request_with_header(
        HttpMethod::Get,
        lit("/user-agent"),
        version,
        RequestHeader::Agent,
        value,
        more,
    );
    let stream = lit("GET") + seq![32u8] + lit("/user-agent") + seq![32u8] + version + crlf() + (
    lit("User-Agent") + colon_space() + value + crlf()) + crlf() + more;
    law_user_agent(parse_request(stream)->Ok_0.request);
}

/// Writing a file and reading it back. A `POST` on `/files/` and a name asks
/// for its body to be stored under that name, and is answered with `201` once
/// the file is created. A `GET` on the same path asks for the file of the
/// same name; where the file holds what was stored, the answer is `200` with
/// exactly those bytes as the body and their number as the length. Where the
/// file cannot be opened, or cannot be created, the answer is `404`.
pub proof fn law_file_round_trip(post: RequestView, get: RequestView, name: Seq<u8>)
    requires
        post.method == HttpMethod::Post,
        get.method == HttpMethod::Get,
        post.path == lit("/files/") + name,
        get.path == post.path,
    ensures
        answer(post) == Ok::<(Seq<u8>, OutcomeView), RequestError>(
            (Seq::empty(), OutcomeView::Store { name, body: post.body }),
        ),
        answer(get) == Ok::<(Seq<u8>, OutcomeView), RequestError>(
            (Seq::empty(), OutcomeView::Fetch { name }),
        ),
        stored_response(true) == lit("HTTP/1.1 201 Created\r\n\r\n"),
        stored_response(false) == lit("HTTP/1.1 404 Not Found\r\n\r\n"),
        fetched_response(Some(post.body)) == lit(
            "HTTP/1.1 200 OK\r\nContent-Type: application/octet-stream\r\nContent-Length: ",
        ) + decimal(post.body.len()) + lit("\r\n\r\n") + post.body,
        fetched_response(None) == lit("HTTP/1.1 404 Not Found\r\n\r\n"),
{
    lemma_route_texts();
    lemma_bare_response_texts();
    lemma_full_response_texts(post.body);
    let path = post.path;
    assert(path[1] == 102);
    assert(path.subrange(0, 6) =~= lit("/files"));
    assert(path.subrange(0, 5)[1] == 102);
    assert(remainder(path, 7) =~= name);
}

/// Storing, from the bytes that come in. A `POST` on `/files/` and a name
/// that holds neither a space nor a carriage return, with `Content-Length`
/// the length of `body` and then `body`, asks for exactly `body` to be stored
/// under that name; nothing is written before the file is created.
pub proof fn law_store_on_the_wire(
    name: Seq<u8>,
    body: Seq<u8>,
    version: Seq<u8>,
    more: Seq<u8>,
)
    requires
        forall|i: int| 0 <= i < name.len() ==> name[i] != 32 && name[i] != 13,
        forall|i: int| 0 <= i < version.len() ==> version[i] != 13,
    ensures
        ({
            let stream = lit("POST") + seq![32u8] + (lit("/files/") + name) + seq![32u8] + version
                + crlf() + (lit("Content-Length") + colon_space() + decimal(body.len()) + crlf())
                + crlf() + body + more;
            &&& parse_request(stream) is Ok
            &&& parse_request(stream)->Ok_0.len == stream.len() - more.len()
            &&& answer(parse_request(stream)->Ok_0.request) == Ok::<
                (Seq<u8>, OutcomeView),
                RequestError,
            >((Seq::empty(), OutcomeView::Store { name, body }))
        }),
{
    lemma_route_texts();
    let path = lit("/files/") + name;
    law_request_with_body(HttpMethod::Post, path, version, body, more);
    let stream = lit("POST") + seq![32u8] + path + seq![32u8] + version + crlf() + (lit(
        "Content-Length",
    ) + colon_space() + decimal(body.len()) + crlf()) + crlf() + body + more;
    let post = parse_request(stream)->Ok_0.request;
    law_file_round_trip(post, RequestView { method: HttpMethod::Get, ..post }, name);
}

} // verus!
