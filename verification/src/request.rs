//! Requests: what one holds, and the grammar by which one is read off the
//! bytes of a connection.
//!
//! The grammar is given as spec functions on `Seq<u8>`: [`request_line`] for
//! the first line, [`header_line`] for each line of the header block,
//! [`content_length`] for the framing of the body, and [`parse_request`] for
//! the whole. The executable parsers of single lines are here too; the reader
//! that walks a connection is [`crate::server::Server`].

use crate::header::{HeaderMap, HttpMethod, RequestHeader};
use crate::text::{
    all_digits, colon_space, crlf, decimal, digits_value, find, find_byte, first_match, is_digit,
    is_space, law_decimal_round_trip, lemma_first_match_cut, lemma_first_match_is,
    lemma_first_match_local, lemma_first_match_none, lemma_first_match_some, lemma_lit_delimiters,
    lemma_matches_byte, lemma_split_at_first, matches_at, split, trim, trim_end, trim_start,
    trimmed, CR, LF, SP,
};
use vstd::prelude::*;
use vstd::slice::slice_subrange;
use vstd::slice::slice_to_vec;

verus! {

/// Why a request was given up. No response is written for such a request.
#[derive(Clone, Copy, Debug, PartialEq, Eq, Structural)]
pub enum RequestError {
    /// The request line has fewer than two tokens, or its method is unknown.
    MalformedRequestLine,
    /// The value of `Content-Length` is not a non-negative integer.
    MalformedLength,
    /// The connection ended before the request did.
    UnexpectedEof,
    /// The route needs a header that the request does not carry.
    MissingHeader,
}

/// One request, as read from a connection.
#[derive(Debug, PartialEq, Eq)]
pub struct Request {
    /// The method of the request line.
    pub method: HttpMethod,
    /// The target of the request line, as it was sent.
    pub path: Vec<u8>,
    /// The recognised headers, each with its trimmed value.
    pub headers: HeaderMap,
    /// The body: as many bytes as `Content-Length` announced, or none.
    pub body: Vec<u8>,
}

/// What a request holds, as plain values.
pub struct RequestView {
    pub method: HttpMethod,
    pub path: Seq<u8>,
    pub headers: Map<RequestHeader, Seq<u8>>,
    pub body: Seq<u8>,
}

impl View for Request {
    type V = RequestView;

    open spec fn view(&self) -> RequestView {
        RequestView {
            method: self.method,
            path: self.path@,
            headers: self.headers@,
            body: self.body@,
        }
    }
}

/// A header block: the headers it gives and the number of bytes it takes up.
pub struct Block {
    pub headers: Map<RequestHeader, Seq<u8>>,
    pub len: int,
}

/// A request on a stream: what it holds and the number of bytes it takes up.
pub struct Parsed {
    pub request: RequestView,
    pub len: int,
}

/// What a request line says. The line is split at every space; the first
/// token names the method and the second is the path, whatever follows. A
/// line of fewer than two tokens, or with an unknown method, is malformed.
/// The line is taken as it was read, terminator included: a path that is the
/// last token of its line ends with the terminator.
#[verifier::opaque]
pub open spec fn request_line(line: Seq<u8>) -> Result<(HttpMethod, Seq<u8>), RequestError> {
    let tokens = split(line, SP);
    if tokens.len() < 2 {
        Err(RequestError::MalformedRequestLine)
    } else {
        match HttpMethod::lookup(tokens[0]) {
            Some(method) => Ok((method, tokens[1])),
            None => Err(RequestError::MalformedRequestLine),
        }
    }
}

/// What a line of the header block adds to the headers. The line is split
/// once, at its first `": "`: before it stands the name, after it the value,
/// which is trimmed. A line without the delimiter, or with a name that is
/// not recognised, adds nothing.
#[verifier::opaque]
pub open spec fn header_line(line: Seq<u8>) -> Option<(RequestHeader, Seq<u8>)> {
    match first_match(line, colon_space()) {
        Some(i) => match RequestHeader::lookup(line.subrange(0, i)) {
            Some(kind) => Some((kind, trim(line.skip(i + 2)))),
            None => None,
        },
        None => None,
    }
}

/// The number of body bytes that a `Content-Length` value announces: an
/// optional sign, then one digit or more, denoting a number that is not
/// negative. Any other value is malformed.
#[verifier::opaque]
pub open spec fn content_length(value: Seq<u8>) -> Option<nat> {
    let signed = value.len() > 0 && (value[0] == 43 || value[0] == 45);
    let digits = if signed {
        value.skip(1)
    } else {
        value
    };
    if digits.len() == 0 || !all_digits(digits) {
        None
    } else if signed && value[0] == 45 && digits_value(digits) != 0 {
        None
    } else {
        Some(digits_value(digits))
    }
}

/// The headers `seen`, and what `line` adds to them: a later value takes the
/// place of an earlier one.
pub open spec fn with_line(seen: Map<RequestHeader, Seq<u8>>, line: Seq<u8>) -> Map<
    RequestHeader,
    Seq<u8>,
> {
    match header_line(line) {
        Some((kind, value)) => seen.insert(kind, value),
        None => seen,
    }
}

/// The length of the first line of `s`, terminator included; `None` where
/// `s` holds no terminator.
pub open spec fn line_len(s: Seq<u8>) -> Option<int> {
    match first_match(s, crlf()) {
        Some(i) => Some(i + 2),
        None => None,
    }
}

/// The header block that `s` begins with: the headers it gives, on top of
/// those `seen`, and its length, the empty line that ends it included.
/// `None` where `s` ends before the block does.
pub open spec fn header_block(s: Seq<u8>, seen: Map<RequestHeader, Seq<u8>>) -> Option<Block>
    decreases s.len(),
{
    match line_len(s) {
        Some(n) => if n == 2 {
            Some(Block { headers: seen, len: 2 })
        } else if 2 < n <= s.len() {
            match header_block(s.skip(n), with_line(seen, s.subrange(0, n))) {
                Some(rest) => Some(Block { headers: rest.headers, len: n + rest.len }),
                None => None,
            }
        } else {
            None
        },
        None => None,
    }
}

/// The request that the stream `s` begins with, and the number of bytes it
/// takes up.
///
/// The first line is the request line. The header block follows, up to its
/// empty line. Where it gave a `Content-Length`, that many bytes follow as the
/// body; without one the body is empty. A stream that ends before the request
/// does is an `UnexpectedEof`, never a request with a shorter body.
pub open spec fn parse_request(s: Seq<u8>) -> Result<Parsed, RequestError> {
    match line_len(s) {
        None => Err(RequestError::UnexpectedEof),
        Some(n) => match request_line(s.subrange(0, n)) {
            Err(e) => Err(e),
            Ok((method, path)) => match header_block(s.skip(n), Map::empty()) {
                None => Err(RequestError::UnexpectedEof),
                Some(block) => {
                    let headers = block.headers;
                    let head = n + block.len;
                    if headers.contains_key(RequestHeader::Length) {
                        match content_length(headers[RequestHeader::Length]) {
                            None => Err(RequestError::MalformedLength),
                            Some(len) => if head + len <= s.len() {
                                Ok(
                                    Parsed {
                                        request: RequestView {
                                            method,
                                            path,
                                            headers,
                                            body: s.subrange(head, head + len),
                                        },
                                        len: head + len,
                                    },
                                )
                            } else {
                                Err(RequestError::UnexpectedEof)
                            },
                        }
                    } else {
                        Ok(
                            Parsed {
                                request: RequestView { method, path, headers, body: Seq::empty() },
                                len: head,
                            },
                        )
                    }
                },
            },
        },
    }
}

/// Reads a request line: its method and its path.
pub fn parse_header(header: &[u8]) -> (r: Result<(HttpMethod, Vec<u8>), RequestError>)
    ensures
        match request_line(header@) {
            Ok((method, path)) => match r {
                Ok((m, p)) => m == method && p@ == path,
                Err(_) => false,
            },
            Err(e) => r == Err::<(HttpMethod, Vec<u8>), RequestError>(e),
        },
{
    proof {
        reveal(request_line);
    }
    let first = match find_byte(header, SP) {
        Some(i) => i,
        None => {
            return Err(RequestError::MalformedRequestLine);
        },
    };
    proof {
        lemma_split_at_first(header@, SP, first as int);
    }
    assert(first < header.len());
    let rest = slice_subrange(header, first + 1, header.len());
    assert(rest@ == header@.skip(first + 1));
    let path = match find_byte(rest, SP) {
        Some(j) => {
            proof {
                lemma_split_at_first(rest@, SP, j as int);
            }
            slice_subrange(rest, 0, j)
        },
        None => {
            assert(rest@.subrange(0, rest@.len() as int) =~= rest@);
            rest
        },
    };
    assert(split(rest@, SP)[0] == path@);
    assert(split(header@, SP)[1] == path@);
    match HttpMethod::from_bytes(slice_subrange(header, 0, first)) {
        Some(method) => Ok((method, slice_to_vec(path))),
        None => Err(RequestError::MalformedRequestLine),
    }
}

/// Reads one line of a header block: the header it gives and its value.
pub fn parse_field(line: &[u8]) -> (field: Option<(RequestHeader, Vec<u8>)>)
    ensures
        match header_line(line@) {
            Some((kind, value)) => match field {
                Some((k, v)) => k == kind && v@ == value,
                None => false,
            },
            None => field is None,
        },
{
    proof {
        reveal(header_line);
        lemma_lit_delimiters();
    }
    let at = match find(line, ": ".as_bytes()) {
        Some(i) => i,
        None => {
            return None;
        },
    };
    proof {
        lemma_first_match_some(line@, colon_space());
    }
    assert(at + 2 <= line.len());
    match RequestHeader::from_bytes(slice_subrange(line, 0, at)) {
        Some(kind) => {
            let value = trimmed(slice_subrange(line, at + 2, line.len()));
            Some((kind, slice_to_vec(value)))
        },
        None => None,
    }
}

/// Reads a `Content-Length` value. A number too large for `usize` comes out as
/// `usize::MAX`.
pub fn parse_length(value: &[u8]) -> (r: Result<usize, RequestError>)
    ensures
        match content_length(value@) {
            Some(n) => r == Ok::<usize, RequestError>(
                if n <= usize::MAX {
                    n as usize
                } else {
                    usize::MAX
                },
            ),
            None => r == Err::<usize, RequestError>(RequestError::MalformedLength),
        },
{
    proof {
        reveal(content_length);
    }
    let signed = value.len() > 0 && (value[0] == 43 || value[0] == 45);
    let digits = if signed {
        slice_subrange(value, 1, value.len())
    } else {
        assert(value@.subrange(0, value@.len() as int) =~= value@);
        value
    };
    if digits.len() == 0 {
        return Err(RequestError::MalformedLength);
    }
    let mut total: usize = 0;
    let mut k: usize = 0;
    assert(digits@.subrange(0, 0) =~= Seq::<u8>::empty());
    while k < digits.len()
        invariant
            k <= digits@.len(),
            digits@.len() > 0,
            digits@ == if value@.len() > 0 && (value@[0] == 43 || value@[0] == 45) {
                value@.skip(1)
            } else {
                value@
            },
            all_digits(digits@.subrange(0, k as int)),
            total == if digits_value(digits@.subrange(0, k as int)) <= usize::MAX {
                digits_value(digits@.subrange(0, k as int)) as usize
            } else {
                usize::MAX
            },
        decreases digits@.len() - k,
    {
        let b = digits[k];
        if !(48 <= b && b <= 57) {
            proof {
                reveal(content_length);
            }
            assert(!is_digit(digits@[k as int]));
            assert(!all_digits(digits@));
            return Err(RequestError::MalformedLength);
        }
        let ghost before = digits@.subrange(0, k as int);
        let ghost after = digits@.subrange(0, k + 1);
        assert(after.drop_last() =~= before);
        assert(after.last() == b);
        assert(digits_value(after) == digits_value(before) * 10 + (b - 48));
        total = match total.checked_mul(10) {
            Some(tens) => match tens.checked_add((b - 48) as usize) {
                Some(sum) => sum,
                None => usize::MAX,
            },
            None => usize::MAX,
        };
        k += 1;
    }
    assert(digits@.subrange(0, k as int) =~= digits@);
    if signed && value[0] == 45 && total != 0 {
        return Err(RequestError::MalformedLength);
    }
    Ok(total)
}

/// The first two tokens of a request line are its method and its path,
/// whether or not anything follows them.
pub proof fn law_request_line_tokens(method: HttpMethod, path: Seq<u8>, tail: Seq<u8>)
    requires
        forall|i: int| 0 <= i < path.len() ==> path[i] != SP,
    ensures
        request_line(method.text() + seq![SP] + path) == Ok::<
            (HttpMethod, Seq<u8>),
            RequestError,
        >((method, path)),
        request_line(method.text() + seq![SP] + path + seq![SP] + tail) == Ok::<
            (HttpMethod, Seq<u8>),
            RequestError,
        >((method, path)),
{
    reveal(request_line);
    let name = method.text();
    let n = name.len() as int;
    method.lemma_text();
    let short = name + seq![SP] + path;
    let long = name + seq![SP] + path + seq![SP] + tail;
    assert(short.subrange(0, n) =~= name);
    assert(long.subrange(0, n) =~= name);
    lemma_token_ends(name, short);
    lemma_token_ends(name, long);
    assert(short.skip(n + 1) =~= path);
    assert(long.skip(n + 1) =~= path + seq![SP] + tail);
    assert forall|j: int| !matches_at(path, seq![SP], j) by {
        lemma_matches_byte(path, SP, j);
    }
    lemma_first_match_none(path, seq![SP]);
    let rest = path + seq![SP] + tail;
    assert(rest.subrange(0, path.len() as int) =~= path);
    lemma_token_ends(path, rest);
}

/// Where `token` holds no space and a space follows it, the first piece of
/// `line` is `token`.
proof fn lemma_token_ends(token: Seq<u8>, line: Seq<u8>)
    requires
        forall|i: int| 0 <= i < token.len() ==> token[i] != SP,
        token.len() < line.len(),
        line.subrange(0, token.len() as int) == token,
        line[token.len() as int] == SP,
    ensures
        first_match(line, seq![SP]) == Some(token.len() as int),
        split(line, SP) == seq![token] + split(line.skip(token.len() as int + 1), SP),
{
    let n = token.len() as int;
    assert forall|j: int| 0 <= j < n implies !matches_at(line, seq![SP], j) by {
        lemma_matches_byte(line, SP, j);
        assert(line[j] == line.subrange(0, n)[j]);
    }
    lemma_matches_byte(line, SP, n);
    lemma_first_match_is(line, seq![SP], n);
    lemma_split_at_first(line, SP, n);
}

/// A header line hands on its value as it stands: the name of a recognised
/// header, `": "`, a value that neither begins nor ends with whitespace, and
/// the terminator give that header with that value.
pub proof fn law_header_line(kind: RequestHeader, value: Seq<u8>)
    requires
        value.len() > 0 ==> !is_space(value[0]) && !is_space(value.last()),
    ensures
        header_line(kind.name() + colon_space() + value + crlf()) == Some((kind, value)),
{
    reveal(header_line);
    let name = kind.name();
    let n = name.len() as int;
    let line = name + colon_space() + value + crlf();
    kind.lemma_name();
    assert forall|j: int| 0 <= j < n implies !matches_at(line, colon_space(), j) by {
        if matches_at(line, colon_space(), j) {
            assert(line.subrange(j, j + 2)[0] == 58);
            assert(line[j] == name[j]);
        }
    }
    assert(line.subrange(n, n + 2) =~= colon_space());
    lemma_first_match_is(line, colon_space(), n);
    assert(line.subrange(0, n) =~= name);
    let rest = line.skip(n + 2);
    assert(rest =~= value + crlf());
    lemma_trim_line_end(value);
}

/// Trimming takes the terminator off a value that neither begins nor ends
/// with whitespace, and nothing else.
proof fn lemma_trim_line_end(value: Seq<u8>)
    requires
        value.len() > 0 ==> !is_space(value[0]) && !is_space(value.last()),
    ensures
        trim(value + crlf()) == value,
{
    let full = value + crlf();
    assert(full.drop_last() =~= value.push(CR));
    assert(value.push(CR).drop_last() =~= value);
    if value.len() == 0 {
        assert(full.skip(1) =~= seq![LF]);
        assert(seq![LF].skip(1) =~= Seq::<u8>::empty());
        assert(trim_start(Seq::<u8>::empty()) =~= Seq::<u8>::empty());
        assert(trim_start(seq![LF]) == Seq::<u8>::empty());
        assert(trim_start(full) == Seq::<u8>::empty());
    } else {
        assert(full[0] == value[0]);
        assert(trim_start(full) == full);
        assert(trim_end(value) == value);
        assert(trim_end(value.push(CR)) == value);
        assert(trim_end(full) == value);
    }
}

/// Appending groups either way.
proof fn lemma_regroup(a: Seq<u8>, b: Seq<u8>, c: Seq<u8>)
    ensures
        (a + b) + c == a + (b + c),
{
    assert((a + b) + c =~= a + (b + c));
}

/// A line without a carriage return ends where its terminator does.
proof fn lemma_line_ends(body: Seq<u8>, rest: Seq<u8>)
    requires
        forall|i: int| 0 <= i < body.len() ==> body[i] != CR,
    ensures
        line_len(body + crlf() + rest) == Some(body.len() as int + 2),
        (body + crlf() + rest).subrange(0, body.len() as int + 2) == body + crlf(),
        (body + crlf() + rest).skip(body.len() as int + 2) == rest,
{
    let s = body + crlf() + rest;
    let end = body.len() as int;
    assert forall|j: int| 0 <= j < end implies !matches_at(s, crlf(), j) by {
        if matches_at(s, crlf(), j) {
            assert(s.subrange(j, j + 2)[0] == CR);
            assert(s[j] == body[j]);
        }
    }
    assert(s.subrange(end, end + 2) =~= crlf());
    lemma_first_match_is(s, crlf(), end);
    assert(s.subrange(0, end + 2) =~= body + crlf());
    assert(s.skip(end + 2) =~= rest);
}

/// The first line of a stream that begins with a method, a space, a path, a
/// space, a version and the terminator ends with that terminator, and is a
/// request line for that method and that path.
proof fn lemma_first_line(method: HttpMethod, path: Seq<u8>, version: Seq<u8>, rest: Seq<u8>)
    requires
        forall|i: int| 0 <= i < path.len() ==> path[i] != SP && path[i] != CR,
        forall|i: int| 0 <= i < version.len() ==> version[i] != CR,
    ensures
        ({
            let stream = method.text() + seq![SP] + path + seq![SP] + version + crlf() + rest;
            let n = (method.text().len() + path.len() + version.len() + 4) as int;
            &&& line_len(stream) == Some(n)
            &&& request_line(stream.subrange(0, n)) == Ok::<(HttpMethod, Seq<u8>), RequestError>(
                (method, path),
            )
            &&& stream.skip(n) == rest
        }),
{
    let front = method.text() + seq![SP] + path + seq![SP];
    let body = front + version;
    method.lemma_text();
    assert forall|i: int| 0 <= i < body.len() implies body[i] != CR by {
        let name = method.text();
        if i < name.len() {
            assert(body[i] == name[i]);
        }
    }
    lemma_line_ends(body, rest);
    lemma_regroup(front, version, crlf());
    law_request_line_tokens(method, path, version + crlf());
}

/// A stream that begins with the terminator begins with the empty header
/// block.
proof fn lemma_empty_block(rest: Seq<u8>, seen: Map<RequestHeader, Seq<u8>>)
    ensures
        header_block(crlf() + rest, seen) == Some(Block { headers: seen, len: 2 }),
{
    let s = crlf() + rest;
    assert(s.subrange(0, 2) =~= crlf());
    lemma_first_match_is(s, crlf(), 0);
}

/// A stream that begins with one header line and the empty line begins with
/// the header block of that one header.
proof fn lemma_one_header_block(kind: RequestHeader, value: Seq<u8>, rest: Seq<u8>)
    requires
        forall|i: int| 0 <= i < value.len() ==> value[i] != CR,
        value.len() > 0 ==> !is_space(value[0]) && !is_space(value.last()),
    ensures
        header_block(
            kind.name() + colon_space() + value + crlf() + crlf() + rest,
            Map::empty(),
        ) == Some(
            Block {
                headers: Map::<RequestHeader, Seq<u8>>::empty().insert(kind, value),
                len: (kind.name().len() + value.len() + 6) as int,
            },
        ),
{
    let name = kind.name();
    let body = name + colon_space() + value;
    kind.lemma_name();
    assert forall|i: int| 0 <= i < body.len() implies body[i] != CR by {
        if i < name.len() {
            assert(body[i] == name[i]);
        }
    }
    lemma_regroup(body + crlf(), crlf(), rest);
    lemma_line_ends(body, crlf() + rest);
    law_header_line(kind, value);
    lemma_empty_block(rest, Map::<RequestHeader, Seq<u8>>::empty().insert(kind, value));
}

/// A request without headers. The method, a space, a path that holds neither
/// a space nor a carriage return, a space, a version that holds no carriage
/// return, and two terminators are a request for that method and that path,
/// with no headers and no body; it ends with the second terminator, whatever
/// follows.
pub proof fn law_plain_request(
    method: HttpMethod,
    path: Seq<u8>,
    version: Seq<u8>,
    more: Seq<u8>,
)
    requires
        forall|i: int| 0 <= i < path.len() ==> path[i] != SP && path[i] != CR,
        forall|i: int| 0 <= i < version.len() ==> version[i] != CR,
    ensures
        parse_request(
            method.text() + seq![SP] + path + seq![SP] + version + crlf() + crlf() + more,
        ) == Ok::<Parsed, RequestError>(
            Parsed {
                request: RequestView {
                    method,
                    path,
                    headers: Map::empty(),
                    body: Seq::empty(),
                },
                len: (method.text().len() + path.len() + version.len() + 6) as int,
            },
        ),
{
    let head = method.text() + seq![SP] + path + seq![SP] + version + crlf();
    lemma_regroup(head, crlf(), more);
    lemma_first_line(method, path, version, crlf() + more);
    lemma_empty_block(more, Map::empty());
}

/// A request with one header. The request line as in [`law_plain_request`],
/// then one header line as in [`law_header_line`] for a header other than
/// `Content-Length`, with a value that holds no carriage return, then the
/// empty line: a request with that one header, and no body.
pub proof fn law_request_with_header(
    method: HttpMethod,
    path: Seq<u8>,
    version: Seq<u8>,
    kind: RequestHeader,
    value: Seq<u8>,
    more: Seq<u8>,
)
    requires
        forall|i: int| 0 <= i < path.len() ==> path[i] != SP && path[i] != CR,
        forall|i: int| 0 <= i < version.len() ==> version[i] != CR,
        forall|i: int| 0 <= i < value.len() ==> value[i] != CR,
        value.len() > 0 ==> !is_space(value[0]) && !is_space(value.last()),
        kind != RequestHeader::Length,
    ensures
        parse_request(
            method.text() + seq![SP] + path + seq![SP] + version + crlf() + (kind.name()
                + colon_space() + value + crlf()) + crlf() + more,
        ) == Ok::<Parsed, RequestError>(
            Parsed {
                request: RequestView {
                    method,
                    path,
                    headers: Map::<RequestHeader, Seq<u8>>::empty().insert(kind, value),
                    body: Seq::empty(),
                },
                len: (method.text().len() + path.len() + version.len() + kind.name().len()
                    + value.len() + 10) as int,
            },
        ),
{
    let field = kind.name() + colon_space() + value + crlf();
    let head = method.text() + seq![SP] + path + seq![SP] + version + crlf();
    lemma_regroup(head, field, crlf());
    lemma_regroup(head, field + crlf(), more);
    lemma_first_line(method, path, version, field + crlf() + more);
    lemma_one_header_block(kind, value, more);
}

/// A length in decimal is a `Content-Length` value for that length; it holds
/// no carriage return and no whitespace.
proof fn lemma_decimal_is_a_length(n: nat)
    ensures
        content_length(decimal(n)) == Some(n),
        decimal(n).len() > 0,
        forall|i: int| 0 <= i < decimal(n).len() ==> decimal(n)[i] != CR,
        !is_space(decimal(n)[0]) && !is_space(decimal(n).last()),
{
    reveal(content_length);
    let value = decimal(n);
    law_decimal_round_trip(n);
    assert(is_digit(value[0]) && is_digit(value.last()));
    assert forall|i: int| 0 <= i < value.len() implies value[i] != CR by {
        assert(is_digit(value[i]));
    }
}

/// What stands between a front and a back is found behind the front.
proof fn lemma_middle(front: Seq<u8>, middle: Seq<u8>, back: Seq<u8>)
    ensures
        (front + middle + back).subrange(
            front.len() as int,
            front.len() as int + middle.len(),
        ) == middle,
        (front + middle + back).len() == front.len() + middle.len() + back.len(),
{
    assert((front + middle + back).subrange(
        front.len() as int,
        front.len() as int + middle.len(),
    ) =~= middle);
}

/// A request with a body. The request line as in [`law_plain_request`], then
/// `Content-Length` with the length of `body` in decimal, the empty line, and
/// `body`: a request with exactly that body, whatever the body holds and
/// whatever follows it.
pub proof fn law_request_with_body(
    method: HttpMethod,
    path: Seq<u8>,
    version: Seq<u8>,
    body: Seq<u8>,
    more: Seq<u8>,
)
    requires
        forall|i: int| 0 <= i < path.len() ==> path[i] != SP && path[i] != CR,
        forall|i: int| 0 <= i < version.len() ==> version[i] != CR,
    ensures
        ({
            let stream = method.text() + seq![SP] + path + seq![SP] + version + crlf() + (
            RequestHeader::Length.name() + colon_space() + decimal(body.len()) + crlf()) + crlf()
                + body + more;
            parse_request(stream) == Ok::<Parsed, RequestError>(
                Parsed {
                    request: RequestView {
                        method,
                        path,
                        headers: Map::<RequestHeader, Seq<u8>>::empty().insert(
                            RequestHeader::Length,
                            decimal(body.len()),
                        ),
                        body,
                    },
                    len: stream.len() - more.len(),
                },
            )
        }),
{
    let kind = RequestHeader::Length;
    let value = decimal(body.len());
    let field = kind.name() + colon_space() + value + crlf();
    let head = method.text() + seq![SP] + path + seq![SP] + version + crlf();
    let tail = body + more;
    let front = head + field + crlf();
    lemma_decimal_is_a_length(body.len());
    lemma_regroup(front, body, more);
    lemma_regroup(head, field, crlf());
    lemma_regroup(head, field + crlf(), tail);
    lemma_first_line(method, path, version, field + crlf() + tail);
    lemma_one_header_block(kind, value, tail);
    lemma_middle(front, body, more);
}

/// A header block lies within its stream and holds at least its empty line.
pub proof fn lemma_header_block_fits(s: Seq<u8>, seen: Map<RequestHeader, Seq<u8>>)
    requires
        header_block(s, seen) is Some,
    ensures
        2 <= header_block(s, seen)->0.len <= s.len(),
    decreases s.len(),
{
    let n = line_len(s)->0;
    lemma_first_match_some(s, crlf());
    if n != 2 {
        lemma_header_block_fits(s.skip(n), with_line(seen, s.subrange(0, n)));
    }
}

/// The header block depends only on the bytes it takes up: a stream that
/// agrees with `a` that far begins with the same block.
pub proof fn lemma_header_block_local(
    a: Seq<u8>,
    b: Seq<u8>,
    seen: Map<RequestHeader, Seq<u8>>,
)
    requires
        header_block(a, seen) is Some,
        header_block(a, seen)->0.len <= b.len(),
        b.subrange(0, header_block(a, seen)->0.len) == a.subrange(0, header_block(a, seen)->0.len),
    ensures
        header_block(b, seen) == header_block(a, seen),
    decreases a.len(),
{
    let m = header_block(a, seen)->0.len;
    let n = line_len(a)->0;
    lemma_header_block_fits(a, seen);
    lemma_first_match_some(a, crlf());
    if n == 2 {
        assert(b.subrange(0, 2) =~= b.subrange(0, m).subrange(0, 2));
        assert(a.subrange(0, 2) =~= a.subrange(0, m).subrange(0, 2));
        lemma_first_match_local(a, b, crlf());
    } else {
        let next = with_line(seen, a.subrange(0, n));
        let rest = header_block(a.skip(n), next);
        assert(rest is Some);
        let k = rest->0.len;
        lemma_header_block_fits(a.skip(n), next);
        assert(m == n + k);
        assert(b.skip(n).subrange(0, k) =~= b.subrange(0, m).subrange(n, m));
        assert(a.skip(n).subrange(0, k) =~= a.subrange(0, m).subrange(n, m));
        lemma_header_block_local(a.skip(n), b.skip(n), next);
        assert(b.subrange(0, n) =~= b.subrange(0, m).subrange(0, n));
        assert(a.subrange(0, n) =~= a.subrange(0, m).subrange(0, n));
        lemma_first_match_local(a, b, crlf());
    }
}

/// A stream cut off within its header block holds no header block.
pub proof fn lemma_header_block_cut(s: Seq<u8>, seen: Map<RequestHeader, Seq<u8>>, k: int)
    requires
        header_block(s, seen) is Some,
        0 <= k < header_block(s, seen)->0.len,
    ensures
        header_block(s.subrange(0, k), seen) is None,
    decreases s.len(),
{
    let m = header_block(s, seen)->0.len;
    let n = line_len(s)->0;
    let cut = s.subrange(0, k);
    lemma_header_block_fits(s, seen);
    lemma_first_match_some(s, crlf());
    if k < n {
        lemma_first_match_cut(s, crlf(), k);
    } else {
        let next = with_line(seen, s.subrange(0, n));
        assert(cut.subrange(0, n) =~= s.subrange(0, n));
        lemma_first_match_local(s, cut, crlf());
        assert(cut.skip(n) =~= s.skip(n).subrange(0, k - n));
        lemma_header_block_cut(s.skip(n), next, k - n);
    }
}

/// A request is made of the bytes it takes up and of no others: any stream
/// that begins with those bytes begins with the same request.
pub proof fn law_request_is_local(a: Seq<u8>, b: Seq<u8>)
    requires
        parse_request(a) is Ok,
        parse_request(a)->Ok_0.len <= b.len(),
        b.subrange(0, parse_request(a)->Ok_0.len) == a.subrange(0, parse_request(a)->Ok_0.len),
    ensures
        parse_request(b) == parse_request(a),
{
    let total = parse_request(a)->Ok_0.len;
    let n = line_len(a)->0;
    lemma_first_match_some(a, crlf());
    let block = header_block(a.skip(n), Map::empty());
    lemma_header_block_fits(a.skip(n), Map::empty());
    let m = block->0.len;
    let headers = block->0.headers;
    assert(n + m <= total <= a.len());
    assert(b.subrange(0, n) =~= b.subrange(0, total).subrange(0, n));
    assert(a.subrange(0, n) =~= a.subrange(0, total).subrange(0, n));
    lemma_first_match_local(a, b, crlf());
    assert(b.skip(n).subrange(0, m) =~= b.subrange(0, total).subrange(n, n + m));
    assert(a.skip(n).subrange(0, m) =~= a.subrange(0, total).subrange(n, n + m));
    lemma_header_block_local(a.skip(n), b.skip(n), Map::empty());
    assert(b.subrange(n + m, total) =~= b.subrange(0, total).subrange(n + m, total));
    assert(a.subrange(n + m, total) =~= a.subrange(0, total).subrange(n + m, total));
}

/// What follows a request on the stream does not change it, and a request
/// that is malformed stays so whatever follows: once the verdict is anything
/// but `UnexpectedEof`, more bytes do not change it.
pub proof fn law_verdict_is_final(s: Seq<u8>, more: Seq<u8>)
    requires
        parse_request(s) != Err::<Parsed, RequestError>(RequestError::UnexpectedEof),
    ensures
        parse_request(s + more) == parse_request(s),
{
    let b = s + more;
    if parse_request(s) is Ok {
        let total = parse_request(s)->Ok_0.len;
        lemma_request_fits(s);
        assert(b.subrange(0, total) =~= s.subrange(0, total));
        law_request_is_local(s, b);
    } else {
        let n = line_len(s)->0;
        lemma_first_match_some(s, crlf());
        assert(b.subrange(0, n) =~= s.subrange(0, n));
        lemma_first_match_local(s, b, crlf());
        if request_line(s.subrange(0, n)) is Ok {
            let block = header_block(s.skip(n), Map::empty());
            lemma_header_block_fits(s.skip(n), Map::empty());
            let m = block->0.len;
            assert(b.skip(n).subrange(0, m) =~= s.skip(n).subrange(0, m));
            lemma_header_block_local(s.skip(n), b.skip(n), Map::empty());
        }
    }
}

/// A request lies within its stream, and its body is the bytes that it ends
/// with: as many as its `Content-Length` announces, none without one.
pub proof fn lemma_request_fits(s: Seq<u8>)
    requires
        parse_request(s) is Ok,
    ensures
        ({
            let request = parse_request(s)->Ok_0.request;
            let total = parse_request(s)->Ok_0.len;
            &&& 0 <= request.body.len() <= total <= s.len()
            &&& request.body == s.subrange(total - request.body.len(), total)
            &&& if request.headers.contains_key(RequestHeader::Length) {
                content_length(request.headers[RequestHeader::Length]) == Some(request.body.len())
            } else {
                request.body.len() == 0
            }
        }),
{
    let n = line_len(s)->0;
    lemma_first_match_some(s, crlf());
    lemma_header_block_fits(s.skip(n), Map::empty());
    let request = parse_request(s)->Ok_0.request;
    let total = parse_request(s)->Ok_0.len;
    assert(request.body =~= s.subrange(total - request.body.len(), total));
}

/// A stream that ends before its request does is an `UnexpectedEof`: it is
/// never taken for a request with a shorter body, nor for any other.
pub proof fn law_cut_request_is_eof(s: Seq<u8>, k: int)
    requires
        parse_request(s) is Ok,
        0 <= k < parse_request(s)->Ok_0.len,
    ensures
        parse_request(s.subrange(0, k)) == Err::<Parsed, RequestError>(
            RequestError::UnexpectedEof,
        ),
{
    let cut = s.subrange(0, k);
    let n = line_len(s)->0;
    lemma_request_fits(s);
    lemma_first_match_some(s, crlf());
    if k < n {
        lemma_first_match_cut(s, crlf(), k);
    } else {
        assert(cut.subrange(0, n) =~= s.subrange(0, n));
        lemma_first_match_local(s, cut, crlf());
        let block = header_block(s.skip(n), Map::empty());
        lemma_header_block_fits(s.skip(n), Map::empty());
        let m = block->0.len;
        assert(cut.skip(n) =~= s.skip(n).subrange(0, k - n));
        if k < n + m {
            lemma_header_block_cut(s.skip(n), Map::empty(), k - n);
        } else {
            assert(cut.skip(n).subrange(0, m) =~= s.skip(n).subrange(0, m));
            lemma_header_block_local(s.skip(n), cut.skip(n), Map::empty());
        }
    }
}

} // verus!
