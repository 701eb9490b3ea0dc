//! The vocabulary of the protocol: the request methods, the request headers
//! that are recognised, and the header lines that a response is made of.

use crate::text::{append, append_decimal, bytes_eq, crlf, decimal, lit, CR, LF};
use std::str::FromStr;
use vstd::prelude::*;
use vstd::string::*;
use vstd::utf8::encode_utf8;

verus! {

/// The request methods that are served.
#[derive(Clone, Copy, Debug, PartialEq, Eq, Hash, Structural)]
pub enum HttpMethod {
    Get,
    Post,
}

impl HttpMethod {
    /// The method that the text `token` names: `GET` or `POST`, in capitals.
    pub open spec fn lookup(token: Seq<u8>) -> Option<HttpMethod> {
        if token == lit("GET") {
            Some(HttpMethod::Get)
        } else if token == lit("POST") {
            Some(HttpMethod::Post)
        } else {
            None
        }
    }

    /// The text that names the method.
    pub open spec fn text(self) -> Seq<u8> {
        match self {
            HttpMethod::Get => lit("GET"),
            HttpMethod::Post => lit("POST"),
        }
    }

    /// Each method is recognised by its text, which is made of capital
    /// letters.
    pub proof fn lemma_text(self)
        ensures
            Self::lookup(self.text()) == Some(self),
            self.text().len() > 0,
            forall|i: int| 0 <= i < self.text().len() ==> 65 <= #[trigger] self.text()[i] <= 90,
    {
        reveal_strlit("GET");
        reveal_strlit("POST");
        assert(is_ascii("GET"));
        assert(is_ascii("POST"));
        is_ascii_spec_bytes("GET");
        is_ascii_spec_bytes("POST");
    }

    /// Recognises a method by its text.
    pub fn from_bytes(token: &[u8]) -> (method: Option<HttpMethod>)
        ensures
            method == Self::lookup(token@),
    {
        if bytes_eq(token, "GET".as_bytes()) {
            Some(HttpMethod::Get)
        } else if bytes_eq(token, "POST".as_bytes()) {
            Some(HttpMethod::Post)
        } else {
            None
        }
    }
}

impl FromStr for HttpMethod {
    type Err = String;

    /// Recognises a method by its text; any other text is an error.
    fn from_str(s: &str) -> (r: Result<Self, String>)
        ensures
            match HttpMethod::lookup(s.spec_bytes()) {
                Some(method) => r == Ok::<HttpMethod, String>(method),
                None => r is Err && r->Err_0@ == "unrecognised method"@,
            },
    {
        match HttpMethod::from_bytes(s.as_bytes()) {
            Some(method) => Ok(method),
            None => Err("unrecognised method".to_owned()),
        }
    }
}

/// The request headers that are kept. A request may carry others; they are
/// passed over.
#[derive(Clone, Copy, Debug, PartialEq, Eq, Hash, Structural)]
pub enum RequestHeader {
    Host,
    Agent,
    Accept,
    Length,
}

impl RequestHeader {
    /// The name under which the header travels.
    pub open spec fn name(self) -> Seq<u8> {
        match self {
            RequestHeader::Host => lit("Host"),
            RequestHeader::Agent => lit("User-Agent"),
            RequestHeader::Accept => lit("Accept"),
            RequestHeader::Length => lit("Content-Length"),
        }
    }

    /// The header that `name` names, letter for letter.
    pub open spec fn lookup(name: Seq<u8>) -> Option<RequestHeader> {
        if name == lit("Host") {
            Some(RequestHeader::Host)
        } else if name == lit("User-Agent") {
            Some(RequestHeader::Agent)
        } else if name == lit("Accept") {
            Some(RequestHeader::Accept)
        } else if name == lit("Content-Length") {
            Some(RequestHeader::Length)
        } else {
            None
        }
    }

    /// Each header is recognised by its name, which is made of letters and
    /// hyphens.
    pub proof fn lemma_name(self)
        ensures
            Self::lookup(self.name()) == Some(self),
            self.name().len() > 0,
            forall|i: int|
                0 <= i < self.name().len() ==> 45 <= #[trigger] self.name()[i] <= 122,
    {
        reveal_strlit("Host");
        reveal_strlit("User-Agent");
        reveal_strlit("Accept");
        reveal_strlit("Content-Length");
        assert(is_ascii("Host"));
        assert(is_ascii("User-Agent"));
        assert(is_ascii("Accept"));
        assert(is_ascii("Content-Length"));
        is_ascii_spec_bytes("Host");
        is_ascii_spec_bytes("User-Agent");
        is_ascii_spec_bytes("Accept");
        is_ascii_spec_bytes("Content-Length");
    }

    /// Recognises a header by its name.
    pub fn from_bytes(name: &[u8]) -> (kind: Option<RequestHeader>)
        ensures
            kind == Self::lookup(name@),
    {
        if bytes_eq(name, "Host".as_bytes()) {
            Some(RequestHeader::Host)
        } else if bytes_eq(name, "User-Agent".as_bytes()) {
            Some(RequestHeader::Agent)
        } else if bytes_eq(name, "Accept".as_bytes()) {
            Some(RequestHeader::Accept)
        } else if bytes_eq(name, "Content-Length".as_bytes()) {
            Some(RequestHeader::Length)
        } else {
            None
        }
    }
}

impl FromStr for RequestHeader {
    type Err = String;

    /// Recognises a header by its name; any other name is an error.
    fn from_str(s: &str) -> (r: Result<Self, String>)
        ensures
            match RequestHeader::lookup(s.spec_bytes()) {
                Some(kind) => r == Ok::<RequestHeader, String>(kind),
                None => r is Err && r->Err_0@ == "unrecognised header"@,
            },
    {
        match RequestHeader::from_bytes(s.as_bytes()) {
            Some(kind) => Ok(kind),
            None => Err("unrecognised header".to_owned()),
        }
    }
}

/// The headers of one request: for each recognised header at most one value.
#[derive(Debug, PartialEq, Eq)]
pub struct HeaderMap {
    host: Option<Vec<u8>>,
    agent: Option<Vec<u8>>,
    accept: Option<Vec<u8>>,
    length: Option<Vec<u8>>,
}

impl HeaderMap {
    /// The value kept for `kind`, if any.
    spec fn slot(&self, kind: RequestHeader) -> Option<Seq<u8>> {
        let held = match kind {
            RequestHeader::Host => self.host,
            RequestHeader::Agent => self.agent,
            RequestHeader::Accept => self.accept,
            RequestHeader::Length => self.length,
        };
        match held {
            Some(value) => Some(value@),
            None => None,
        }
    }

    /// A map without any header.
    pub fn new() -> (headers: HeaderMap)
        ensures
            headers@ == Map::<RequestHeader, Seq<u8>>::empty(),
    {
        let headers = HeaderMap { host: None, agent: None, accept: None, length: None };
        assert(headers@ =~= Map::<RequestHeader, Seq<u8>>::empty());
        headers
    }

    /// Keeps `value` for `kind`, in place of any value kept for it before.
    pub fn insert(&mut self, kind: RequestHeader, value: Vec<u8>)
        ensures
            final(self)@ == old(self)@.insert(kind, value@),
    {
        match kind {
            RequestHeader::Host => {
                self.host = Some(value);
            },
            RequestHeader::Agent => {
                self.agent = Some(value);
            },
            RequestHeader::Accept => {
                self.accept = Some(value);
            },
            RequestHeader::Length => {
                self.length = Some(value);
            },
        }
        assert(self@ =~= old(self)@.insert(kind, value@));
    }

    /// The value kept for `kind`.
    pub fn get(&self, kind: RequestHeader) -> (value: Option<&Vec<u8>>)
        ensures
            match value {
                Some(v) => self@.contains_key(kind) && self@[kind] == v@,
                None => !self@.contains_key(kind),
            },
    {
        match kind {
            RequestHeader::Host => self.host.as_ref(),
            RequestHeader::Agent => self.agent.as_ref(),
            RequestHeader::Accept => self.accept.as_ref(),
            RequestHeader::Length => self.length.as_ref(),
        }
    }
}

impl View for HeaderMap {
    type V = Map<RequestHeader, Seq<u8>>;

    closed spec fn view(&self) -> Map<RequestHeader, Seq<u8>> {
        Map::new(|kind: RequestHeader| self.slot(kind) is Some, |kind: RequestHeader| self.slot(kind)->0)
    }
}

/// The status line for `code`. The codes from 200 to 299 are `OK`, but for
/// 201, which is `Created`; the codes from 400 to 499 are `Not Found`. Any
/// other code has no status line: nothing is written for it.
pub open spec fn status_line(code: int) -> Seq<u8> {
    if code == 201 {
        lit("HTTP/1.1 ") + decimal(code as nat) + lit(" Created\r\n")
    } else if 200 <= code <= 299 {
        lit("HTTP/1.1 ") + decimal(code as nat) + lit(" OK\r\n")
    } else if 400 <= code <= 499 {
        lit("HTTP/1.1 ") + decimal(code as nat) + lit(" Not Found\r\n")
    } else {
        Seq::empty()
    }
}

/// The status lines of the codes that are in use, letter for letter.
pub proof fn lemma_status_line_texts()
    ensures
        status_line(200) == lit("HTTP/1.1 200 OK\r\n"),
        status_line(201) == lit("HTTP/1.1 201 Created\r\n"),
        status_line(404) == lit("HTTP/1.1 404 Not Found\r\n"),
{
    reveal_strlit("HTTP/1.1 ");
    reveal_strlit(" OK\r\n");
    reveal_strlit(" Created\r\n");
    reveal_strlit(" Not Found\r\n");
    reveal_strlit("HTTP/1.1 200 OK\r\n");
    reveal_strlit("HTTP/1.1 201 Created\r\n");
    reveal_strlit("HTTP/1.1 404 Not Found\r\n");
    assert(is_ascii("HTTP/1.1 "));
    assert(is_ascii(" OK\r\n"));
    assert(is_ascii(" Created\r\n"));
    assert(is_ascii(" Not Found\r\n"));
    assert(is_ascii("HTTP/1.1 200 OK\r\n"));
    assert(is_ascii("HTTP/1.1 201 Created\r\n"));
    assert(is_ascii("HTTP/1.1 404 Not Found\r\n"));
    is_ascii_spec_bytes("HTTP/1.1 ");
    is_ascii_spec_bytes(" OK\r\n");
    is_ascii_spec_bytes(" Created\r\n");
    is_ascii_spec_bytes(" Not Found\r\n");
    is_ascii_spec_bytes("HTTP/1.1 200 OK\r\n");
    is_ascii_spec_bytes("HTTP/1.1 201 Created\r\n");
    is_ascii_spec_bytes("HTTP/1.1 404 Not Found\r\n");
    reveal_with_fuel(decimal, 3);
    assert(decimal(200) =~= seq![50u8, 48u8, 48u8]);
    assert(decimal(201) =~= seq![50u8, 48u8, 49u8]);
    assert(decimal(404) =~= seq![52u8, 48u8, 52u8]);
    assert(status_line(200) =~= lit("HTTP/1.1 200 OK\r\n"));
    assert(status_line(201) =~= lit("HTTP/1.1 201 Created\r\n"));
    assert(status_line(404) =~= lit("HTTP/1.1 404 Not Found\r\n"));
}

/// The `Content-Type` line for `value`.
pub open spec fn content_type_line(value: Seq<u8>) -> Seq<u8> {
    lit("Content-Type: ") + value + crlf()
}

/// The `Content-Length` line for a body of `n` bytes.
pub open spec fn content_length_line(n: nat) -> Seq<u8> {
    lit("Content-Length: ") + decimal(n) + crlf()
}

/// One line of a response's head.
#[derive(Debug, PartialEq, Eq)]
pub enum ResponseHeader {
    /// The status line, by its code.
    Status(i32),
    /// `Content-Type`, by its value.
    Type(String),
    /// `Content-Length`, by the number of bytes of the body.
    Length(usize),
}

impl ResponseHeader {
    /// The bytes that the header is on the wire.
    pub open spec fn wire(self) -> Seq<u8> {
        match self {
            ResponseHeader::Status(code) => status_line(code as int),
            ResponseHeader::Type(value) => content_type_line(encode_utf8(value@)),
            ResponseHeader::Length(n) => content_length_line(n as nat),
        }
    }

    /// Appends the header's wire text to `out`.
    pub fn write_to(&self, out: &mut Vec<u8>)
        ensures
            final(out)@ == old(out)@ + self.wire(),
    {
        match self {
            ResponseHeader::Status(code) => {
                let code: i32 = *code;
                if 200 <= code && code <= 299 {
                    append(out, "HTTP/1.1 ".as_bytes());
                    append_decimal(out, code as usize);
                    if code == 201 {
                        append(out, " Created\r\n".as_bytes());
                    } else {
                        append(out, " OK\r\n".as_bytes());
                    }
                } else if 400 <= code && code <= 499 {
                    append(out, "HTTP/1.1 ".as_bytes());
                    append_decimal(out, code as usize);
                    append(out, " Not Found\r\n".as_bytes());
                }
            },
            ResponseHeader::Type(value) => {
                append(out, "Content-Type: ".as_bytes());
                append(out, value.as_str().as_bytes());
                out.push(CR);
                out.push(LF);
            },
            ResponseHeader::Length(n) => {
                append(out, "Content-Length: ".as_bytes());
                append_decimal(out, *n);
                out.push(CR);
                out.push(LF);
            },
        }
        assert(out@ =~= old(out)@ + self.wire());
    }

    /// The header's wire text.
    pub fn to_bytes(&self) -> (bytes: Vec<u8>)
        ensures
            bytes@ == self.wire(),
    {
        let mut bytes: Vec<u8> = Vec::new();
        self.write_to(&mut bytes);
        assert(bytes@ =~= self.wire());
        bytes
    }
}

} // verus!
