//! One connection, held in memory: the bytes that came in, how far they have
//! been read, and the bytes that went out.
//!
//! The reader takes lines and bodies off the incoming bytes; the writer puts
//! header lines, the empty line and the body behind one another. Neither
//! touches a socket: whoever owns the socket feeds what it received and sends
//! what was written.

use crate::header::{HeaderMap, RequestHeader, ResponseHeader};
use crate::request::{
    header_block, line_len, parse_field, parse_header, parse_length, parse_request, request_line,
    Block, Request, RequestError,
};
use crate::text::{append, crlf, find, lemma_first_match_some, lemma_lit_delimiters, CR, LF};
use vstd::prelude::*;
use vstd::slice::slice_subrange;
use vstd::slice::slice_to_vec;

verus! {

/// The two sides of one connection.
#[derive(Debug)]
pub struct Server {
    input: Vec<u8>,
    cursor: usize,
    output: Vec<u8>,
}

/// A header block found `used` bytes into a stream, seen from the stream's
/// start.
spec fn later(block: Option<Block>, used: int) -> Option<Block> {
    match block {
        Some(found) => Some(Block { headers: found.headers, len: used + found.len }),
        None => None,
    }
}

impl Server {
    /// All the bytes that came in, read or not.
    pub closed spec fn received(&self) -> Seq<u8> {
        self.input@
    }

    /// How many of the received bytes have been read.
    pub closed spec fn position(&self) -> int {
        self.cursor as int
    }

    /// The bytes written so far, in order.
    pub closed spec fn written(&self) -> Seq<u8> {
        self.output@
    }

    /// What has been read lies within what has come in.
    pub open spec fn wf(&self) -> bool {
        0 <= self.position() <= self.received().len()
    }

    /// The bytes that came in and have not been read yet.
    pub open spec fn unread(&self) -> Seq<u8> {
        self.received().skip(self.position())
    }

    /// A connection on which `input` has come in and nothing has gone out.
    pub fn new(input: Vec<u8>) -> (server: Server)
        ensures
            server.wf(),
            server.received() == input@,
            server.position() == 0,
            server.unread() == input@,
            server.written() == Seq::<u8>::empty(),
    {
        let server = Server { input, cursor: 0, output: Vec::new() };
        assert(server.unread() =~= input@);
        server
    }

    /// More bytes have come in.
    pub fn feed(&mut self, bytes: &[u8])
        requires
            old(self).wf(),
        ensures
            final(self).wf(),
            final(self).received() == old(self).received() + bytes@,
            final(self).position() == old(self).position(),
            final(self).unread() == old(self).unread() + bytes@,
            final(self).written() == old(self).written(),
    {
        append(&mut self.input, bytes);
        assert(self.unread() =~= old(self).unread() + bytes@);
    }

    /// The bytes that came in and have not been read yet.
    pub fn pending(&self) -> (bytes: &[u8])
        requires
            self.wf(),
        ensures
            bytes@ == self.unread(),
    {
        slice_subrange(self.input.as_slice(), self.cursor, self.input.len())
    }

    /// The bytes written so far.
    pub fn output(&self) -> (bytes: &[u8])
        ensures
            bytes@ == self.written(),
    {
        self.output.as_slice()
    }

    /// Writes one header line.
    pub fn with(&mut self, header: ResponseHeader) -> (ret: &mut Self)
        requires
            old(self).wf(),
        ensures
            ret.wf(),
            ret.received() == old(self).received(),
            ret.position() == old(self).position(),
            ret.written() == old(self).written() + header.wire(),
            *final(self) == *final(ret),
    {
        header.write_to(&mut self.output);
        self
    }

    /// Ends the head of the response with an empty line and writes the body,
    /// if there is one.
    pub fn send(&mut self, body: Option<Vec<u8>>)
        requires
            old(self).wf(),
        ensures
            final(self).wf(),
            final(self).received() == old(self).received(),
            final(self).position() == old(self).position(),
            final(self).written() == old(self).written() + crlf() + match body {
                Some(bytes) => bytes@,
                None => Seq::<u8>::empty(),
            },
    {
        self.output.push(CR);
        self.output.push(LF);
        if let Some(bytes) = body {
            append(&mut self.output, bytes.as_slice());
            assert(self.written() =~= old(self).written() + crlf() + bytes@);
        } else {
            assert(self.written() =~= old(self).written() + crlf() + Seq::<u8>::empty());
        }
    }

    /// Reads up to and including the next line terminator. Where none has
    /// come in, nothing is read.
    pub fn read_line(&mut self) -> (r: Result<Vec<u8>, RequestError>)
        requires
            old(self).wf(),
        ensures
            final(self).wf(),
            final(self).received() == old(self).received(),
            final(self).written() == old(self).written(),
            match line_len(old(self).unread()) {
                Some(n) => match r {
                    Ok(line) => {
                        &&& line@ == old(self).unread().subrange(0, n)
                        &&& final(self).position() == old(self).position() + n
                    },
                    Err(_) => false,
                },
                None => {
                    &&& r == Err::<Vec<u8>, RequestError>(RequestError::UnexpectedEof)
                    &&& final(self).position() == old(self).position()
                },
            },
    {
        let rest = slice_subrange(self.input.as_slice(), self.cursor, self.input.len());
        proof {
            lemma_lit_delimiters();
        }
        match find(rest, "\r\n".as_bytes()) {
            Some(i) => {
                proof {
                    lemma_first_match_some(rest@, crlf());
                }
                assert(i + 2 <= rest.len());
                let line = slice_to_vec(slice_subrange(rest, 0, i + 2));
                self.cursor = self.cursor + (i + 2);
                Ok(line)
            },
            None => Err(RequestError::UnexpectedEof),
        }
    }

    /// Reads exactly `n` bytes. Where fewer have come in, nothing is read.
    pub fn read_exact(&mut self, n: usize) -> (r: Result<Vec<u8>, RequestError>)
        requires
            old(self).wf(),
        ensures
            final(self).wf(),
            final(self).received() == old(self).received(),
            final(self).written() == old(self).written(),
            if n <= old(self).unread().len() {
                match r {
                    Ok(bytes) => {
                        &&& bytes@ == old(self).unread().subrange(0, n as int)
                        &&& final(self).position() == old(self).position() + n
                    },
                    Err(_) => false,
                }
            } else {
                &&& r == Err::<Vec<u8>, RequestError>(RequestError::UnexpectedEof)
                &&& final(self).position() == old(self).position()
            },
    {
        if n > self.input.len() - self.cursor {
            return Err(RequestError::UnexpectedEof);
        }
        let bytes = slice_to_vec(
            slice_subrange(self.input.as_slice(), self.cursor, self.cursor + n),
        );
        assert(bytes@ =~= self.unread().subrange(0, n as int));
        self.cursor = self.cursor + n;
        Ok(bytes)
    }

    /// Reads one request: the request line, the header block, and the body
    /// that `Content-Length` announces. Where the request is malformed, or has
    /// not come in whole, nothing is read.
    pub fn read_all(&mut self) -> (r: Result<Request, RequestError>)
        requires
            old(self).wf(),
        ensures
            final(self).wf(),
            final(self).received() == old(self).received(),
            final(self).written() == old(self).written(),
            match parse_request(old(self).unread()) {
                Ok(parsed) => match r {
                    Ok(got) => {
                        &&& got@ == parsed.request
                        &&& final(self).position() == old(self).position() + parsed.len
                    },
                    Err(_) => false,
                },
                Err(e) => {
                    &&& r == Err::<Request, RequestError>(e)
                    &&& final(self).position() == old(self).position()
                },
            },
    {
        let start = self.cursor;
        let ghost all = self.received();
        let ghost whole = self.unread();
        let first = match self.read_line() {
            Ok(line) => line,
            Err(e) => {
                return Err(e);
            },
        };
        proof {
            lemma_first_match_some(whole, crlf());
        }
        let ghost line_end = self.position();
        assert(all.skip(line_end) =~= whole.skip(line_end - start));
        let (method, path) = match parse_header(first.as_slice()) {
            Ok(parsed) => parsed,
            Err(e) => {
                self.cursor = start;
                return Err(e);
            },
        };
        let mut headers = HeaderMap::new();
        loop
            invariant_except_break
                header_block(all.skip(line_end), Map::empty()) == later(
                    header_block(self.unread(), headers@),
                    self.position() - line_end,
                ),
            invariant
                whole == old(self).unread(),
                line_len(whole) == Some(line_end - start),
                request_line(whole.subrange(0, line_end - start)) is Ok,
                whole.skip(line_end - start) == all.skip(line_end),
                self.received() == all,
                all == old(self).received(),
                self.written() == old(self).written(),
                start == old(self).position(),
                0 <= start <= line_end <= self.position() <= all.len(),
            ensures
                header_block(all.skip(line_end), Map::empty()) == Some(
                    Block { headers: headers@, len: self.position() - line_end },
                ),
                line_end + 2 <= self.position(),
            decreases all.len() - self.position(),
        {
            let ghost before = self.unread();
            let ghost seen = headers@;
            let line = match self.read_line() {
                Ok(line) => line,
                Err(e) => {
                    self.cursor = start;
                    return Err(e);
                },
            };
            proof {
                lemma_first_match_some(before, crlf());
                assert(before.skip(line@.len() as int) =~= self.unread());
            }
            if line.len() == 2 {
                break ;
            }
            if let Some((kind, value)) = parse_field(line.as_slice()) {
                headers.insert(kind, value);
            }
        }
        let ghost head_end = self.position();
        let body = match headers.get(RequestHeader::Length) {
            Some(value) => {
                let len = match parse_length(value.as_slice()) {
                    Ok(len) => len,
                    Err(e) => {
                        self.cursor = start;
                        return Err(e);
                    },
                };
                match self.read_exact(len) {
                    Ok(bytes) => bytes,
                    Err(e) => {
                        self.cursor = start;
                        return Err(e);
                    },
                }
            },
            None => Vec::new(),
        };
        proof {
            assert(body@ =~= whole.subrange(head_end - start, head_end - start + body@.len()));
        }
        Ok(Request { method, path, headers, body })
    }
}

} // verus!
