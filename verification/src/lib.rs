//! A minimal HTTP/1.1 request server, without the sockets: the reader that
//! turns the bytes of a connection into a request, the vocabulary of headers,
//! methods and status lines, the writer that frames a response, and the
//! routing between them.
//!
//! A connection is a [`Server`]: the bytes that came in and the bytes that
//! went out, both in memory. [`handle_request`] reads one request from it and
//! writes the response, or says which file the response depends on. Whoever
//! owns the socket and the files does the rest.

pub mod header;
pub mod request;
pub mod router;
pub mod server;
pub mod text;

pub use header::{HeaderMap, HttpMethod, RequestHeader, ResponseHeader};
pub use request::{parse_header, Request, RequestError};
pub use router::{handle_request, Outcome, Route};
pub use server::Server;
