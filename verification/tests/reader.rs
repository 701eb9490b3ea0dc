use http_server::header::{HeaderMap, HttpMethod, RequestHeader};
use http_server::request::{parse_field, parse_header, parse_length, RequestError};
use http_server::server::Server;

#[test]
fn request_line_with_version() {
    assert_eq!(
        parse_header(b"GET /index.html HTTP/1.1\r\n"),
        Ok((HttpMethod::Get, b"/index.html".to_vec()))
    );
    assert_eq!(
        parse_header(b"POST /files/a.txt HTTP/1.1\r\n"),
        Ok((HttpMethod::Post, b"/files/a.txt".to_vec()))
    );
}

#[test]
fn request_line_with_more_tokens() {
    assert_eq!(
        parse_header(b"GET /a b c d\r\n"),
        Ok((HttpMethod::Get, b"/a".to_vec()))
    );
}

#[test]
fn request_line_of_two_tokens_keeps_the_rest_of_the_line() {
    assert_eq!(parse_header(b"GET /\r\n"), Ok((HttpMethod::Get, b"/\r\n".to_vec())));
    assert_eq!(parse_header(b"GET /x"), Ok((HttpMethod::Get, b"/x".to_vec())));
}

#[test]
fn request_line_with_an_empty_path() {
    assert_eq!(parse_header(b"GET  /x HTTP/1.1\r\n"), Ok((HttpMethod::Get, Vec::new())));
    assert_eq!(parse_header(b"GET "), Ok((HttpMethod::Get, Vec::new())));
}

#[test]
fn request_line_with_one_token_is_malformed() {
    assert_eq!(parse_header(b"GET\r\n"), Err(RequestError::MalformedRequestLine));
    assert_eq!(parse_header(b"\r\n"), Err(RequestError::MalformedRequestLine));
    assert_eq!(parse_header(b""), Err(RequestError::MalformedRequestLine));
}

#[test]
fn request_line_with_an_unknown_method_is_malformed() {
    assert_eq!(parse_header(b"PUT / HTTP/1.1\r\n"), Err(RequestError::MalformedRequestLine));
    assert_eq!(parse_header(b"get / HTTP/1.1\r\n"), Err(RequestError::MalformedRequestLine));
    assert_eq!(parse_header(b" GET / HTTP/1.1\r\n"), Err(RequestError::MalformedRequestLine));
}

#[test]
fn header_line_is_split_once() {
    assert_eq!(
        parse_field(b"Host: localhost:4221\r\n"),
        Some((RequestHeader::Host, b"localhost:4221".to_vec()))
    );
    assert_eq!(
        parse_field(b"User-Agent: a: b\r\n"),
        Some((RequestHeader::Agent, b"a: b".to_vec()))
    );
}

#[test]
fn header_value_is_trimmed() {
    assert_eq!(
        parse_field(b"Accept:   */*  \r\n"),
        Some((RequestHeader::Accept, b"*/*".to_vec()))
    );
    assert_eq!(parse_field(b"Content-Length: \r\n"), Some((RequestHeader::Length, Vec::new())));
    assert_eq!(parse_field(b"Content-Length: 5"), Some((RequestHeader::Length, b"5".to_vec())));
}

#[test]
fn header_line_that_adds_nothing() {
    assert_eq!(parse_field(b"X-Other: 1\r\n"), None);
    assert_eq!(parse_field(b"host: localhost\r\n"), None);
    assert_eq!(parse_field(b"Host:localhost\r\n"), None);
    assert_eq!(parse_field(b"Host\r\n"), None);
    assert_eq!(parse_field(b" Host: localhost\r\n"), None);
    assert_eq!(parse_field(b""), None);
}

#[test]
fn content_length_values() {
    assert_eq!(parse_length(b"0"), Ok(0));
    assert_eq!(parse_length(b"5"), Ok(5));
    assert_eq!(parse_length(b"0042"), Ok(42));
    assert_eq!(parse_length(b"+17"), Ok(17));
    assert_eq!(parse_length(b"-0"), Ok(0));
    assert_eq!(parse_length(b"2147483648"), Ok(2147483648));
}

#[test]
fn content_length_that_is_malformed() {
    for value in [
        &b""[..],
        b"+",
        b"-",
        b"-1",
        b"-10",
        b"abc",
        b"12a",
        b"1 2",
        b" 5",
        b"++5",
        b"5+",
        b"0x10",
        b"1.5",
    ] {
        assert_eq!(parse_length(value), Err(RequestError::MalformedLength));
    }
}

#[test]
fn content_length_beyond_the_machine() {
    assert_eq!(
        parse_length(b"99999999999999999999999999999999999999999999"),
        Ok(usize::MAX)
    );
    assert_eq!(parse_length(usize::MAX.to_string().as_bytes()), Ok(usize::MAX));
}

#[test]
fn read_line_takes_one_line() {
    let mut server = Server::new(b"first\r\nsecond\r\nrest".to_vec());
    assert_eq!(server.read_line(), Ok(b"first\r\n".to_vec()));
    assert_eq!(server.pending(), b"second\r\nrest");
    assert_eq!(server.read_line(), Ok(b"second\r\n".to_vec()));
    assert_eq!(server.read_line(), Err(RequestError::UnexpectedEof));
    assert_eq!(server.pending(), b"rest");
}

#[test]
fn read_line_ends_at_both_bytes_of_the_terminator() {
    let mut server = Server::new(b"a\nb\rc\r\nd".to_vec());
    assert_eq!(server.read_line(), Ok(b"a\nb\rc\r\n".to_vec()));
    let mut server = Server::new(b"abc\r".to_vec());
    assert_eq!(server.read_line(), Err(RequestError::UnexpectedEof));
    server.feed(b"\n");
    assert_eq!(server.read_line(), Ok(b"abc\r\n".to_vec()));
}

#[test]
fn read_exact_takes_all_or_nothing() {
    let mut server = Server::new(b"hello".to_vec());
    assert_eq!(server.read_exact(6), Err(RequestError::UnexpectedEof));
    assert_eq!(server.pending(), b"hello");
    assert_eq!(server.read_exact(2), Ok(b"he".to_vec()));
    assert_eq!(server.read_exact(0), Ok(Vec::new()));
    assert_eq!(server.read_exact(3), Ok(b"llo".to_vec()));
    assert_eq!(server.read_exact(1), Err(RequestError::UnexpectedEof));
    assert_eq!(server.read_exact(usize::MAX), Err(RequestError::UnexpectedEof));
}

#[test]
fn request_without_a_body() {
    let mut server = Server::new(
        b"GET /user-agent HTTP/1.1\r\nHost: localhost:4221\r\nUser-Agent: curl/7.64.1\r\nAccept: */*\r\n\r\n"
            .to_vec(),
    );
    let request = server.read_all().unwrap();
    assert_eq!(request.method, HttpMethod::Get);
    assert_eq!(request.path, b"/user-agent".to_vec());
    assert_eq!(request.headers.get(RequestHeader::Host), Some(&b"localhost:4221".to_vec()));
    assert_eq!(request.headers.get(RequestHeader::Agent), Some(&b"curl/7.64.1".to_vec()));
    assert_eq!(request.headers.get(RequestHeader::Accept), Some(&b"*/*".to_vec()));
    assert_eq!(request.headers.get(RequestHeader::Length), None);
    assert_eq!(request.body, Vec::<u8>::new());
    assert_eq!(server.pending(), b"");
}

#[test]
fn request_with_a_body() {
    let mut server = Server::new(
        b"POST /files/a HTTP/1.1\r\nContent-Length: 5\r\n\r\nhello".to_vec(),
    );
    let request = server.read_all().unwrap();
    assert_eq!(request.method, HttpMethod::Post);
    assert_eq!(request.path, b"/files/a".to_vec());
    assert_eq!(request.headers.get(RequestHeader::Length), Some(&b"5".to_vec()));
    assert_eq!(request.body, b"hello".to_vec());
}

#[test]
fn body_is_read_once_and_no_further() {
    let mut server = Server::new(
        b"POST /files/a HTTP/1.1\r\nContent-Length: 3\r\n\r\nabcdefGET / HTTP/1.1\r\n\r\n".to_vec(),
    );
    let request = server.read_all().unwrap();
    assert_eq!(request.body, b"abc".to_vec());
    assert_eq!(server.pending(), b"defGET / HTTP/1.1\r\n\r\n");
}

#[test]
fn body_may_hold_any_bytes() {
    let mut input = b"POST /files/a HTTP/1.1\r\nContent-Length: 6\r\n\r\n".to_vec();
    input.extend_from_slice(&[0, 255, 13, 10, 13, 10]);
    let mut server = Server::new(input);
    let request = server.read_all().unwrap();
    assert_eq!(request.body, vec![0, 255, 13, 10, 13, 10]);
}

#[test]
fn short_body_is_unexpected_eof() {
    let input = b"POST /files/a HTTP/1.1\r\nContent-Length: 10\r\n\r\nhello".to_vec();
    let mut server = Server::new(input.clone());
    assert_eq!(server.read_all(), Err(RequestError::UnexpectedEof));
    assert_eq!(server.pending(), &input[..]);
}

#[test]
fn length_beyond_the_machine_is_unexpected_eof() {
    let mut server = Server::new(
        b"POST /files/a HTTP/1.1\r\nContent-Length: 99999999999999999999999999\r\n\r\nhello".to_vec(),
    );
    assert_eq!(server.read_all(), Err(RequestError::UnexpectedEof));
}

#[test]
fn every_cut_of_a_request_is_unexpected_eof() {
    let whole = b"POST /files/a HTTP/1.1\r\nHost: h\r\nContent-Length: 4\r\n\r\nbody".to_vec();
    for k in 0..whole.len() {
        let mut server = Server::new(whole[..k].to_vec());
        assert_eq!(server.read_all(), Err(RequestError::UnexpectedEof), "cut at {}", k);
        assert_eq!(server.pending(), &whole[..k]);
    }
    let mut server = Server::new(whole);
    assert!(server.read_all().is_ok());
}

#[test]
fn request_that_comes_in_pieces() {
    let whole = b"POST /files/a HTTP/1.1\r\nContent-Length: 4\r\n\r\nbody".to_vec();
    let mut server = Server::new(Vec::new());
    for piece in whole.chunks(3) {
        assert_eq!(server.read_all(), Err(RequestError::UnexpectedEof));
        server.feed(piece);
    }
    let request = server.read_all().unwrap();
    assert_eq!(request.path, b"/files/a".to_vec());
    assert_eq!(request.body, b"body".to_vec());
    assert_eq!(server.pending(), b"");
}

#[test]
fn what_follows_a_request_does_not_change_it() {
    let whole = b"GET /echo/abc HTTP/1.1\r\nUser-Agent: x\r\n\r\n".to_vec();
    let mut longer = whole.clone();
    longer.extend_from_slice(b"Content-Length: 3\r\n\r\nabc");
    let first = Server::new(whole.clone()).read_all().unwrap();
    let mut server = Server::new(longer);
    let second = server.read_all().unwrap();
    assert_eq!(first, second);
    assert_eq!(server.pending(), b"Content-Length: 3\r\n\r\nabc");
}

#[test]
fn malformed_length_in_a_request() {
    let input = b"POST /files/a HTTP/1.1\r\nContent-Length: five\r\n\r\nhello".to_vec();
    let mut server = Server::new(input.clone());
    assert_eq!(server.read_all(), Err(RequestError::MalformedLength));
    assert_eq!(server.pending(), &input[..]);
    let mut server = Server::new(b"POST /f HTTP/1.1\r\nContent-Length: -1\r\n\r\n".to_vec());
    assert_eq!(server.read_all(), Err(RequestError::MalformedLength));
}

#[test]
fn malformed_request_line_in_a_request() {
    let mut server = Server::new(b"GET\r\n".to_vec());
    assert_eq!(server.read_all(), Err(RequestError::MalformedRequestLine));
    let mut server = Server::new(b"DELETE /x HTTP/1.1\r\n\r\n".to_vec());
    assert_eq!(server.read_all(), Err(RequestError::MalformedRequestLine));
    assert_eq!(server.pending(), b"DELETE /x HTTP/1.1\r\n\r\n");
}

#[test]
fn last_value_of_a_header_is_kept() {
    let mut server = Server::new(
        b"GET / HTTP/1.1\r\nHost: one\r\nHost: two\r\nContent-Length: 9\r\nContent-Length: 1\r\n\r\nx".to_vec(),
    );
    let request = server.read_all().unwrap();
    assert_eq!(request.headers.get(RequestHeader::Host), Some(&b"two".to_vec()));
    assert_eq!(request.body, b"x".to_vec());
}

#[test]
fn lines_that_are_no_headers_are_passed_over() {
    let mut server = Server::new(
        b"GET / HTTP/1.1\r\nnonsense\r\nX-Id: 7\r\nAccept: text/html\r\n\r\n".to_vec(),
    );
    let request = server.read_all().unwrap();
    assert_eq!(request.headers.get(RequestHeader::Accept), Some(&b"text/html".to_vec()));
    assert_eq!(request.headers.get(RequestHeader::Host), None);
    assert_eq!(request.headers.get(RequestHeader::Agent), None);
}

#[test]
fn header_map_keeps_one_value_for_each_header() {
    let mut headers = HeaderMap::new();
    assert_eq!(headers.get(RequestHeader::Host), None);
    headers.insert(RequestHeader::Host, b"a".to_vec());
    headers.insert(RequestHeader::Length, b"1".to_vec());
    headers.insert(RequestHeader::Host, b"b".to_vec());
    assert_eq!(headers.get(RequestHeader::Host), Some(&b"b".to_vec()));
    assert_eq!(headers.get(RequestHeader::Length), Some(&b"1".to_vec()));
    assert_eq!(headers.get(RequestHeader::Agent), None);
    assert_eq!(headers.get(RequestHeader::Accept), None);
}
