use http_server::header::{HeaderMap, HttpMethod, RequestHeader, ResponseHeader};
use http_server::request::{Request, RequestError};
use http_server::router::{
    dispatch, handle_request, respond_bare, respond_fetched, respond_full, respond_stored, rest_of,
    route, Outcome, Route,
};
use http_server::server::Server;

fn request(method: HttpMethod, path: &[u8]) -> Request {
    Request { method, path: path.to_vec(), headers: HeaderMap::new(), body: Vec::new() }
}

fn served(input: &[u8]) -> (Result<Outcome, RequestError>, Vec<u8>) {
    let mut server = Server::new(input.to_vec());
    let outcome = handle_request(&mut server);
    (outcome, server.output().to_vec())
}

#[test]
fn routes_in_order() {
    assert_eq!(route(b"/"), Route::Root);
    assert_eq!(route(b"/user-agent"), Route::UserAgent);
    assert_eq!(route(b"/echo"), Route::Echo);
    assert_eq!(route(b"/echo/abc"), Route::Echo);
    assert_eq!(route(b"/echoes"), Route::Echo);
    assert_eq!(route(b"/files"), Route::Files);
    assert_eq!(route(b"/files/a.txt"), Route::Files);
    assert_eq!(route(b"/filesystem"), Route::Files);
    assert_eq!(route(b""), Route::NotFound);
    assert_eq!(route(b"//"), Route::NotFound);
    assert_eq!(route(b"/user-agent/"), Route::NotFound);
    assert_eq!(route(b"/user-agen"), Route::NotFound);
    assert_eq!(route(b"/ech"), Route::NotFound);
    assert_eq!(route(b"/Echo/abc"), Route::NotFound);
    assert_eq!(route(b"/index.html"), Route::NotFound);
    assert_eq!(route(b"/\r\n"), Route::NotFound);
}

#[test]
fn rest_of_a_path() {
    assert_eq!(rest_of(b"/echo/abc", 6), b"abc".to_vec());
    assert_eq!(rest_of(b"/echo/", 6), Vec::<u8>::new());
    assert_eq!(rest_of(b"/echo", 6), Vec::<u8>::new());
    assert_eq!(rest_of(b"/echoes", 6), b"s".to_vec());
    assert_eq!(rest_of(b"/files/dir/a.txt", 7), b"dir/a.txt".to_vec());
}

#[test]
fn root_is_ok_and_nothing_else() {
    let (outcome, output) = served(b"GET / HTTP/1.1\r\n\r\n");
    assert_eq!(outcome, Ok(Outcome::Responded));
    assert_eq!(output, b"HTTP/1.1 200 OK\r\n\r\n".to_vec());
    let (outcome, output) =
        served(b"POST / HTTP/1.1\r\nHost: h\r\nContent-Length: 2\r\n\r\nhi");
    assert_eq!(outcome, Ok(Outcome::Responded));
    assert_eq!(output, b"HTTP/1.1 200 OK\r\n\r\n".to_vec());
}

#[test]
fn unknown_path_is_not_found_and_nothing_else() {
    for path in [&b"/index.html"[..], b"/user-agent/", b"/ech", b"/file", b"//", b"x"] {
        let mut input = b"GET ".to_vec();
        input.extend_from_slice(path);
        input.extend_from_slice(b" HTTP/1.1\r\nUser-Agent: x\r\n\r\n");
        let (outcome, output) = served(&input);
        assert_eq!(outcome, Ok(Outcome::Responded));
        assert_eq!(output, b"HTTP/1.1 404 Not Found\r\n\r\n".to_vec());
    }
}

#[test]
fn request_line_without_version_keeps_its_terminator_in_the_path() {
    let (outcome, output) = served(b"GET /\r\n\r\n");
    assert_eq!(outcome, Ok(Outcome::Responded));
    assert_eq!(output, b"HTTP/1.1 404 Not Found\r\n\r\n".to_vec());
}

#[test]
fn echo_gives_the_rest_of_the_path_back() {
    let (outcome, output) = served(b"GET /echo/abc HTTP/1.1\r\nHost: localhost:4221\r\n\r\n");
    assert_eq!(outcome, Ok(Outcome::Responded));
    assert_eq!(
        output,
        b"HTTP/1.1 200 OK\r\nContent-Type: text/plain\r\nContent-Length: 3\r\n\r\nabc".to_vec()
    );
}

#[test]
fn echo_of_a_longer_text() {
    let text = b"237/Coo-donkey/monkey_yikes-scooby%20doo";
    let mut input = b"GET /echo/".to_vec();
    input.extend_from_slice(text);
    input.extend_from_slice(b" HTTP/1.1\r\n\r\n");
    let (outcome, output) = served(&input);
    let mut expected =
        b"HTTP/1.1 200 OK\r\nContent-Type: text/plain\r\nContent-Length: 40\r\n\r\n".to_vec();
    expected.extend_from_slice(text);
    assert_eq!(outcome, Ok(Outcome::Responded));
    assert_eq!(output, expected);
}

#[test]
fn echo_counts_bytes() {
    let (_, output) = served("GET /echo/h\u{e9}llo HTTP/1.1\r\n\r\n".as_bytes());
    assert_eq!(
        output,
        "HTTP/1.1 200 OK\r\nContent-Type: text/plain\r\nContent-Length: 6\r\n\r\nh\u{e9}llo"
            .as_bytes()
            .to_vec()
    );
}

#[test]
fn echo_of_nothing() {
    let expected =
        b"HTTP/1.1 200 OK\r\nContent-Type: text/plain\r\nContent-Length: 0\r\n\r\n".to_vec();
    assert_eq!(served(b"GET /echo/ HTTP/1.1\r\n\r\n").1, expected);
    assert_eq!(served(b"GET /echo HTTP/1.1\r\n\r\n").1, expected);
    assert_eq!(served(b"GET /echox HTTP/1.1\r\n\r\n").1, expected);
}

#[test]
fn echo_of_a_path_with_any_bytes() {
    let mut server = Server::new(Vec::new());
    let outcome = dispatch(&mut server, request(HttpMethod::Get, b"/echo/a b\r\nc"));
    assert_eq!(outcome, Ok(Outcome::Responded));
    assert_eq!(
        server.output(),
        b"HTTP/1.1 200 OK\r\nContent-Type: text/plain\r\nContent-Length: 6\r\n\r\na b\r\nc"
    );
}

#[test]
fn user_agent_gives_the_header_back() {
    let (outcome, output) = served(b"GET /user-agent HTTP/1.1\r\nUser-Agent: xyz\r\n\r\n");
    assert_eq!(outcome, Ok(Outcome::Responded));
    assert_eq!(
        output,
        b"HTTP/1.1 200 OK\r\nContent-Type: text/plain\r\nContent-Length: 3\r\n\r\nxyz".to_vec()
    );
    let (_, output) = served(
        b"GET /user-agent HTTP/1.1\r\nHost: localhost:4221\r\nUser-Agent: foobar/1.2.3\r\nAccept: */*\r\n\r\n",
    );
    assert_eq!(
        output,
        b"HTTP/1.1 200 OK\r\nContent-Type: text/plain\r\nContent-Length: 12\r\n\r\nfoobar/1.2.3"
            .to_vec()
    );
}

#[test]
fn user_agent_without_the_header_is_given_up() {
    let input = b"GET /user-agent HTTP/1.1\r\nHost: localhost:4221\r\n\r\n";
    let mut server = Server::new(input.to_vec());
    assert_eq!(handle_request(&mut server), Err(RequestError::MissingHeader));
    assert_eq!(server.output(), b"");
    assert_eq!(server.pending(), b"");
}

#[test]
fn malformed_request_gets_no_response() {
    for input in [
        &b"GET\r\n\r\n"[..],
        b"BREW /pot HTTP/1.1\r\n\r\n",
        b"GET / HTTP/1.1\r\nContent-Length: x\r\n\r\n",
        b"GET / HTTP/1.1\r\n",
        b"POST /files/a HTTP/1.1\r\nContent-Length: 3\r\n\r\nab",
        b"",
    ] {
        let mut server = Server::new(input.to_vec());
        assert!(handle_request(&mut server).is_err());
        assert_eq!(server.output(), b"");
        assert_eq!(server.pending(), input);
    }
}

#[test]
fn errors_by_kind() {
    assert_eq!(served(b"GET\r\n\r\n").0, Err(RequestError::MalformedRequestLine));
    assert_eq!(
        served(b"GET / HTTP/1.1\r\nContent-Length: x\r\n\r\n").0,
        Err(RequestError::MalformedLength)
    );
    assert_eq!(served(b"GET / HTTP/1.1\r\n").0, Err(RequestError::UnexpectedEof));
    assert_eq!(served(b"GET /user-agent HTTP/1.1\r\n\r\n").0, Err(RequestError::MissingHeader));
}

#[test]
fn get_on_a_file_asks_for_it() {
    let (outcome, output) = served(b"GET /files/notes.txt HTTP/1.1\r\n\r\n");
    assert_eq!(outcome, Ok(Outcome::Fetch { name: b"notes.txt".to_vec() }));
    assert_eq!(output, Vec::<u8>::new());
    let (outcome, _) = served(b"GET /files HTTP/1.1\r\n\r\n");
    assert_eq!(outcome, Ok(Outcome::Fetch { name: Vec::new() }));
}

#[test]
fn post_on_a_file_hands_the_body_on() {
    let (outcome, output) =
        served(b"POST /files/notes.txt HTTP/1.1\r\nContent-Length: 5\r\n\r\nhello");
    assert_eq!(
        outcome,
        Ok(Outcome::Store { name: b"notes.txt".to_vec(), body: b"hello".to_vec() })
    );
    assert_eq!(output, Vec::<u8>::new());
}

#[test]
fn file_that_was_read() {
    let mut server = Server::new(Vec::new());
    respond_fetched(&mut server, Some(b"hello".to_vec()));
    assert_eq!(
        server.output(),
        b"HTTP/1.1 200 OK\r\nContent-Type: application/octet-stream\r\nContent-Length: 5\r\n\r\nhello"
    );
    let mut server = Server::new(Vec::new());
    respond_fetched(&mut server, Some(Vec::new()));
    assert_eq!(
        server.output(),
        b"HTTP/1.1 200 OK\r\nContent-Type: application/octet-stream\r\nContent-Length: 0\r\n\r\n"
    );
}

#[test]
fn file_that_could_not_be_opened() {
    let mut server = Server::new(Vec::new());
    respond_fetched(&mut server, None);
    assert_eq!(server.output(), b"HTTP/1.1 404 Not Found\r\n\r\n");
}

#[test]
fn file_that_was_created_or_not() {
    let mut server = Server::new(Vec::new());
    respond_stored(&mut server, true);
    assert_eq!(server.output(), b"HTTP/1.1 201 Created\r\n\r\n");
    let mut server = Server::new(Vec::new());
    respond_stored(&mut server, false);
    assert_eq!(server.output(), b"HTTP/1.1 404 Not Found\r\n\r\n");
}

#[test]
fn post_then_get_gives_the_body_back() {
    let body = b"some \x00 bytes\r\n".to_vec();
    let mut post = b"POST /files/f HTTP/1.1\r\nContent-Length: 14\r\n\r\n".to_vec();
    post.extend_from_slice(&body);
    let mut server = Server::new(post);
    let (name, stored) = match handle_request(&mut server) {
        Ok(Outcome::Store { name, body }) => (name, body),
        other => panic!("{:?}", other),
    };
    respond_stored(&mut server, true);
    assert_eq!(server.output(), b"HTTP/1.1 201 Created\r\n\r\n");

    let mut server = Server::new(b"GET /files/f HTTP/1.1\r\n\r\n".to_vec());
    assert_eq!(handle_request(&mut server), Ok(Outcome::Fetch { name }));
    respond_fetched(&mut server, Some(stored));
    let mut expected =
        b"HTTP/1.1 200 OK\r\nContent-Type: application/octet-stream\r\nContent-Length: 14\r\n\r\n"
            .to_vec();
    expected.extend_from_slice(&body);
    assert_eq!(server.output(), &expected[..]);
}

#[test]
fn writer_puts_lines_behind_one_another() {
    let mut server = Server::new(Vec::new());
    server
        .with(ResponseHeader::Status(200))
        .with(ResponseHeader::Type("text/plain".to_string()))
        .with(ResponseHeader::Length(2))
        .send(Some(b"ok".to_vec()));
    assert_eq!(
        server.output(),
        b"HTTP/1.1 200 OK\r\nContent-Type: text/plain\r\nContent-Length: 2\r\n\r\nok"
    );
}

#[test]
fn writer_does_not_order_the_lines() {
    let mut server = Server::new(Vec::new());
    server.with(ResponseHeader::Length(0)).with(ResponseHeader::Status(404)).send(None);
    assert_eq!(server.output(), b"Content-Length: 0\r\nHTTP/1.1 404 Not Found\r\n\r\n");
}

#[test]
fn writer_writes_nothing_for_a_code_without_a_status_line() {
    let mut server = Server::new(Vec::new());
    server.with(ResponseHeader::Status(500)).send(None);
    assert_eq!(server.output(), b"\r\n");
    let mut server = Server::new(Vec::new());
    respond_bare(&mut server, 500);
    assert_eq!(server.output(), b"\r\n");
}

#[test]
fn writer_leaves_the_reader_alone() {
    let mut server = Server::new(b"GET / HTTP/1.1\r\n\r\n".to_vec());
    respond_full(&mut server, 200, "text/plain", b"x".to_vec());
    assert_eq!(server.pending(), b"GET / HTTP/1.1\r\n\r\n");
    assert_eq!(handle_request(&mut server), Ok(Outcome::Responded));
    assert_eq!(
        server.output(),
        &b"HTTP/1.1 200 OK\r\nContent-Type: text/plain\r\nContent-Length: 1\r\n\r\nxHTTP/1.1 200 OK\r\n\r\n"[..]
    );
}

#[test]
fn content_type_may_hold_any_text() {
    let mut server = Server::new(Vec::new());
    respond_full(&mut server, 200, "text/pl\u{e4}in", Vec::new());
    assert_eq!(
        server.output(),
        "HTTP/1.1 200 OK\r\nContent-Type: text/pl\u{e4}in\r\nContent-Length: 0\r\n\r\n".as_bytes()
    );
}

#[test]
fn header_in_a_hand_made_request() {
    let mut headers = HeaderMap::new();
    headers.insert(RequestHeader::Agent, b"hand made".to_vec());
    let mut server = Server::new(Vec::new());
    let outcome = dispatch(
        &mut server,
        Request { method: HttpMethod::Post, path: b"/user-agent".to_vec(), headers, body: Vec::new() },
    );
    assert_eq!(outcome, Ok(Outcome::Responded));
    assert_eq!(
        server.output(),
        b"HTTP/1.1 200 OK\r\nContent-Type: text/plain\r\nContent-Length: 9\r\n\r\nhand made"
    );
}
