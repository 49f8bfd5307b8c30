use mini_http::content_type::get_content_type;
use mini_http::files::{
    file_path, file_response, handle_get_file_request, handle_post_file_request, join_path,
    FileRead,
};
use mini_http::framer::{read_request, FrameError};
use mini_http::request::HttpRequest;
use mini_http::response::{HttpResponse, Status};
use mini_http::router::{
    handle_echo, handle_root, handle_user_agent, process_request, route, Action, Route,
};
use mini_http::server::handle_client;

fn respond(stream: &[u8]) -> HttpResponse {
    match handle_client(read_request(stream), "/srv") {
        Some(Action::Respond(response)) => response,
        other => panic!("expected a response, got {:?}", other),
    }
}

fn request(method: &[u8], path: &[u8], headers: &[&[u8]], body: &[u8]) -> HttpRequest {
    HttpRequest {
        method: method.to_vec(),
        path: path.to_vec(),
        headers: headers.iter().map(|h| h.to_vec()).collect(),
        body: body.to_vec(),
    }
}

#[test]
fn echo_hello() {
    let response = respond(b"GET /echo/hello HTTP/1.1\r\n\r\n");
    assert_eq!(response.status, Status::Okay);
    assert_eq!(response.status.status_line(), "HTTP/1.1 200 OK");
    assert_eq!(response.content_type, Some("text/plain".to_string()));
    assert_eq!(response.content_length, Some(5));
    assert_eq!(response.body, Some(b"hello".to_vec()));
    assert_eq!(
        response.to_bytes(),
        b"HTTP/1.1 200 OK\r\nContent-Type: text/plain\r\nContent-Length: 5\r\n\r\nhello".to_vec()
    );
}

#[test]
fn echo_keeps_slashes_in_the_operand() {
    let response = respond(b"GET /echo/foo/bar HTTP/1.1\r\n\r\n");
    assert_eq!(response.body, Some(b"foo/bar".to_vec()));
    assert_eq!(response.content_length, Some(7));
}

#[test]
fn echo_does_not_decode_the_operand() {
    let response = respond(b"GET /echo/a%20b+c HTTP/1.1\r\n\r\n");
    assert_eq!(response.body, Some(b"a%20b+c".to_vec()));
}

#[test]
fn echo_strips_the_prefix_once() {
    let response = respond(b"GET /echo//echo/x HTTP/1.1\r\n\r\n");
    assert_eq!(response.body, Some(b"/echo/x".to_vec()));
}

#[test]
fn echo_of_nothing_is_an_empty_body() {
    let response = respond(b"GET /echo/ HTTP/1.1\r\n\r\n");
    assert_eq!(response.status, Status::Okay);
    assert_eq!(response.content_length, Some(0));
    assert_eq!(response.body, Some(Vec::new()));
}

#[test]
fn user_agent_is_reflected() {
    let response = respond(b"GET /user-agent HTTP/1.1\r\nUser-Agent: test-client/1.0\r\n\r\n");
    assert_eq!(response.status, Status::Okay);
    assert_eq!(response.content_type, Some("text/plain".to_string()));
    assert_eq!(response.content_length, Some(15));
    assert_eq!(response.body, Some(b"test-client/1.0".to_vec()));
}

#[test]
fn user_agent_missing_is_a_bad_request() {
    let response = respond(b"GET /user-agent HTTP/1.1\r\nHost: x\r\nuser-agent: lower\r\n\r\n");
    assert_eq!(response, HttpResponse::empty(Status::BadRequest));
    assert_eq!(
        response.to_bytes(),
        b"HTTP/1.1 400 Bad Request\r\nContent-Length: 0\r\n\r\n".to_vec()
    );
}

#[test]
fn user_agent_first_header_wins() {
    let response = handle_user_agent(&request(
        b"GET",
        b"/user-agent",
        &[b"Host: x", b"User-Agent: one", b"User-Agent: two"],
        b"",
    ));
    assert_eq!(response.body, Some(b"one".to_vec()));
}

#[test]
fn root_is_ok_whatever_else_is_sent() {
    let expected = HttpResponse {
        status: Status::Okay,
        content_type: None,
        content_length: Some(0),
        body: None,
    };
    assert_eq!(handle_root(), expected);
    assert_eq!(respond(b"GET / HTTP/1.1\r\n\r\n"), expected);
    assert_eq!(
        respond(b"GET / HTTP/1.1\r\nHost: a\r\nUser-Agent: b\r\nContent-Length: 3\r\n\r\nxyz"),
        expected
    );
    assert_eq!(respond(b"POST / HTTP/1.1\r\nConnection: keep-alive\r\n\r\n"), expected);
    assert_eq!(expected.to_bytes(), b"HTTP/1.1 200 OK\r\nContent-Length: 0\r\n\r\n".to_vec());
}

#[test]
fn unmatched_paths_are_not_found() {
    let expected = HttpResponse::empty(Status::NotFound);
    assert_eq!(respond(b"GET /nothing HTTP/1.1\r\n\r\n"), expected);
    assert_eq!(respond(b"GET /echo HTTP/1.1\r\n\r\n"), expected);
    assert_eq!(respond(b"GET /user-agent/ HTTP/1.1\r\n\r\n"), expected);
    assert_eq!(respond(b"GET /files/a/b HTTP/1.1\r\n\r\n"), expected);
    assert_eq!(respond(b"GET files/a HTTP/1.1\r\n\r\n"), expected);
    assert_eq!(respond(b"GET  HTTP/1.1\r\n\r\n"), expected);
    assert_eq!(
        expected.to_bytes(),
        b"HTTP/1.1 404 Not Found\r\nContent-Length: 0\r\n\r\n".to_vec()
    );
}

#[test]
fn malformed_request_line_is_a_bad_request() {
    assert_eq!(respond(b"GET /\r\n\r\n"), HttpResponse::empty(Status::BadRequest));
    assert_eq!(
        handle_client(Err(FrameError::MalformedRequestLine), "/srv"),
        Some(Action::Respond(HttpResponse::empty(Status::BadRequest)))
    );
}

#[test]
fn unterminated_stream_gets_no_response() {
    assert_eq!(handle_client(read_request(b"GET / HTTP/1.1\r\nHost: x\r\n"), "/srv"), None);
    assert_eq!(handle_client(read_request(b""), "/srv"), None);
    assert_eq!(handle_client(Err(FrameError::IncompleteHeader), "/srv"), None);
}

#[test]
fn route_tries_the_patterns_in_order() {
    assert_eq!(route(b"/"), Route::Root);
    assert_eq!(route(b"/echo/abc"), Route::Echo(b"abc"));
    assert_eq!(route(b"/echo/"), Route::Echo(b""));
    assert_eq!(route(b"/echo/files/x"), Route::Echo(b"files/x"));
    assert_eq!(route(b"/user-agent"), Route::UserAgent);
    assert_eq!(route(b"/files/a.txt"), Route::File(b"a.txt"));
    assert_eq!(route(b"/files/"), Route::File(b""));
    assert_eq!(route(b"/files/a/b"), Route::Unmatched);
    assert_eq!(route(b"/user-agent/x"), Route::Unmatched);
    assert_eq!(route(b""), Route::Unmatched);
    assert_eq!(route(b"//"), Route::Unmatched);
}

#[test]
fn files_are_read_unless_the_method_is_post() {
    assert_eq!(
        process_request(request(b"GET", b"/files/a.txt", &[], b""), "/srv"),
        Action::ReadFile { path: "/srv/a.txt".to_string() }
    );
    assert_eq!(
        process_request(request(b"DELETE", b"/files/a.txt", &[], b"x"), "/srv"),
        Action::ReadFile { path: "/srv/a.txt".to_string() }
    );
    assert_eq!(
        process_request(request(b"POSTER", b"/files/a.txt", &[], b"x"), "/srv"),
        Action::ReadFile { path: "/srv/a.txt".to_string() }
    );
    assert_eq!(
        process_request(request(b"post", b"/files/a.txt", &[], b"x"), "/srv"),
        Action::ReadFile { path: "/srv/a.txt".to_string() }
    );
    assert_eq!(
        process_request(request(b"POST", b"/files/a.txt", &[], b"\x00\xffdata"), "/srv"),
        Action::WriteFile { path: "/srv/a.txt".to_string(), contents: b"\x00\xffdata".to_vec() }
    );
}

#[test]
fn file_names_are_not_sanitised() {
    assert_eq!(
        process_request(request(b"GET", b"/files/..", &[], b""), "/srv"),
        Action::ReadFile { path: "/srv/..".to_string() }
    );
}

#[test]
fn file_path_joins_directory_and_name() {
    assert_eq!(join_path("/tmp/data", "note.txt"), "/tmp/data/note.txt");
    assert_eq!(join_path("", ""), "/");
    assert_eq!(join_path("dir/", "x"), "dir//x");
    assert_eq!(file_path("/tmp", b"note.txt"), "/tmp/note.txt");
    assert_eq!(file_path("/tmp", "gr\u{fc}n.txt".as_bytes()), "/tmp/gr\u{fc}n.txt");
    assert_eq!(file_path("/tmp", b"a\xffb"), "/tmp/a\u{fffd}b");
}

#[test]
fn post_then_get_returns_the_stored_bytes() {
    let post = read_request(b"POST /files/note.txt HTTP/1.1\r\nContent-Length: 5\r\n\r\nhello");
    let (stored_at, stored) = match handle_client(post, "/data") {
        Some(Action::WriteFile { path, contents }) => (path, contents),
        other => panic!("expected a file to be written, got {:?}", other),
    };
    assert_eq!(stored_at, "/data/note.txt");
    assert_eq!(stored, b"hello".to_vec());
    let created = handle_post_file_request(true);
    assert_eq!(created, HttpResponse::empty(Status::Created));
    assert_eq!(created.to_bytes(), b"HTTP/1.1 201 Created\r\nContent-Length: 0\r\n\r\n".to_vec());

    let get = read_request(b"GET /files/note.txt HTTP/1.1\r\n\r\n");
    let read_from = match handle_client(get, "/data") {
        Some(Action::ReadFile { path }) => path,
        other => panic!("expected a file to be read, got {:?}", other),
    };
    assert_eq!(read_from, stored_at);
    let response = handle_get_file_request(&read_from, FileRead::Contents(stored));
    assert_eq!(response.status, Status::Okay);
    assert_eq!(response.content_length, Some(5));
    assert_eq!(response.body, Some(b"hello".to_vec()));
    assert_eq!(response.content_type, Some("text/plain".to_string()));
    assert_eq!(
        response.to_bytes(),
        b"HTTP/1.1 200 OK\r\nContent-Type: text/plain\r\nContent-Length: 5\r\n\r\nhello".to_vec()
    );
}

#[test]
fn missing_file_is_not_found() {
    let response = handle_get_file_request("/data/absent.txt", FileRead::Missing);
    assert_eq!(response.status, Status::NotFound);
    assert_eq!(response.content_type, None);
    assert_eq!(response.content_length, Some(0));
    assert_eq!(response.body, None);
    assert_eq!(
        response.to_bytes(),
        b"HTTP/1.1 404 Not Found\r\nContent-Length: 0\r\n\r\n".to_vec()
    );
}

#[test]
fn failed_read_and_failed_write_are_server_errors() {
    let expected = HttpResponse::empty(Status::InternalServerError);
    assert_eq!(handle_get_file_request("/data/a.txt", FileRead::Failed), expected);
    assert_eq!(handle_post_file_request(false), expected);
    assert_eq!(
        expected.to_bytes(),
        b"HTTP/1.1 500 Internal Server Error\r\nContent-Length: 0\r\n\r\n".to_vec()
    );
}

#[test]
fn binary_file_is_served_untouched() {
    let contents: Vec<u8> = (0..=255u8).collect();
    let response = handle_get_file_request("/data/blob", FileRead::Contents(contents.clone()));
    assert_eq!(response.content_type, Some("application/octet-stream".to_string()));
    assert_eq!(response.content_length, Some(256));
    let wire = response.to_bytes();
    let head = b"HTTP/1.1 200 OK\r\nContent-Type: application/octet-stream\r\nContent-Length: 256\r\n\r\n";
    assert_eq!(&wire[..head.len()], &head[..]);
    assert_eq!(&wire[head.len()..], &contents[..]);
}

#[test]
fn empty_file_is_served_with_length_zero() {
    let response = handle_get_file_request("/data/empty.bin", FileRead::Contents(Vec::new()));
    assert_eq!(response.status, Status::Okay);
    assert_eq!(response.content_length, Some(0));
    assert_eq!(response.body, Some(Vec::new()));
}

#[test]
fn content_type_goes_by_the_extension() {
    assert_eq!(get_content_type("/data/note.txt"), "text/plain");
    assert_eq!(get_content_type("/data/picture.gif"), "image/gif");
    assert_eq!(get_content_type("/data/PICTURE.PNG"), "image/png");
    assert_eq!(get_content_type("/data/page.html"), "text/html");
    assert_eq!(get_content_type("archive.tar.gz"), "application/gzip");
}

#[test]
fn content_type_defaults_to_octet_stream() {
    assert_eq!(get_content_type("/data/no_extension"), "application/octet-stream");
    assert_eq!(get_content_type("/data/file.surely-unknown"), "application/octet-stream");
    assert_eq!(get_content_type("/data.d/file"), "application/octet-stream");
    assert_eq!(get_content_type("/data/.hidden"), "application/octet-stream");
    assert_eq!(get_content_type("/data/.."), "application/octet-stream");
    assert_eq!(get_content_type(""), "application/octet-stream");
}

#[test]
fn file_response_carries_type_length_and_body() {
    let response = file_response("image/png".to_string(), vec![1, 2, 3]);
    assert_eq!(
        response,
        HttpResponse {
            status: Status::Okay,
            content_type: Some("image/png".to_string()),
            content_length: Some(3),
            body: Some(vec![1, 2, 3]),
        }
    );
}

#[test]
fn echo_handler_copies_the_operand() {
    assert_eq!(
        handle_echo(b"\xffraw"),
        HttpResponse {
            status: Status::Okay,
            content_type: Some("text/plain".to_string()),
            content_length: Some(4),
            body: Some(b"\xffraw".to_vec()),
        }
    );
}

#[test]
fn post_to_echo_is_echoed() {
    let response = respond(b"POST /echo/abc HTTP/1.1\r\nContent-Length: 2\r\n\r\nhi");
    assert_eq!(response.body, Some(b"abc".to_vec()));
}

#[test]
fn response_without_length_has_only_the_status_line() {
    let response = HttpResponse {
        status: Status::Created,
        content_type: None,
        content_length: None,
        body: None,
    };
    assert_eq!(response.to_bytes(), b"HTTP/1.1 201 Created\r\n\r\n".to_vec());
}

#[test]
fn status_lines_are_the_five_fixed_ones() {
    assert_eq!(Status::Okay.status_line(), "HTTP/1.1 200 OK");
    assert_eq!(Status::Created.status_line(), "HTTP/1.1 201 Created");
    assert_eq!(Status::BadRequest.status_line(), "HTTP/1.1 400 Bad Request");
    assert_eq!(Status::NotFound.status_line(), "HTTP/1.1 404 Not Found");
    assert_eq!(Status::InternalServerError.status_line(), "HTTP/1.1 500 Internal Server Error");
}

fn after_first_blank_line(wire: &[u8]) -> &[u8] {
    let at = wire.windows(4).position(|w| w == b"\r\n\r\n").unwrap();
    &wire[at + 4..]
}

fn lines_before_first_blank_line(wire: &[u8]) -> Vec<Vec<u8>> {
    let at = wire.windows(4).position(|w| w == b"\r\n\r\n").unwrap();
    mini_http::bytes::split_at_each(&wire[..at], b"\r\n")
}

#[test]
fn stored_bytes_follow_the_first_blank_line() {
    let stored = b"hello\r\n\r\nworld\r\n\r\n".to_vec();
    for path in ["/data/note.txt", "/data/blob", "/data/a.b.gif", "/data/x.unknown-ext"] {
        let response = handle_get_file_request(path, FileRead::Contents(stored.clone()));
        let wire = response.to_bytes();
        assert!(wire.starts_with(b"HTTP/1.1 200 OK"));
        assert_eq!(after_first_blank_line(&wire), &stored[..]);
        let lines = lines_before_first_blank_line(&wire);
        assert_eq!(lines.len(), 3);
        assert_eq!(lines[0], b"HTTP/1.1 200 OK".to_vec());
        assert!(lines[1].starts_with(b"Content-Type: "));
        assert_eq!(lines[2], b"Content-Length: 18".to_vec());
        assert_eq!(lines.iter().filter(|l| l.as_slice() == b"Content-Length: 18").count(), 1);
    }
}

#[test]
fn post_then_get_on_the_wire() {
    let post = read_request(b"POST /files/note.txt HTTP/1.1\r\nContent-Length: 5\r\n\r\nhello");
    let (path, contents) = match handle_client(post, "/data") {
        Some(Action::WriteFile { path, contents }) => (path, contents),
        other => panic!("expected a file to be written, got {:?}", other),
    };
    let get = read_request(b"GET /files/note.txt HTTP/1.1\r\n\r\n");
    let read_from = match handle_client(get, "/data") {
        Some(Action::ReadFile { path }) => path,
        other => panic!("expected a file to be read, got {:?}", other),
    };
    assert_eq!(read_from, path);
    let out = handle_get_file_request(&read_from, FileRead::Contents(contents)).to_bytes();
    assert!(out.starts_with(b"HTTP/1.1 200 OK"));
    assert_eq!(after_first_blank_line(&out), b"hello");
    let lines = lines_before_first_blank_line(&out);
    assert_eq!(lines.iter().filter(|l| l.as_slice() == b"Content-Length: 5").count(), 1);
}

#[test]
fn content_types_hold_no_line_break() {
    for path in ["a.txt", "a.html", "a.js", "a.svg", "a.json", "a.wasm", "a", "a.", ".a", "a.\r\n"] {
        let content_type = get_content_type(path);
        assert!(!content_type.contains('\r'), "{:?}", content_type);
        assert!(!content_type.contains('\n'), "{:?}", content_type);
    }
}

#[test]
fn root_probe_streams_get_the_same_bytes() {
    let expected = b"HTTP/1.1 200 OK\r\nContent-Length: 0\r\n\r\n".to_vec();
    let streams: [&[u8]; 6] = [
        b"GET / HTTP/1.1\r\n\r\n",
        b"POST / HTTP/1.1\r\nContent-Length: 3\r\n\r\nabc",
        b"DELETE / HTTP/1.1\r\nConnection: keep-alive\r\nHost: a b c\r\n\r\nxyz",
        b" / HTTP/1.1\r\n\r\n",
        b"G\rE\nT / HTTP/1.1\r\nUser-Agent: x\r\n\r\n",
        b"GET / HTTP/1.1\r\nA: 1\r\n\r\nB: 2\r\n\r\nbody",
    ];
    for stream in streams {
        assert_eq!(respond(stream).to_bytes(), expected);
    }
}

#[test]
fn a_line_break_in_the_method_ends_the_request_line() {
    assert_eq!(
        respond(b"GE\r\nT / HTTP/1.1\r\n\r\n"),
        HttpResponse::empty(Status::BadRequest)
    );
}
