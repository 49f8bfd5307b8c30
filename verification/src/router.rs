//! The router: from a parsed request to what is done about it.

use crate::bytes::{begins_with, equal, free_of_line_breaks, starts_with, tail, to_vec};
use crate::files::{extract_filename, file_name_of, file_path, file_path_of};
use crate::request::{header_value, HttpRequest, RequestView};
use crate::response::{HttpResponse, ResponseView, Status};
use vstd::prelude::*;
use vstd::string::*;
use vstd::utf8::encode_utf8;

verus! {

/// The path of the root probe.
pub open spec fn root_path() -> Seq<u8> {
    "/".spec_bytes()
}

/// The prefix of every echo path.
pub open spec fn echo_prefix() -> Seq<u8> {
    "/echo/".spec_bytes()
}

/// The path that reflects the user agent.
pub open spec fn user_agent_path() -> Seq<u8> {
    "/user-agent".spec_bytes()
}

/// The prefix of the header line that names the user agent.
pub open spec fn user_agent_prefix() -> Seq<u8> {
    "User-Agent: ".spec_bytes()
}

/// The method that stores a file.
pub open spec fn post_method() -> Seq<u8> {
    "POST".spec_bytes()
}

/// The content type of echoed and reflected text.
pub open spec fn text_plain() -> Seq<char> {
    "text/plain"@
}

/// The handler that a path selects.
#[derive(Debug, Clone, Copy, PartialEq, Eq)]
pub enum Route<'a> {
    /// The path `/`.
    Root,
    /// A path under `/echo/`, with what follows the prefix.
    Echo(&'a [u8]),
    /// The path `/user-agent`.
    UserAgent,
    /// A path of the shape `/files/<name>`, with the name.
    File(&'a [u8]),
    /// Any other path.
    Unmatched,
}

/// The mathematical content of a `Route`.
pub enum RouteView {
    Root,
    Echo(Seq<u8>),
    UserAgent,
    File(Seq<u8>),
    Unmatched,
}

impl<'a> View for Route<'a> {
    type V = RouteView;

    open spec fn view(&self) -> RouteView {
        match self {
            Route::Root => RouteView::Root,
            Route::Echo(operand) => RouteView::Echo(operand@),
            Route::UserAgent => RouteView::UserAgent,
            Route::File(name) => RouteView::File(name@),
            Route::Unmatched => RouteView::Unmatched,
        }
    }
}

/// The handler that `path` selects. The patterns are tried in a fixed
/// order and the first that fits decides. The method of the request
/// plays no part in the choice; it matters to the file handler alone.
pub open spec fn route_of(path: Seq<u8>) -> RouteView {
    if path == root_path() {
        RouteView::Root
    } else if begins_with(path, echo_prefix()) {
        RouteView::Echo(path.skip(echo_prefix().len() as int))
    } else if path == user_agent_path() {
        RouteView::UserAgent
    } else {
        match file_name_of(path) {
            Some(name) => RouteView::File(name),
            None => RouteView::Unmatched,
        }
    }
}

/// Selects the handler for `path`.
pub fn route(path: &[u8]) -> (selected: Route<'_>)
    ensures
        selected@ == route_of(path@),
{
    let echo: &[u8] = "/echo/".as_bytes();
    if equal(path, "/".as_bytes()) {
        Route::Root
    } else if starts_with(path, echo) {
        Route::Echo(tail(path, echo.len()))
    } else if equal(path, "/user-agent".as_bytes()) {
        Route::UserAgent
    } else {
        match extract_filename(path) {
            Some(name) => Route::File(name),
            None => Route::Unmatched,
        }
    }
}

/// What is to be done about a request: answer at once, or touch the
/// file system first.
#[derive(Debug, Clone, PartialEq, Eq)]
pub enum Action {
    /// Send this response.
    Respond(HttpResponse),
    /// Read the file at `path`, then answer with
    /// `handle_get_file_request`.
    ReadFile { path: String },
    /// Write `contents` to the file at `path`, creating or truncating
    /// it, then answer with `handle_post_file_request`.
    WriteFile { path: String, contents: Vec<u8> },
}

/// The mathematical content of an `Action`.
pub enum ActionView {
    Respond(ResponseView),
    ReadFile { path: Seq<char> },
    WriteFile { path: Seq<char>, contents: Seq<u8> },
}

impl View for Action {
    type V = ActionView;

    open spec fn view(&self) -> ActionView {
        match self {
            Action::Respond(response) => ActionView::Respond(response@),
            Action::ReadFile { path } => ActionView::ReadFile { path: path@ },
            Action::WriteFile { path, contents } => ActionView::WriteFile {
                path: path@,
                contents: contents@,
            },
        }
    }
}

/// The content type `text/plain` holds no line break.
pub proof fn lemma_text_plain_is_plain()
    ensures
        free_of_line_breaks(encode_utf8(text_plain())),
{
    reveal_strlit("text/plain");
    is_ascii_spec_bytes("text/plain");
}

/// The answer of the root probe.
pub open spec fn root_response() -> ResponseView {
    ResponseView::empty(Status::Okay)
}

/// The answer that echoes `operand`.
pub open spec fn echo_response(operand: Seq<u8>) -> ResponseView {
    ResponseView::with_body(Status::Okay, text_plain(), operand)
}

/// The answer that reflects the user agent named in `headers`.
pub open spec fn user_agent_response(headers: Seq<Seq<u8>>) -> ResponseView {
    match header_value(headers, user_agent_prefix()) {
        Some(agent) => ResponseView::with_body(Status::Okay, text_plain(), agent),
        None => ResponseView::empty(Status::BadRequest),
    }
}

/// What is to be done about `request` when files live in `directory`.
pub open spec fn action_for(request: RequestView, directory: Seq<char>) -> ActionView {
    match route_of(request.path) {
        RouteView::Root => ActionView::Respond(root_response()),
        RouteView::Echo(operand) => ActionView::Respond(echo_response(operand)),
        RouteView::UserAgent => ActionView::Respond(user_agent_response(request.headers)),
        RouteView::File(name) => if request.method == post_method() {
            ActionView::WriteFile {
                path: file_path_of(directory, name),
                contents: request.body,
            }
        } else {
            ActionView::ReadFile { path: file_path_of(directory, name) }
        },
        RouteView::Unmatched => ActionView::Respond(ResponseView::empty(Status::NotFound)),
    }
}

/// Answers the root probe: `200 OK` with a length of zero.
pub fn handle_root() -> (response: HttpResponse)
    ensures
        response@ == root_response(),
        response@.wf(),
        response@.plain_content_type(),
{
    HttpResponse::empty(Status::Okay)
}

/// Echoes `operand` as plain text, byte for byte.
pub fn handle_echo(operand: &[u8]) -> (response: HttpResponse)
    ensures
        response@ == echo_response(operand@),
        response@.wf(),
        response@.plain_content_type(),
{
    proof {
        lemma_text_plain_is_plain();
    }
    HttpResponse::with_body(Status::Okay, "text/plain".to_owned(), to_vec(operand))
}

/// Reflects the value of the first `User-Agent: ` header as plain text,
/// or answers `400 Bad Request` where there is none.
pub fn handle_user_agent(request: &HttpRequest) -> (response: HttpResponse)
    ensures
        response@ == user_agent_response(request@.headers),
        response@.wf(),
        response@.plain_content_type(),
{
    proof {
        lemma_text_plain_is_plain();
    }
    match request.header("User-Agent: ".as_bytes()) {
        Some(agent) => HttpResponse::with_body(
            Status::Okay,
            "text/plain".to_owned(),
            to_vec(agent),
        ),
        None => HttpResponse::empty(Status::BadRequest),
    }
}

/// Decides what is to be done about `request` when files live in
/// `directory`.
pub fn process_request(request: HttpRequest, directory: &str) -> (action: Action)
    ensures
        action@ == action_for(request@, directory@),
        action matches Action::Respond(response) ==> response@.wf()
            && response@.plain_content_type(),
{
    match route(request.path.as_slice()) {
        Route::Root => Action::Respond(handle_root()),
        Route::Echo(operand) => Action::Respond(handle_echo(operand)),
        Route::UserAgent => Action::Respond(handle_user_agent(&request)),
        Route::File(name) => {
            let path: String = file_path(directory, name);
            if equal(request.method.as_slice(), "POST".as_bytes()) {
                Action::WriteFile { path, contents: request.body }
            } else {
                Action::ReadFile { path }
            }
        },
        Route::Unmatched => Action::Respond(HttpResponse::empty(Status::NotFound)),
    }
}

/// A file is stored and served under the same path: a request that
/// stores and a request that retrieves, made for the same request path,
/// name the same file, and what is stored is the body untouched.
pub proof fn lemma_store_and_retrieve_name_the_same_file(
    store: RequestView,
    retrieve: RequestView,
    directory: Seq<char>,
)
    requires
        store.path == retrieve.path,
        file_name_of(store.path) is Some,
        store.method == post_method(),
        retrieve.method != post_method(),
    ensures
        action_for(store, directory) matches ActionView::WriteFile { path, contents }
            && contents == store.body && action_for(retrieve, directory)
            == (ActionView::ReadFile { path }),
{
    lemma_file_paths_are_not_other_routes(store.path);
}

/// A path that names a file is neither the root path, nor an echo path,
/// nor the user agent path.
pub proof fn lemma_file_paths_are_not_other_routes(path: Seq<u8>)
    requires
        file_name_of(path) is Some,
    ensures
        route_of(path) == RouteView::File(file_name_of(path).unwrap()),
{
    reveal_strlit("/files/");
    reveal_strlit("/echo/");
    reveal_strlit("/user-agent");
    reveal_strlit("/");
    is_ascii_spec_bytes("/files/");
    is_ascii_spec_bytes("/echo/");
    is_ascii_spec_bytes("/user-agent");
    is_ascii_spec_bytes("/");
    let files = "/files/".spec_bytes();
    assert(path.subrange(0, 7) == files);
    assert(path.subrange(0, 7)[1] == files[1]);
    if begins_with(path, echo_prefix()) {
        assert(path.subrange(0, 6)[1] == echo_prefix()[1]);
    }
}

} // verus!
