//! One connection: from what the framer made of the stream to what the
//! connection does before it is closed.

use crate::bytes::{
    first_occurrence, free_of_line_breaks, lemma_first_occurrence_from,
    lemma_first_occurrence_is, lemma_first_occurrence_none, occurs_at, split,
};
use crate::files::file_name_of;
use crate::decimal::decimal_digits;
use crate::framer::{frame, header_section, header_terminator, lemma_header_terminator, FrameError};
use crate::request::{
    first_line, lemma_line_break, line_break, request_line_parts, space, HttpRequest, RequestView,
};
use crate::response::{
    content_length_name, lemma_wire_shape, wire_body, wire_header_lines, HttpResponse,
    ResponseView, Status,
};
use crate::router::{
    action_for, lemma_store_and_retrieve_name_the_same_file, post_method, process_request,
    root_path, root_response, Action, ActionView,
};
use vstd::prelude::*;
use vstd::string::*;
use vstd::utf8::encode_utf8;

verus! {

/// What a connection does about the outcome of framing: a request is
/// routed; a request line that cannot be parsed is answered with
/// `400 Bad Request`; a stream without header terminator is answered
/// with nothing at all.
pub open spec fn reaction(framed: Result<RequestView, FrameError>, directory: Seq<char>)
    -> Option<ActionView> {
    match framed {
        Ok(request) => Some(action_for(request, directory)),
        Err(FrameError::MalformedRequestLine) => Some(
            ActionView::Respond(ResponseView::empty(Status::BadRequest)),
        ),
        Err(FrameError::IncompleteHeader) => None,
    }
}

/// The view of a framing outcome.
pub open spec fn framed_view(framed: Result<HttpRequest, FrameError>) -> Result<
    RequestView,
    FrameError,
> {
    match framed {
        Ok(request) => Ok(request@),
        Err(error) => Err(error),
    }
}

/// The view of what a connection does.
pub open spec fn action_view(action: Option<Action>) -> Option<ActionView> {
    match action {
        Some(a) => Some(a@),
        None => None,
    }
}

/// Decides what a connection does about the outcome of framing. `None`
/// means that nothing is sent before the connection is closed.
pub fn handle_client(framed: Result<HttpRequest, FrameError>, directory: &str) -> (action: Option<
    Action,
>)
    ensures
        action_view(action) == reaction(framed_view(framed), directory@),
        action matches Some(Action::Respond(response)) ==> response@.wf()
            && response@.plain_content_type(),
{
    match framed {
        Ok(request) => Some(process_request(request, directory)),
        Err(FrameError::MalformedRequestLine) => Some(
            Action::Respond(HttpResponse::empty(Status::BadRequest)),
        ),
        Err(FrameError::IncompleteHeader) => None,
    }
}

/// The root path is always answered with `200 OK` and a length of zero,
/// whatever the method, the headers and the body of the request are.
pub proof fn lemma_root_is_always_ok(request: RequestView, directory: Seq<char>)
    requires
        request.path == root_path(),
    ensures
        action_for(request, directory) == ActionView::Respond(root_response()),
        reaction(Ok(request), directory) == Some(ActionView::Respond(root_response())),
        root_response() == (ResponseView {
            status: Status::Okay,
            content_type: None,
            content_length: Some(0),
            body: None,
        }),
        root_response().wire() == "HTTP/1.1 200 OK\r\nContent-Length: 0\r\n\r\n".spec_bytes(),
{
    reveal_strlit("HTTP/1.1 200 OK");
    reveal_strlit("\r\nContent-Length: ");
    reveal_strlit("\r\n\r\n");
    reveal_strlit("HTTP/1.1 200 OK\r\nContent-Length: 0\r\n\r\n");
    is_ascii_spec_bytes("HTTP/1.1 200 OK");
    is_ascii_spec_bytes("\r\nContent-Length: ");
    is_ascii_spec_bytes("\r\n\r\n");
    is_ascii_spec_bytes("HTTP/1.1 200 OK\r\nContent-Length: 0\r\n\r\n");
    assert(decimal_digits(0) =~= seq![48u8]);
    assert(root_response().wire() =~= "HTTP/1.1 200 OK\r\nContent-Length: 0\r\n\r\n".spec_bytes());
}

/// A stream that ends before the header terminator gets no response.
pub proof fn lemma_unterminated_stream_gets_no_response(stream: Seq<u8>, directory: Seq<char>)
    requires
        first_occurrence(stream, header_terminator()) is None,
    ensures
        reaction(frame(stream), directory) is None,
{
}

/// Every stream in which the header terminator occurs gets a response
/// or leads to a file being read or written.
pub proof fn lemma_terminated_stream_is_answered(stream: Seq<u8>, directory: Seq<char>)
    requires
        first_occurrence(stream, header_terminator()) is Some,
    ensures
        reaction(frame(stream), directory) is Some,
{
}

/// What is stored comes back: where one request stores a body under a
/// path and another retrieves that path, the file written and the file
/// read are the same; and when the bytes written are the bytes read,
/// the answer is `200 OK`, its header block ends at the first blank line
/// of what goes out, the bytes after it are the body that was stored,
/// and one header line, the last, announces their number.
///
/// Here `content_type` is the type under which the file is served,
/// whichever it is, as long as it holds no line break.
pub proof fn lemma_stored_file_is_served_back(
    store: RequestView,
    retrieve: RequestView,
    directory: Seq<char>,
    content_type: Seq<char>,
)
    requires
        store.path == retrieve.path,
        file_name_of(store.path) is Some,
        store.method == post_method(),
        retrieve.method != post_method(),
        free_of_line_breaks(encode_utf8(content_type)),
    ensures
        ({
            let served = ResponseView::with_body(Status::Okay, content_type, store.body);
            &&& action_for(store, directory) matches ActionView::WriteFile { path, contents }
                && contents == store.body && action_for(retrieve, directory)
                == (ActionView::ReadFile { path })
            &&& served.status == Status::Okay
            &&& wire_body(served.wire()) == Some(store.body)
            &&& wire_header_lines(served.wire()) == Some(served.header_lines())
            &&& served.header_lines().len() == 3
            &&& forall|k: int|
                0 <= k < 3 ==> (#[trigger] served.header_lines()[k] == content_length_name()
                    + decimal_digits(store.body.len()) <==> k == 2)
        }),
{
    lemma_store_and_retrieve_name_the_same_file(store, retrieve, directory);
    lemma_wire_shape(ResponseView::with_body(Status::Okay, content_type, store.body));
}

/// A carriage return stands at `j` in `s`, and a line feed after it.
spec fn breaks_at(s: Seq<u8>, j: int) -> bool {
    s[j] == 13u8 && s[j + 1] == 10u8
}

/// A stream that asks for the root path: a method, the request line's
/// remainder ` / HTTP/1.1` with its line break, header lines, the blank
/// line, and a body.
pub open spec fn root_probe_stream(method: Seq<u8>, headers: Seq<u8>, body: Seq<u8>) -> Seq<u8> {
    method + " / HTTP/1.1\r\n".spec_bytes() + headers + line_break() + body
}

/// Every stream that asks for the root path is answered with `200 OK`
/// and a length of zero, whatever its method, header lines and body.
///
/// The method holds no space and no line break, or the request line
/// would not be what it seems; and the header lines, where there are
/// any, are each ended by a line break.
pub proof fn lemma_root_probe_stream_is_ok(
    method: Seq<u8>,
    headers: Seq<u8>,
    body: Seq<u8>,
    directory: Seq<char>,
)
    requires
        first_occurrence(method, space()) is None,
        first_occurrence(method, line_break()) is None,
        headers.len() == 0 || (headers.len() >= 2 && headers.skip(headers.len() - 2)
            == line_break()),
    ensures
        frame(root_probe_stream(method, headers, body)) matches Ok(request) && request.method
            == method && request.path == root_path(),
        reaction(frame(root_probe_stream(method, headers, body)), directory) == Some(
            ActionView::Respond(root_response()),
        ),
        root_response().wire() == "HTTP/1.1 200 OK\r\nContent-Length: 0\r\n\r\n".spec_bytes(),
{
    lemma_root_is_always_ok(
        RequestView {
            method,
            path: root_path(),
            headers: Seq::<Seq<u8>>::empty(),
            body: Seq::<u8>::empty(),
        },
        directory,
    );
    lemma_line_break();
    lemma_header_terminator();
    reveal_strlit(" / HTTP/1.1\r\n");
    reveal_strlit(" ");
    reveal_strlit("/");
    is_ascii_spec_bytes(" / HTTP/1.1\r\n");
    is_ascii_spec_bytes(" ");
    is_ascii_spec_bytes("/");
    let v = " / HTTP/1.1\r\n".spec_bytes();
    let sp = space();
    let lb = line_break();
    let term = header_terminator();
    let stream = root_probe_stream(method, headers, body);
    let m = method.len() as int;
    let l = m + 11;
    let h = headers.len() as int;
    assert(sp =~= seq![32u8]);
    assert(v.len() == 13);

    // The bytes of the stream.
    assert forall|k: int| 0 <= k < m implies stream[k] == method[k] by {}
    assert forall|k: int| 0 <= k < 13 implies stream[m + k] == v[k] by {}
    assert forall|k: int| 0 <= k < h implies stream[m + 13 + k] == headers[k] by {}
    assert forall|k: int| 0 <= k < 2 implies stream[m + 13 + h + k] == lb[k] by {}

    // The method holds no space, and no line break starts before the
    // end of the request line.
    lemma_first_occurrence_from(method, sp, 0);
    lemma_first_occurrence_from(method, lb, 0);
    assert forall|k: int| 0 <= k < m implies method[k] != 32u8 by {
        if method[k] == 32u8 {
            assert(method.subrange(k, k + 1) =~= sp);
            assert(occurs_at(method, sp, k));
        }
    }
    assert forall|j: int| 0 <= j < l implies !breaks_at(stream, j) by {
        if j + 1 < m {
            if method[j] == 13u8 && method[j + 1] == 10u8 {
                assert(method.subrange(j, j + 2) =~= lb);
                assert(occurs_at(method, lb, j));
            }
        } else if j + 1 == m {
            assert(stream[j + 1] == v[0]);
        } else {
            assert(stream[j] == v[j - m]);
        }
    }

    // Where the header section ends.
    let q = if h == 0 {
        l
    } else {
        m + 13 + h - 2
    };
    assert(occurs_at(stream, term, q)) by {
        if h > 0 {
            assert(headers.skip(h - 2)[0] == headers[h - 2]);
            assert(headers.skip(h - 2)[1] == headers[h - 1]);
        } else {
            assert(stream[l] == v[11]);
            assert(stream[l + 1] == v[12]);
        }
        assert(stream.subrange(q, q + 4) =~= term);
    }
    lemma_first_occurrence_from(stream, term, 0);
    let e = first_occurrence(stream, term).unwrap();
    assert(occurs_at(stream, term, e));
    assert(stream.subrange(e, e + 4)[0] == stream[e]);
    assert(stream.subrange(e, e + 4)[1] == stream[e + 1]);
    assert(breaks_at(stream, e));
    assert(e >= l);
    assert(stream[l] == v[11]);
    assert(stream[l + 1] == v[12]);
    assert(e != l + 1);

    // The request line.
    let section = stream.take(e);
    let line = stream.take(l);
    assert forall|j: int| 0 <= j < l implies !occurs_at(section, lb, j) by {
        if occurs_at(section, lb, j) {
            assert(section.subrange(j, j + 2)[0] == stream[j]);
            assert(section.subrange(j, j + 2)[1] == stream[j + 1]);
            assert(breaks_at(stream, j));
        }
    }
    if e == l {
        assert forall|j: int| 0 <= j implies !occurs_at(section, lb, j) by {}
        lemma_first_occurrence_none(section, lb, 0);
        assert(split(section, lb) =~= seq![section]);
    } else {
        assert(occurs_at(section, lb, l)) by {
            assert(section.subrange(l, l + 2) =~= lb);
        }
        lemma_first_occurrence_is(section, lb, 0, l);
        assert(section.take(l) =~= line);
        assert(split(section, lb).first() == line);
    }
    assert(header_section(section).request_line == line);

    // Its method and its path.
    assert forall|j: int| 0 <= j < m implies !occurs_at(line, sp, j) by {
        if occurs_at(line, sp, j) {
            assert(line.subrange(j, j + 1)[0] == method[j]);
        }
    }
    assert(occurs_at(line, sp, m)) by {
        assert(line[m] == v[0]);
        assert(line.subrange(m, m + 1) =~= sp);
    }
    lemma_first_occurrence_is(line, sp, 0, m);
    let rest = line.skip(m + 1);
    assert(rest[0] == v[1]);
    assert(rest[1] == v[2]);
    assert(!occurs_at(rest, sp, 0)) by {
        if occurs_at(rest, sp, 0) {
            assert(rest.subrange(0, 1)[0] == rest[0]);
        }
    }
    assert(occurs_at(rest, sp, 1)) by {
        assert(rest.subrange(1, 2) =~= sp);
    }
    lemma_first_occurrence_is(rest, sp, 0, 1);
    assert(line.take(m) =~= method);
    assert(rest.take(1) =~= root_path());
    assert(request_line_parts(line) == Some((method, root_path())));
}

} // verus!
