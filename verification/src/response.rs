//! The response and its wire form.

use crate::bytes::{
    first_occurrence, free_of_line_breaks, lemma_first_occurrence_is,
    lemma_first_occurrence_none, occurs_at, split, CR, LF,
};
use crate::decimal::{decimal_digits, lemma_decimal_digits_round_trip, push_decimal};
use crate::request::{lemma_line_break, line_break};
use vstd::prelude::*;
use vstd::string::*;
use vstd::utf8::encode_utf8;

verus! {

/// The status lines that the server can send.
#[derive(Debug, Clone, Copy, PartialEq, Eq, Structural)]
pub enum Status {
    Okay,
    Created,
    BadRequest,
    NotFound,
    InternalServerError,
}

impl Status {
    /// The status line as it is written on the wire.
    pub open spec fn text(self) -> Seq<char> {
        match self {
            Status::Okay => "HTTP/1.1 200 OK"@,
            Status::Created => "HTTP/1.1 201 Created"@,
            Status::BadRequest => "HTTP/1.1 400 Bad Request"@,
            Status::NotFound => "HTTP/1.1 404 Not Found"@,
            Status::InternalServerError => "HTTP/1.1 500 Internal Server Error"@,
        }
    }

    /// The status line as it is written on the wire.
    pub fn status_line(&self) -> (line: &'static str)
        ensures
            line@ == self.text(),
    {
        match self {
            Status::Okay => "HTTP/1.1 200 OK",
            Status::Created => "HTTP/1.1 201 Created",
            Status::BadRequest => "HTTP/1.1 400 Bad Request",
            Status::NotFound => "HTTP/1.1 404 Not Found",
            Status::InternalServerError => "HTTP/1.1 500 Internal Server Error",
        }
    }
}

/// A response, as a handler builds it.
#[derive(Debug, Clone, PartialEq, Eq)]
pub struct HttpResponse {
    pub status: Status,
    /// The value of the `Content-Type` header, where one is sent.
    pub content_type: Option<String>,
    /// The value of the `Content-Length` header, where one is sent.
    pub content_length: Option<usize>,
    /// The bytes sent after the header block, where any are sent.
    pub body: Option<Vec<u8>>,
}

/// The mathematical content of an `HttpResponse`.
pub struct ResponseView {
    pub status: Status,
    pub content_type: Option<Seq<char>>,
    pub content_length: Option<nat>,
    pub body: Option<Seq<u8>>,
}

impl View for HttpResponse {
    type V = ResponseView;

    open spec fn view(&self) -> ResponseView {
        ResponseView {
            status: self.status,
            content_type: match self.content_type {
                Some(t) => Some(t@),
                None => None,
            },
            content_length: match self.content_length {
                Some(n) => Some(n as nat),
                None => None,
            },
            body: match self.body {
                Some(b) => Some(b@),
                None => None,
            },
        }
    }
}

/// The line that starts the `Content-Type` header.
pub open spec fn content_type_head() -> Seq<u8> {
    "\r\nContent-Type: ".spec_bytes()
}

/// The line that starts the `Content-Length` header.
pub open spec fn content_length_head() -> Seq<u8> {
    "\r\nContent-Length: ".spec_bytes()
}

/// The blank line that ends the header block.
pub open spec fn header_block_end() -> Seq<u8> {
    "\r\n\r\n".spec_bytes()
}

/// The name and separator of the `Content-Type` header line.
pub open spec fn content_type_name() -> Seq<u8> {
    "Content-Type: ".spec_bytes()
}

/// The name and separator of the `Content-Length` header line.
pub open spec fn content_length_name() -> Seq<u8> {
    "Content-Length: ".spec_bytes()
}

/// What follows the first blank line of `wire`.
pub open spec fn wire_body(wire: Seq<u8>) -> Option<Seq<u8>> {
    match first_occurrence(wire, header_block_end()) {
        Some(i) => Some(wire.skip(i + header_block_end().len())),
        None => None,
    }
}

/// The lines that precede the first blank line of `wire`.
pub open spec fn wire_header_lines(wire: Seq<u8>) -> Option<Seq<Seq<u8>>> {
    match first_occurrence(wire, header_block_end()) {
        Some(i) => Some(split(wire.take(i), line_break())),
        None => None,
    }
}

impl ResponseView {
    /// The content type, where there is one, holds no carriage return
    /// and no line feed, so that it cannot end a header line.
    pub open spec fn plain_content_type(self) -> bool {
        self.content_type matches Some(t) ==> free_of_line_breaks(encode_utf8(t))
    }

    /// The lines of the header block: the status line, then the content
    /// type line and the content length line, each where it is present.
    pub open spec fn header_lines(self) -> Seq<Seq<u8>> {
        seq![encode_utf8(self.status.text())] + (match self.content_type {
            Some(t) => seq![content_type_name() + encode_utf8(t)],
            None => Seq::<Seq<u8>>::empty(),
        }) + (match self.content_length {
            Some(n) => seq![content_length_name() + decimal_digits(n)],
            None => Seq::<Seq<u8>>::empty(),
        })
    }

    /// The bytes after the header block: the body, or nothing.
    pub open spec fn body_bytes(self) -> Seq<u8> {
        match self.body {
            Some(b) => b,
            None => Seq::<u8>::empty(),
        }
    }

    /// A body, where there is one, has the announced length; and a
    /// nonzero length is announced only with a body.
    pub open spec fn wf(self) -> bool {
        &&& self.body matches Some(b) ==> self.content_length == Some(b.len())
        &&& self.content_length matches Some(n) ==> n != 0 ==> self.body is Some
    }

    /// The response with `status`, a length of zero and nothing else.
    pub open spec fn empty(status: Status) -> ResponseView {
        ResponseView { status, content_type: None, content_length: Some(0), body: None }
    }

    /// The response with `status` that carries `body` as `content_type`.
    pub open spec fn with_body(status: Status, content_type: Seq<char>, body: Seq<u8>)
        -> ResponseView {
        ResponseView {
            status,
            content_type: Some(content_type),
            content_length: Some(body.len()),
            body: Some(body),
        }
    }

    /// The header block: the status line, then one line for each header
    /// that is present, the content type before the content length.
    pub open spec fn header_block(self) -> Seq<u8> {
        encode_utf8(self.status.text()) + (match self.content_type {
            Some(t) => content_type_head() + encode_utf8(t),
            None => Seq::<u8>::empty(),
        }) + (match self.content_length {
            Some(n) => content_length_head() + decimal_digits(n),
            None => Seq::<u8>::empty(),
        })
    }

    /// The bytes that go out for this response: the header block, a blank
    /// line, and the body untouched.
    pub open spec fn wire(self) -> Seq<u8> {
        self.header_block() + header_block_end() + (match self.body {
            Some(b) => b,
            None => Seq::<u8>::empty(),
        })
    }
}

impl HttpResponse {
    /// A response with `status` and no body, which announces a length of
    /// zero.
    pub fn empty(status: Status) -> (response: HttpResponse)
        ensures
            response@ == ResponseView::empty(status),
            response@.wf(),
            response@.plain_content_type(),
    {
        HttpResponse { status, content_type: None, content_length: Some(0), body: None }
    }

    /// A response with `status` that carries `body` as `content_type` and
    /// announces its length.
    pub fn with_body(status: Status, content_type: String, body: Vec<u8>) -> (response:
        HttpResponse)
        ensures
            response@ == ResponseView::with_body(status, content_type@, body@),
            response@.wf(),
    {
        let content_length: usize = body.len();
        HttpResponse {
            status,
            content_type: Some(content_type),
            content_length: Some(content_length),
            body: Some(body),
        }
    }

    /// The bytes that go out before the body: the header block and the
    /// blank line that ends it.
    pub fn head_bytes(&self) -> (bytes: Vec<u8>)
        ensures
            bytes@ == self@.header_block() + header_block_end(),
    {
        let mut bytes: Vec<u8> = Vec::new();
        bytes.extend_from_slice(self.status.status_line().as_bytes());
        match &self.content_type {
            Some(t) => {
                bytes.extend_from_slice("\r\nContent-Type: ".as_bytes());
                bytes.extend_from_slice(t.as_str().as_bytes());
            },
            None => {},
        }
        match self.content_length {
            Some(n) => {
                bytes.extend_from_slice("\r\nContent-Length: ".as_bytes());
                push_decimal(&mut bytes, n);
            },
            None => {},
        }
        assert(bytes@ =~= self@.header_block());
        bytes.extend_from_slice("\r\n\r\n".as_bytes());
        assert(bytes@ =~= self@.header_block() + header_block_end());
        bytes
    }

    /// The bytes that go out for this response.
    ///
    /// Where the content type holds no line break, the header lines are
    /// what precedes the first blank line of these bytes, and the body is
    /// what follows it.
    pub fn to_bytes(&self) -> (bytes: Vec<u8>)
        ensures
            bytes@ == self@.wire(),
            self@.plain_content_type() ==> wire_body(bytes@) == Some(self@.body_bytes())
                && wire_header_lines(bytes@) == Some(self@.header_lines()),
    {
        proof {
            if self@.plain_content_type() {
                lemma_wire_shape(self@);
            }
        }
        let mut bytes: Vec<u8> = self.head_bytes();
        match &self.body {
            Some(b) => {
                bytes.extend_from_slice(b.as_slice());
            },
            None => {},
        }
        assert(bytes@ =~= self@.wire());
        bytes
    }
}

/// No byte of a status line is a carriage return or a line feed.
pub proof fn lemma_status_line_is_plain(status: Status)
    ensures
        free_of_line_breaks(encode_utf8(status.text())),
        encode_utf8(status.text()).len() > 0,
        encode_utf8(status.text())[0] == 72u8,
{
    reveal_strlit("HTTP/1.1 200 OK");
    reveal_strlit("HTTP/1.1 201 Created");
    reveal_strlit("HTTP/1.1 400 Bad Request");
    reveal_strlit("HTTP/1.1 404 Not Found");
    reveal_strlit("HTTP/1.1 500 Internal Server Error");
    is_ascii_spec_bytes("HTTP/1.1 200 OK");
    is_ascii_spec_bytes("HTTP/1.1 201 Created");
    is_ascii_spec_bytes("HTTP/1.1 400 Bad Request");
    is_ascii_spec_bytes("HTTP/1.1 404 Not Found");
    is_ascii_spec_bytes("HTTP/1.1 500 Internal Server Error");
}

/// A sequence without carriage return is one line; and where a line
/// break and more follow it, it is the first of the lines.
pub proof fn lemma_split_after_plain_line(line: Seq<u8>, rest: Seq<u8>)
    requires
        free_of_line_breaks(line),
    ensures
        split(line, line_break()) == seq![line],
        split(line + line_break() + rest, line_break()) == seq![line] + split(rest, line_break()),
{
    lemma_line_break();
    let sep = line_break();
    assert forall|j: int| 0 <= j implies !occurs_at(line, sep, j) by {
        if occurs_at(line, sep, j) {
            assert(line.subrange(j, j + 2)[0] == line[j]);
        }
    }
    lemma_first_occurrence_none(line, sep, 0);
    let whole = line + sep + rest;
    assert forall|j: int| 0 <= j < line.len() implies !occurs_at(whole, sep, j) by {
        if occurs_at(whole, sep, j) {
            assert(whole.subrange(j, j + 2)[0] == line[j]);
        }
    }
    assert(occurs_at(whole, sep, line.len() as int)) by {
        assert(whole.subrange(line.len() as int, line.len() as int + 2) =~= sep);
    }
    lemma_first_occurrence_is(whole, sep, 0, line.len() as int);
    assert(whole.take(line.len() as int) =~= line);
    assert(whole.skip(line.len() as int + 2) =~= rest);
}

/// Where the content type holds no line break, the header block ends at
/// the first blank line of the wire form: what precedes it are the
/// header lines, what follows it is the body, and the content length
/// line, where there is one, is the last line and occurs once.
pub proof fn lemma_wire_shape(response: ResponseView)
    requires
        response.plain_content_type(),
    ensures
        first_occurrence(response.wire(), header_block_end()) == Some(
            response.header_block().len() as int,
        ),
        wire_body(response.wire()) == Some(response.body_bytes()),
        wire_header_lines(response.wire()) == Some(response.header_lines()),
        response.content_length matches Some(n) ==> forall|k: int|
            0 <= k < response.header_lines().len() ==> (#[trigger] response.header_lines()[k]
                == content_length_name() + decimal_digits(n) <==> k
                == response.header_lines().len() - 1),
{
    lemma_line_break();
    lemma_status_line_is_plain(response.status);
    reveal_strlit("\r\n\r\n");
    reveal_strlit("\r\nContent-Type: ");
    reveal_strlit("\r\nContent-Length: ");
    reveal_strlit("Content-Type: ");
    reveal_strlit("Content-Length: ");
    is_ascii_spec_bytes("\r\n\r\n");
    is_ascii_spec_bytes("\r\nContent-Type: ");
    is_ascii_spec_bytes("\r\nContent-Length: ");
    is_ascii_spec_bytes("Content-Type: ");
    is_ascii_spec_bytes("Content-Length: ");
    let sep = line_break();
    let end = header_block_end();
    let status = encode_utf8(response.status.text());
    let block = response.header_block();
    let wire = response.wire();
    let lines = response.header_lines();
    assert(end =~= sep + sep);
    assert(content_type_head() =~= sep + content_type_name());
    assert(content_length_head() =~= sep + content_length_name());
    assert(free_of_line_breaks(content_type_name()));
    assert(free_of_line_breaks(content_length_name()));

    // The lines of the header block.
    let type_line = match response.content_type {
        Some(t) => content_type_name() + encode_utf8(t),
        None => Seq::<u8>::empty(),
    };
    let length_line = match response.content_length {
        Some(n) => content_length_name() + decimal_digits(n),
        None => Seq::<u8>::empty(),
    };
    if let Some(n) = response.content_length {
        lemma_decimal_digits_round_trip(n);
        assert(free_of_line_breaks(length_line)) by {
            assert forall|i: int| 0 <= i < length_line.len() implies #[trigger] length_line[i]
                != CR && length_line[i] != LF by {
                if i >= content_length_name().len() {
                    assert(length_line[i] == decimal_digits(n)[i - content_length_name().len()]);
                }
            }
        }
    }
    if let Some(t) = response.content_type {
        assert(free_of_line_breaks(type_line)) by {
            assert forall|i: int| 0 <= i < type_line.len() implies #[trigger] type_line[i] != CR
                && type_line[i] != LF by {
                if i >= content_type_name().len() {
                    assert(type_line[i] == encode_utf8(t)[i - content_type_name().len()]);
                }
            }
        }
    }
    match (response.content_type, response.content_length) {
        (Some(t), Some(n)) => {
            assert(block =~= status + sep + (type_line + sep + length_line));
            lemma_split_after_plain_line(status, type_line + sep + length_line);
            lemma_split_after_plain_line(type_line, length_line);
            lemma_split_after_plain_line(length_line, Seq::<u8>::empty());
            assert(lines =~= seq![status, type_line, length_line]);
            assert(split(block, sep) =~= lines);
            assert(type_line[8] != length_line[8]);
        },
        (Some(t), None) => {
            assert(block =~= status + sep + type_line);
            lemma_split_after_plain_line(status, type_line);
            lemma_split_after_plain_line(type_line, Seq::<u8>::empty());
            assert(lines =~= seq![status, type_line]);
            assert(split(block, sep) =~= lines);
        },
        (None, Some(n)) => {
            assert(block =~= status + sep + length_line);
            lemma_split_after_plain_line(status, length_line);
            lemma_split_after_plain_line(length_line, Seq::<u8>::empty());
            assert(lines =~= seq![status, length_line]);
            assert(split(block, sep) =~= lines);
        },
        (None, None) => {
            assert(block =~= status);
            lemma_split_after_plain_line(status, Seq::<u8>::empty());
            assert(lines =~= seq![status]);
            assert(split(block, sep) =~= lines);
        },
    }
    if let Some(n) = response.content_length {
        assert(status[0] != length_line[0]);
    }

    // Where the header block ends.
    lemma_block_has_no_blank_line(status, type_line, length_line, response.body_bytes());
    let second = if type_line.len() > 0 {
        sep + type_line
    } else {
        Seq::<u8>::empty()
    };
    let third = if length_line.len() > 0 {
        sep + length_line
    } else {
        Seq::<u8>::empty()
    };
    assert(block =~= status + second + third);
    assert(wire =~= block + end + response.body_bytes());
    assert(wire.take(block.len() as int) =~= block);
    assert(wire.skip((block.len() + end.len()) as int) =~= response.body_bytes());
}

/// A block of up to three lines without line breaks, joined by single
/// line breaks, holds no blank line; so that a blank line put after it
/// is the first.
proof fn lemma_block_has_no_blank_line(
    first: Seq<u8>,
    second: Seq<u8>,
    third: Seq<u8>,
    body: Seq<u8>,
)
    requires
        free_of_line_breaks(first),
        free_of_line_breaks(second),
        free_of_line_breaks(third),
        first.len() > 0,
    ensures
        ({
            let sep = line_break();
            let end = header_block_end();
            let block = first + (if second.len() > 0 {
                sep + second
            } else {
                Seq::<u8>::empty()
            }) + (if third.len() > 0 {
                sep + third
            } else {
                Seq::<u8>::empty()
            });
            first_occurrence(block + end + body, end) == Some(block.len() as int)
        }),
{
    lemma_line_break();
    reveal_strlit("\r\n\r\n");
    is_ascii_spec_bytes("\r\n\r\n");
    let sep = line_break();
    let end = header_block_end();
    let a = if second.len() > 0 {
        sep + second
    } else {
        Seq::<u8>::empty()
    };
    let b = if third.len() > 0 {
        sep + third
    } else {
        Seq::<u8>::empty()
    };
    let block = first + a + b;
    let wire = block + end + body;
    assert(end =~= seq![CR, LF, CR, LF]);
    assert forall|j: int| 0 <= j < block.len() implies !occurs_at(wire, end, j) by {
        if occurs_at(wire, end, j) {
            let window = wire.subrange(j, j + 4);
            assert(window[0] == wire[j]);
            assert(window[2] == wire[j + 2]);
            assert(wire[j] == CR);
            assert(wire[j + 2] == CR);
            // A carriage return in the block starts one of the two
            // joining line breaks, and two bytes on stands the first byte
            // of a line.
            if j < first.len() {
                assert(wire[j] == first[j]);
            } else if j < first.len() + a.len() {
                assert(wire[j] == a[j - first.len()]);
                if j > first.len() + 1 {
                    assert(a[j - first.len()] == second[j - first.len() - 2]);
                } else {
                    assert(j == first.len());
                    assert(wire[j + 2] == a[2]);
                    assert(a[2] == second[0]);
                }
            } else {
                let k = j - first.len() - a.len();
                assert(wire[j] == b[k]);
                if k > 1 {
                    assert(b[k] == third[k - 2]);
                } else {
                    assert(k == 0);
                    assert(wire[j + 2] == b[2]);
                    assert(b[2] == third[0]);
                }
            }
        }
    }
    assert(occurs_at(wire, end, block.len() as int)) by {
        assert(wire.subrange(block.len() as int, block.len() as int + 4) =~= end);
    }
    lemma_first_occurrence_is(wire, end, 0, block.len() as int);
}

} // verus!
