//! The request: its request line, its header lines and its body.

use crate::bytes::{
    begins_with, find, first_occurrence, head, lemma_first_occurrence_from,
    lemma_first_occurrence_is, occurs_at, split, starts_with, tail, views_of,
};
use crate::decimal::{parse_unsigned, parse_usize};
use vstd::prelude::*;
use vstd::string::*;

verus! {

/// The single space that separates the parts of a request line.
pub open spec fn space() -> Seq<u8> {
    " ".spec_bytes()
}

/// The line ending within the header section.
pub open spec fn line_break() -> Seq<u8> {
    "\r\n".spec_bytes()
}

/// The line break is carriage return, line feed.
pub proof fn lemma_line_break()
    ensures
        line_break() == seq![13u8, 10u8],
        line_break().len() == 2,
{
    reveal_strlit("\r\n");
    is_ascii_spec_bytes("\r\n");
    assert(line_break() =~= seq![13u8, 10u8]);
}

/// The first line of `text`: what precedes its first line break, or all
/// of it where it holds none.
pub open spec fn first_line(text: Seq<u8>) -> Seq<u8> {
    split(text, line_break()).first()
}

/// The prefix of the header line that announces the length of the body.
pub open spec fn content_length_prefix() -> Seq<u8> {
    "Content-Length: ".spec_bytes()
}

/// A parsed request, as the router receives it.
#[derive(Debug, Clone, PartialEq, Eq)]
pub struct HttpRequest {
    /// The method token, such as `GET` or `POST`.
    pub method: Vec<u8>,
    /// The path, raw and unescaped.
    pub path: Vec<u8>,
    /// The header lines in the order received, each a raw `Name: Value`.
    pub headers: Vec<Vec<u8>>,
    /// The body, never decoded.
    pub body: Vec<u8>,
}

/// The mathematical content of an `HttpRequest`.
pub struct RequestView {
    pub method: Seq<u8>,
    pub path: Seq<u8>,
    pub headers: Seq<Seq<u8>>,
    pub body: Seq<u8>,
}

impl View for HttpRequest {
    type V = RequestView;

    open spec fn view(&self) -> RequestView {
        RequestView {
            method: self.method@,
            path: self.path@,
            headers: views_of(self.headers@),
            body: self.body@,
        }
    }
}

impl RequestView {
    /// The body is no longer than the length that the headers announce.
    pub open spec fn wf(self) -> bool {
        self.body.len() <= declared_content_length(self.headers)
    }
}

/// The method and the path of a request line: what stands before the
/// first space, and what stands between the first and the second.
/// A line with fewer than two spaces has neither.
pub open spec fn request_line_parts(line: Seq<u8>) -> Option<(Seq<u8>, Seq<u8>)> {
    match first_occurrence(line, space()) {
        Some(i) => {
            let rest = line.skip(i + space().len());
            match first_occurrence(rest, space()) {
                Some(j) => Some((line.take(i), rest.take(j))),
                None => None,
            }
        },
        None => None,
    }
}

/// The path named by a request line.
pub open spec fn path_of(line: Seq<u8>) -> Option<Seq<u8>> {
    match request_line_parts(line) {
        Some(parts) => Some(parts.1),
        None => None,
    }
}

/// The first of `lines` that begins with `prefix`.
pub open spec fn first_with_prefix(lines: Seq<Seq<u8>>, prefix: Seq<u8>) -> Option<Seq<u8>>
    decreases lines.len(),
{
    if lines.len() == 0 {
        None
    } else if begins_with(lines[0], prefix) {
        Some(lines[0])
    } else {
        first_with_prefix(lines.drop_first(), prefix)
    }
}

/// What follows `prefix` in the first of `lines` that begins with it.
pub open spec fn header_value(lines: Seq<Seq<u8>>, prefix: Seq<u8>) -> Option<Seq<u8>> {
    match first_with_prefix(lines, prefix) {
        Some(line) => Some(line.skip(prefix.len() as int)),
        None => None,
    }
}

/// The number that `text` denotes, or 0 where it denotes none or one
/// too large for a `usize`.
pub open spec fn number_or_zero(text: Seq<u8>) -> nat {
    match parse_unsigned(text) {
        Some(n) => if n <= usize::MAX {
            n
        } else {
            0
        },
        None => 0,
    }
}

/// The number written after the first space of `line`, or 0 where there
/// is no space or no number after it.
pub open spec fn length_in_line(line: Seq<u8>) -> nat {
    match first_occurrence(line, space()) {
        Some(i) => number_or_zero(line.skip(i + space().len())),
        None => 0,
    }
}

/// The body length that `headers` announce: the number in the first
/// `Content-Length: ` line, or 0 where there is none.
pub open spec fn declared_content_length(headers: Seq<Seq<u8>>) -> nat {
    match first_with_prefix(headers, content_length_prefix()) {
        Some(line) => length_in_line(line),
        None => 0,
    }
}

/// In a line that begins with `Content-Length: `, the number after the
/// first space is the number after that prefix.
pub proof fn lemma_content_length_follows_prefix(line: Seq<u8>)
    requires
        begins_with(line, content_length_prefix()),
    ensures
        length_in_line(line) == number_or_zero(line.skip(content_length_prefix().len() as int)),
{
    let prefix = content_length_prefix();
    reveal_strlit("Content-Length: ");
    reveal_strlit(" ");
    is_ascii_spec_bytes("Content-Length: ");
    is_ascii_spec_bytes(" ");
    assert(space() =~= seq![32u8]);
    assert(prefix.len() == 16);
    assert(line.subrange(0, 16) == prefix);
    assert forall|j: int| 0 <= j < 15 implies !occurs_at(line, space(), j) by {
        assert(line.subrange(0, 16)[j] == prefix[j]);
        if occurs_at(line, space(), j) {
            assert(line.subrange(j, j + 1)[0] == 32u8);
        }
    }
    assert(occurs_at(line, space(), 15)) by {
        assert(line.subrange(0, 16)[15] == prefix[15]);
        assert(line.subrange(15, 16) =~= seq![32u8]);
    }
    lemma_first_occurrence_is(line, space(), 0, 15);
}

/// The first line of `text`.
pub fn first_line_of(text: &[u8]) -> (line: &[u8])
    ensures
        line@ == first_line(text@),
{
    proof {
        lemma_line_break();
    }
    match find(text, "\r\n".as_bytes()) {
        Some(i) => {
            proof {
                lemma_first_occurrence_from(text@, line_break(), 0);
            }
            head(text, i)
        },
        None => text,
    }
}

/// Splits the request line of `request` into its method and its path.
///
/// The request line is the first line of `request`; nothing after the
/// first line break is looked at.
pub fn parse_request_line(request: &[u8]) -> (parts: Option<(&[u8], &[u8])>)
    ensures
        match parts {
            Some((method, path)) => request_line_parts(first_line(request@)) == Some(
                (method@, path@),
            ),
            None => request_line_parts(first_line(request@)) is None,
        },
{
    let line: &[u8] = first_line_of(request);
    let sp: &[u8] = " ".as_bytes();
    match find(line, sp) {
        Some(i) => {
            proof {
                lemma_first_occurrence_from(line@, sp@, 0);
            }
            let rest: &[u8] = tail(line, i + sp.len());
            match find(rest, sp) {
                Some(j) => {
                    proof {
                        lemma_first_occurrence_from(rest@, sp@, 0);
                    }
                    Some((head(line, i), head(rest, j)))
                },
                None => None,
            }
        },
        None => None,
    }
}

/// The path that `request` names: the text between the first and the
/// second space of its request line, which is its first line. A space
/// in a later line does not stand in for one that the request line
/// lacks.
pub fn extract_path(request: &[u8]) -> (path: Option<&[u8]>)
    ensures
        match path {
            Some(p) => path_of(first_line(request@)) == Some(p@),
            None => path_of(first_line(request@)) is None,
        },
{
    match parse_request_line(request) {
        Some((_, path)) => Some(path),
        None => None,
    }
}

/// The first of `headers` that begins with `prefix`.
pub fn find_header<'a>(headers: &'a Vec<Vec<u8>>, prefix: &[u8]) -> (line: Option<&'a [u8]>)
    ensures
        match line {
            Some(l) => {
                &&& first_with_prefix(views_of(headers@), prefix@) == Some(l@)
                &&& begins_with(l@, prefix@)
            },
            None => first_with_prefix(views_of(headers@), prefix@) is None,
        },
{
    let ghost lines = views_of(headers@);
    assert(lines.skip(0) =~= lines);
    let mut i: usize = 0;
    while i < headers.len()
        invariant
            i <= headers.len(),
            lines == views_of(headers@),
            first_with_prefix(lines, prefix@) == first_with_prefix(lines.skip(i as int), prefix@),
        decreases headers.len() - i,
    {
        let line: &[u8] = headers[i].as_slice();
        assert(lines.skip(i as int)[0] == line@);
        if starts_with(line, prefix) {
            return Some(line);
        }
        assert(lines.skip(i as int).drop_first() =~= lines.skip(i + 1));
        i = i + 1;
    }
    None
}

/// The number that a `Content-Length` header line announces: the
/// unsigned decimal number after its first space, or 0 where the line
/// holds no such number.
pub fn parse_content_length(line: &[u8]) -> (length: usize)
    ensures
        length == length_in_line(line@),
{
    let sp: &[u8] = " ".as_bytes();
    match find(line, sp) {
        Some(i) => {
            proof {
                lemma_first_occurrence_from(line@, sp@, 0);
            }
            match parse_usize(tail(line, i + sp.len())) {
                Some(n) => n,
                None => 0,
            }
        },
        None => 0,
    }
}

/// The body length that `headers` announce.
pub fn content_length(headers: &Vec<Vec<u8>>) -> (length: usize)
    ensures
        length == declared_content_length(views_of(headers@)),
{
    match find_header(headers, "Content-Length: ".as_bytes()) {
        Some(line) => parse_content_length(line),
        None => 0,
    }
}

impl HttpRequest {
    /// What follows `prefix` in the first header line that begins with it.
    pub fn header(&self, prefix: &[u8]) -> (value: Option<&[u8]>)
        ensures
            match value {
                Some(v) => header_value(self@.headers, prefix@) == Some(v@),
                None => header_value(self@.headers, prefix@) is None,
            },
    {
        match find_header(&self.headers, prefix) {
            Some(line) => Some(tail(line, prefix.len())),
            None => None,
        }
    }
}

} // verus!
