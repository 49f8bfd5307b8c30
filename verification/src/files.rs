//! Serving and storing files: which file a path names, and what is
//! answered once the file system has done its part.

use crate::bytes::{begins_with, find, first_occurrence, starts_with, tail};
use crate::content_type::{content_type_of, get_content_type};
use crate::response::{
    lemma_wire_shape, wire_body, wire_header_lines, HttpResponse, ResponseView, Status,
};
use vstd::prelude::*;
use vstd::string::*;
use vstd::utf8::{decode_utf8, encode_utf8, encode_utf8_decode_utf8, valid_utf8};

verus! {

/// The prefix of every path that names a file.
pub open spec fn files_prefix() -> Seq<u8> {
    "/files/".spec_bytes()
}

/// The separator of path segments.
pub open spec fn slash() -> Seq<u8> {
    "/".spec_bytes()
}

/// The file that `path` names: what follows `/files/`, provided that no
/// further `/` occurs in it. Any other path names no file.
pub open spec fn file_name_of(path: Seq<u8>) -> Option<Seq<u8>> {
    let name = path.skip(files_prefix().len() as int);
    if begins_with(path, files_prefix()) && first_occurrence(name, slash()) is None {
        Some(name)
    } else {
        None
    }
}

/// The file that `path` names, where it has the shape `/files/<name>`.
pub fn extract_filename(path: &[u8]) -> (name: Option<&[u8]>)
    ensures
        match name {
            Some(n) => file_name_of(path@) == Some(n@),
            None => file_name_of(path@) is None,
        },
{
    let prefix: &[u8] = "/files/".as_bytes();
    if !starts_with(path, prefix) {
        return None;
    }
    let name: &[u8] = tail(path, prefix.len());
    match find(name, "/".as_bytes()) {
        Some(_) => None,
        None => Some(name),
    }
}

/// The text that `String::from_utf8_lossy` makes of a byte string.
pub uninterp spec fn lossy_text(bytes: Seq<u8>) -> Seq<char>;

/// Calls `String::from_utf8_lossy`.
///
/// Assumed, not proved: the text depends on the bytes alone, and bytes
/// that are valid UTF-8 are the encoding of the text they give.
#[verifier::external_body]
fn utf8_lossy(bytes: &[u8]) -> (text: String)
    ensures
        text@ == lossy_text(bytes@),
        valid_utf8(bytes@) ==> encode_utf8(text@) == bytes@,
{
    String::from_utf8_lossy(bytes).into_owned()
}

/// The path of the file `name` in `directory`.
pub open spec fn joined_path(directory: Seq<char>, name: Seq<char>) -> Seq<char> {
    directory + "/"@ + name
}

/// The path of the file `name` in `directory`: the two joined by `/`,
/// neither of them examined or changed.
pub fn join_path(directory: &str, name: &str) -> (path: String)
    ensures
        path@ == joined_path(directory@, name@),
{
    let mut path: String = directory.to_owned();
    path.append("/");
    path.append(name);
    path
}

/// The text that the bytes of a file name stand for: bytes that are
/// valid UTF-8 stand for the text they encode.
pub open spec fn text_of(bytes: Seq<u8>) -> Seq<char> {
    if valid_utf8(bytes) {
        decode_utf8(bytes)
    } else {
        lossy_text(bytes)
    }
}

/// The path of the file that the bytes `name` stand for in `directory`.
pub open spec fn file_path_of(directory: Seq<char>, name: Seq<u8>) -> Seq<char> {
    joined_path(directory, text_of(name))
}

/// The path of the file that the bytes `name` stand for in `directory`.
pub fn file_path(directory: &str, name: &[u8]) -> (path: String)
    ensures
        path@ == file_path_of(directory@, name@),
{
    let text: String = utf8_lossy(name);
    proof {
        encode_utf8_decode_utf8(text@);
    }
    join_path(directory, text.as_str())
}

/// What came of opening a file and reading all of it.
#[derive(Debug, Clone, PartialEq, Eq)]
pub enum FileRead {
    /// The file is absent or could not be opened.
    Missing,
    /// The file was opened, and reading it failed.
    Failed,
    /// The whole contents of the file.
    Contents(Vec<u8>),
}

/// The mathematical content of a `FileRead`.
pub enum FileReadView {
    Missing,
    Failed,
    Contents(Seq<u8>),
}

impl View for FileRead {
    type V = FileReadView;

    open spec fn view(&self) -> FileReadView {
        match self {
            FileRead::Missing => FileReadView::Missing,
            FileRead::Failed => FileReadView::Failed,
            FileRead::Contents(bytes) => FileReadView::Contents(bytes@),
        }
    }
}

/// The response that serves `contents` as `content_type`.
pub fn file_response(content_type: String, contents: Vec<u8>) -> (response: HttpResponse)
    ensures
        response@ == ResponseView::with_body(Status::Okay, content_type@, contents@),
        response@.wf(),
{
    HttpResponse::with_body(Status::Okay, content_type, contents)
}

/// The answer to a request for the file at `file_path`, given what came
/// of reading it.
pub open spec fn get_file_response(file_path: Seq<char>, outcome: FileReadView) -> ResponseView {
    match outcome {
        FileReadView::Contents(bytes) => ResponseView::with_body(
            Status::Okay,
            content_type_of(file_path),
            bytes,
        ),
        FileReadView::Missing => ResponseView::empty(Status::NotFound),
        FileReadView::Failed => ResponseView::empty(Status::InternalServerError),
    }
}

/// Answers a request for the file at `file_path`, given what came of
/// reading it: the contents under the content type of the path, or
/// `404 Not Found` for a missing file, or `500 Internal Server Error`
/// for a failed read.
///
/// On the wire the header block of the answer ends at the first blank
/// line, and what follows it are the bytes read, none added and none
/// changed.
pub fn handle_get_file_request(file_path: &str, outcome: FileRead) -> (response: HttpResponse)
    ensures
        response@ == get_file_response(file_path@, outcome@),
        response@.wf(),
        response@.plain_content_type(),
        wire_header_lines(response@.wire()) == Some(response@.header_lines()),
        wire_body(response@.wire()) == Some(
            match outcome@ {
                FileReadView::Contents(bytes) => bytes,
                _ => Seq::<u8>::empty(),
            },
        ),
{
    let response: HttpResponse = match outcome {
        FileRead::Contents(bytes) => file_response(get_content_type(file_path), bytes),
        FileRead::Missing => HttpResponse::empty(Status::NotFound),
        FileRead::Failed => HttpResponse::empty(Status::InternalServerError),
    };
    proof {
        lemma_wire_shape(response@);
    }
    response
}

/// The answer to a request to store a file, given whether it was saved.
pub open spec fn post_file_response(saved: bool) -> ResponseView {
    if saved {
        ResponseView::empty(Status::Created)
    } else {
        ResponseView::empty(Status::InternalServerError)
    }
}

/// Answers a request to store a file, given whether it was saved:
/// `201 Created`, or `500 Internal Server Error`.
pub fn handle_post_file_request(saved: bool) -> (response: HttpResponse)
    ensures
        response@ == post_file_response(saved),
        response@.wf(),
        response@.plain_content_type(),
{
    if saved {
        HttpResponse::empty(Status::Created)
    } else {
        HttpResponse::empty(Status::InternalServerError)
    }
}

} // verus!
