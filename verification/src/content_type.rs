//! The content type under which a file is served.
//!
//! The type is looked up by the extension of the file's path. Both the
//! rule that finds the extension in a path and the table from extensions
//! to media types are taken from outside this library; this file holds
//! what is assumed of them.

use crate::bytes::free_of_line_breaks;
use vstd::prelude::*;
use vstd::utf8::encode_utf8;

verus! {

/// The media type that the `mime_guess` table lists first for a file
/// extension, or `application/octet-stream` where it lists none.
pub uninterp spec fn media_type_of_extension(extension: Seq<char>) -> Seq<char>;

/// The extension that the path grammar of the standard library finds in
/// a path: the part of the final component after its last dot, where
/// there is one.
pub uninterp spec fn extension_of_path(path: Seq<char>) -> Option<Seq<char>>;

/// The content type of the file at `file_path`.
pub open spec fn content_type_of(file_path: Seq<char>) -> Seq<char> {
    media_type_of_extension(
        match extension_of_path(file_path) {
            Some(extension) => extension,
            None => Seq::<char>::empty(),
        },
    )
}

/// Calls `mime_guess::MimeGuess::from_ext` and, on the guess it gives,
/// `first_or_octet_stream`, and renders the media type as text.
///
/// Assumed, not proved: the result depends on the extension alone, since
/// the table is fixed when the program is built; the empty extension,
/// for which the table is not consulted, yields
/// `application/octet-stream`; and no byte of the rendered media type is
/// a carriage return or a line feed, since the parser of media types
/// accepts neither.
#[verifier::external_body]
fn guess_media_type(extension: &str) -> (media_type: String)
    ensures
        media_type@ == media_type_of_extension(extension@),
        extension@.len() == 0 ==> media_type@ == "application/octet-stream"@,
        free_of_line_breaks(encode_utf8(media_type@)),
{
    mime_guess::MimeGuess::from_ext(extension).first_or_octet_stream().to_string()
}

/// Calls `std::path::Path::extension` on `file_path`.
///
/// Assumed, not proved: the result depends on the path alone, under the
/// path grammar of the platform that the program is built for; and a
/// path without any dot has no extension.
#[verifier::external_body]
fn path_extension(file_path: &str) -> (extension: Option<String>)
    ensures
        match extension {
            Some(e) => extension_of_path(file_path@) == Some(e@),
            None => extension_of_path(file_path@) is None,
        },
        !file_path@.contains('.') ==> extension is None,
{
    let extension = std::path::Path::new(file_path).extension()?;
    Some(extension.to_str()?.to_owned())
}

/// The content type of the file at `file_path`, by its extension.
pub fn get_content_type(file_path: &str) -> (content_type: String)
    ensures
        content_type@ == content_type_of(file_path@),
        !file_path@.contains('.') ==> content_type@ == "application/octet-stream"@,
        free_of_line_breaks(encode_utf8(content_type@)),
{
    match path_extension(file_path) {
        Some(extension) => guess_media_type(extension.as_str()),
        None => {
            proof {
                reveal_strlit("");
                assert(""@ =~= Seq::<char>::empty());
            }
            guess_media_type("")
        },
    }
}

} // verus!
