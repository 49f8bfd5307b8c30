//! Framing: finding one request in a stream of bytes that arrives in
//! chunks of any size.
//!
//! What a stream holds is defined once, on the whole stream, by `frame`
//! and `state_of`. The `Framer` takes the stream chunk by chunk and is,
//! after every chunk, in the state that `state_of` gives for the bytes it
//! has taken so far; so how the stream was cut cannot matter.

use crate::bytes::{
    find_from, first_occurrence, first_occurrence_from, head, lemma_first_occurrence_append,
    lemma_first_occurrence_from, lemma_first_occurrence_is, lemma_first_occurrence_none,
    lemma_occurs_at_append, lemma_split_joins_back, occurs_at, split, split_at_each, tail, to_vec,
    views_of,
};
use crate::request::{
    content_length, declared_content_length, first_line, lemma_line_break, line_break,
    parse_request_line, request_line_parts, HttpRequest, RequestView,
};
use vstd::prelude::*;
use vstd::string::*;

verus! {

/// The number of bytes that a reader asks of the stream at a time. The
/// framer itself takes chunks of any size.
pub const CHUNK_SIZE: usize = 1024;

/// The blank line that ends the header section.
pub open spec fn header_terminator() -> Seq<u8> {
    "\r\n\r\n".spec_bytes()
}

/// The header terminator is carriage return, line feed, twice.
pub proof fn lemma_header_terminator()
    ensures
        header_terminator() == seq![13u8, 10u8, 13u8, 10u8],
        header_terminator().len() == 4,
{
    reveal_strlit("\r\n\r\n");
    is_ascii_spec_bytes("\r\n\r\n");
    assert(header_terminator() =~= seq![13u8, 10u8, 13u8, 10u8]);
}

/// Why a stream holds no request.
#[derive(Debug, Clone, Copy, PartialEq, Eq, Structural)]
pub enum FrameError {
    /// The stream ended before the blank line that ends the headers.
    IncompleteHeader,
    /// The request line lacks one of its two spaces.
    MalformedRequestLine,
}

/// How far the framing of a stream has come.
#[derive(Debug, Clone, Copy, PartialEq, Eq, Structural)]
pub enum FramerState {
    /// The blank line that ends the headers has not arrived.
    AwaitingHeaders,
    /// The headers are parsed; fewer body bytes than they announce have
    /// arrived.
    AwaitingBody,
    /// The whole request has arrived.
    Complete,
    /// The headers have arrived and the request line cannot be parsed.
    Malformed,
}

impl FramerState {
    /// Nothing more needs to be read: the request is complete, or its
    /// request line cannot be parsed.
    pub open spec fn settled(self) -> bool {
        self == FramerState::Complete || self == FramerState::Malformed
    }

    /// Whether nothing more needs to be read.
    pub fn is_settled(&self) -> (settled: bool)
        ensures
            settled == self.settled(),
    {
        match self {
            FramerState::Complete => true,
            FramerState::Malformed => true,
            FramerState::AwaitingHeaders => false,
            FramerState::AwaitingBody => false,
        }
    }
}

/// The lines of a header section: the request line, and the header
/// lines after it.
pub struct HeaderSection {
    pub request_line: Seq<u8>,
    pub headers: Seq<Seq<u8>>,
}

/// The lines of the header section `bytes`, which are separated by line
/// breaks. The first is the request line.
pub open spec fn header_section(bytes: Seq<u8>) -> HeaderSection {
    let lines = split(bytes, line_break());
    HeaderSection { request_line: lines.first(), headers: lines.drop_first() }
}

/// The number of bytes of `received` that follow the header terminator
/// found at `end`.
pub open spec fn bytes_after(received: Seq<u8>, end: int) -> int {
    received.len() - (end + header_terminator().len())
}

/// How far the bytes `received` take the framing of a request.
pub open spec fn state_of(received: Seq<u8>) -> FramerState {
    match first_occurrence(received, header_terminator()) {
        None => FramerState::AwaitingHeaders,
        Some(end) => {
            let section = header_section(received.take(end));
            if request_line_parts(section.request_line) is None {
                FramerState::Malformed
            } else if bytes_after(received, end) < declared_content_length(section.headers) {
                FramerState::AwaitingBody
            } else {
                FramerState::Complete
            }
        },
    }
}

/// No byte that may still arrive can change what `received` holds.
pub open spec fn is_settled(received: Seq<u8>) -> bool {
    state_of(received).settled()
}

/// The request that a stream holds when it ends after `received`.
///
/// The header section is what precedes the first header terminator. The
/// body is what follows the terminator, cut to the announced length; a
/// stream that ends early leaves a shorter body, which is no error.
pub open spec fn frame(received: Seq<u8>) -> Result<RequestView, FrameError> {
    match first_occurrence(received, header_terminator()) {
        None => Err(FrameError::IncompleteHeader),
        Some(end) => {
            let section = header_section(received.take(end));
            let rest = received.skip(end + header_terminator().len());
            let length = declared_content_length(section.headers);
            match request_line_parts(section.request_line) {
                None => Err(FrameError::MalformedRequestLine),
                Some(parts) => Ok(
                    RequestView {
                        method: parts.0,
                        path: parts.1,
                        headers: section.headers,
                        body: if rest.len() <= length {
                            rest
                        } else {
                            rest.take(length as int)
                        },
                    },
                ),
            }
        },
    }
}

/// The bytes that a framer holds after `chunk` is offered to one that
/// holds `received`: a settled framer takes nothing more.
pub open spec fn receive(received: Seq<u8>, chunk: Seq<u8>) -> Seq<u8> {
    if is_settled(received) {
        received
    } else {
        received + chunk
    }
}

/// The bytes that a framer holds after `chunks` are offered, one after
/// the other, to one that holds `received`.
pub open spec fn receive_all(received: Seq<u8>, chunks: Seq<Seq<u8>>) -> Seq<u8>
    decreases chunks.len(),
{
    if chunks.len() == 0 {
        received
    } else {
        receive_all(receive(received, chunks.first()), chunks.drop_first())
    }
}

/// What was parsed of the header section when its terminator arrived.
struct Head {
    /// The position of the first byte after the header terminator.
    body_start: usize,
    /// The method and the path, where the request line has both.
    target: Option<(Vec<u8>, Vec<u8>)>,
    /// The header lines.
    headers: Vec<Vec<u8>>,
    /// The body length that the header lines announce.
    content_length: usize,
}

impl Head {
    /// The lines, the target and the length are those of the header
    /// section `section`.
    spec fn parses(&self, section: Seq<u8>) -> bool {
        let lines = header_section(section);
        &&& views_of(self.headers@) == lines.headers
        &&& self.content_length == declared_content_length(lines.headers)
        &&& match self.target {
            Some((method, path)) => request_line_parts(lines.request_line) == Some(
                (method@, path@),
            ),
            None => request_line_parts(lines.request_line) is None,
        }
    }

    /// This is the parse of the header section of `received`, whose
    /// terminator stands at `end`.
    spec fn describes(&self, received: Seq<u8>, end: int) -> bool {
        &&& 0 <= end
        &&& self.body_start == end + header_terminator().len()
        &&& self.body_start <= received.len()
        &&& self.parses(received.take(end))
    }
}

/// Takes a request from a stream, chunk by chunk.
pub struct Framer {
    /// Every byte taken so far.
    buffer: Vec<u8>,
    /// The parsed header section, once its terminator has been taken.
    head: Option<Head>,
}

/// Parses the header section `section`; the body starts at `body_start`.
fn parse_head(section: &[u8], body_start: usize) -> (parsed: Head)
    ensures
        parsed.parses(section@),
        parsed.body_start == body_start,
{
    proof {
        lemma_line_break();
        lemma_split_joins_back(section@, line_break());
    }
    let mut lines: Vec<Vec<u8>> = split_at_each(section, "\r\n".as_bytes());
    let ghost all = views_of(lines@);
    let request_line: Vec<u8> = lines.remove(0);
    assert(views_of(lines@) =~= all.drop_first());
    assert(request_line@ == all.first());
    assert(first_line(request_line@) == request_line@) by {
        assert(first_occurrence(all[0], line_break()) is None);
    }
    let target: Option<(Vec<u8>, Vec<u8>)> = match parse_request_line(request_line.as_slice()) {
        Some((method, path)) => Some((to_vec(method), to_vec(path))),
        None => None,
    };
    let length: usize = content_length(&lines);
    Head { body_start, target, headers: lines, content_length: length }
}

impl Framer {
    /// Every byte that this framer has taken, in order.
    pub closed spec fn received(&self) -> Seq<u8> {
        self.buffer@
    }

    /// What this framer remembers of the header section is what its
    /// bytes hold.
    pub closed spec fn wf(&self) -> bool {
        match self.head {
            None => first_occurrence(self.buffer@, header_terminator()) is None,
            Some(parsed) => match first_occurrence(self.buffer@, header_terminator()) {
                Some(end) => parsed.describes(self.buffer@, end),
                None => false,
            },
        }
    }

    /// A framer that has taken nothing.
    pub fn new() -> (framer: Framer)
        ensures
            framer.wf(),
            framer.received() == Seq::<u8>::empty(),
    {
        proof {
            lemma_header_terminator();
        }
        Framer { buffer: Vec::new(), head: None }
    }

    /// How far this framer has come.
    pub fn state(&self) -> (state: FramerState)
        requires
            self.wf(),
        ensures
            state == state_of(self.received()),
    {
        match &self.head {
            None => FramerState::AwaitingHeaders,
            Some(parsed) => {
                if parsed.target.is_none() {
                    FramerState::Malformed
                } else if self.buffer.len() - parsed.body_start < parsed.content_length {
                    FramerState::AwaitingBody
                } else {
                    FramerState::Complete
                }
            },
        }
    }

    /// Takes the next chunk of the stream and says how far the framing
    /// has come. A framer that is settled takes nothing more.
    pub fn feed(&mut self, chunk: &[u8]) -> (state: FramerState)
        requires
            old(self).wf(),
        ensures
            final(self).wf(),
            final(self).received() == receive(old(self).received(), chunk@),
            state == state_of(final(self).received()),
    {
        let before: FramerState = self.state();
        if before.is_settled() {
            return before;
        }
        let ghost old_bytes = self.buffer@;
        let old_len: usize = self.buffer.len();
        self.buffer.extend_from_slice(chunk);
        assert(self.buffer@ =~= old_bytes + chunk@);
        proof {
            lemma_header_terminator();
        }
        if self.head.is_none() {
            let from: usize = if old_len >= 3 {
                old_len - 3
            } else {
                0
            };
            proof {
                lemma_search_resumes(old_bytes, chunk@, from as int);
            }
            match find_from(self.buffer.as_slice(), "\r\n\r\n".as_bytes(), from) {
                Some(end) => {
                    let parsed: Head = parse_head(head(self.buffer.as_slice(), end), end + 4);
                    self.head = Some(parsed);
                },
                None => {},
            }
        } else {
            proof {
                lemma_first_occurrence_append(old_bytes, chunk@, header_terminator());
                let end = first_occurrence(old_bytes, header_terminator())->0;
                lemma_first_occurrence_from(old_bytes, header_terminator(), 0);
                assert((old_bytes + chunk@).take(end) =~= old_bytes.take(end));
            }
        }
        self.state()
    }

    /// Ends the stream and hands out the request that it held.
    ///
    /// A stream that ended before the header terminator holds none. One
    /// that ended within the body gives the body as far as it came.
    pub fn finish(self) -> (framed: Result<HttpRequest, FrameError>)
        requires
            self.wf(),
        ensures
            match framed {
                Ok(request) => {
                    &&& frame(self.received()) == Ok::<RequestView, FrameError>(request@)
                    &&& request@.wf()
                },
                Err(error) => frame(self.received()) == Err::<RequestView, FrameError>(error),
            },
    {
        proof {
            lemma_header_terminator();
        }
        match self.head {
            None => Err(FrameError::IncompleteHeader),
            Some(parsed) => match parsed.target {
                None => Err(FrameError::MalformedRequestLine),
                Some((method, path)) => {
                    let rest: &[u8] = tail(self.buffer.as_slice(), parsed.body_start);
                    let body: Vec<u8> = if rest.len() <= parsed.content_length {
                        to_vec(rest)
                    } else {
                        to_vec(head(rest, parsed.content_length))
                    };
                    Ok(HttpRequest { method, path, headers: parsed.headers, body })
                },
            },
        }
    }
}

/// While no terminator has been taken, a search of the grown buffer may
/// start three bytes before the old end.
proof fn lemma_search_resumes(old_bytes: Seq<u8>, chunk: Seq<u8>, from: int)
    requires
        first_occurrence(old_bytes, header_terminator()) is None,
        from == if old_bytes.len() >= 3 {
            old_bytes.len() - 3
        } else {
            0
        },
    ensures
        first_occurrence_from(old_bytes + chunk, header_terminator(), from) == first_occurrence(
            old_bytes + chunk,
            header_terminator(),
        ),
{
    let pat = header_terminator();
    let grown = old_bytes + chunk;
    lemma_header_terminator();
    lemma_first_occurrence_from(old_bytes, pat, 0);
    lemma_first_occurrence_from(grown, pat, from);
    assert forall|j: int| 0 <= j < from implies !occurs_at(grown, pat, j) by {
        lemma_occurs_at_append(old_bytes, chunk, pat, j);
    }
    match first_occurrence_from(grown, pat, from) {
        Some(i) => {
            lemma_first_occurrence_is(grown, pat, 0, i);
        },
        None => {
            lemma_first_occurrence_none(grown, pat, 0);
        },
    }
}

/// Frames a whole stream at once: the request that `stream` holds when
/// nothing follows it.
pub fn read_request(stream: &[u8]) -> (framed: Result<HttpRequest, FrameError>)
    ensures
        match framed {
            Ok(request) => {
                &&& frame(stream@) == Ok::<RequestView, FrameError>(request@)
                &&& request@.wf()
            },
            Err(error) => frame(stream@) == Err::<RequestView, FrameError>(error),
        },
{
    let mut framer: Framer = Framer::new();
    proof {
        lemma_header_terminator();
        assert(Seq::<u8>::empty() + stream@ =~= stream@);
    }
    framer.feed(stream);
    framer.finish()
}

/// Once the header terminator has arrived, the header section is fixed:
/// bytes that follow change neither where it ends nor what its lines are.
pub proof fn lemma_header_section_is_final(received: Seq<u8>, more: Seq<u8>)
    requires
        first_occurrence(received, header_terminator()) is Some,
    ensures
        first_occurrence(received + more, header_terminator()) == first_occurrence(
            received,
            header_terminator(),
        ),
        ({
            let end = first_occurrence(received, header_terminator())->0;
            &&& 0 <= end
            &&& end + header_terminator().len() <= received.len()
            &&& (received + more).take(end) == received.take(end)
            &&& (received + more).skip(end + header_terminator().len()) == received.skip(
                end + header_terminator().len(),
            ) + more
        }),
{
    let end = first_occurrence(received, header_terminator())->0;
    lemma_first_occurrence_append(received, more, header_terminator());
    lemma_first_occurrence_from(received, header_terminator(), 0);
    assert((received + more).take(end) =~= received.take(end));
    assert((received + more).skip(end + header_terminator().len()) =~= received.skip(
        end + header_terminator().len(),
    ) + more);
}

/// A settled framing is final: whatever bytes follow, the state and the
/// request stay what they are.
pub proof fn lemma_settled_is_final(received: Seq<u8>, more: Seq<u8>)
    requires
        is_settled(received),
    ensures
        state_of(received + more) == state_of(received),
        frame(received + more) == frame(received),
{
    lemma_header_section_is_final(received, more);
    let end = first_occurrence(received, header_terminator())->0;
    let section = header_section(received.take(end));
    let rest = received.skip(end + header_terminator().len());
    let length = declared_content_length(section.headers);
    if request_line_parts(section.request_line) is Some {
        assert(rest.len() >= length);
        if rest.len() <= length {
            assert((rest + more).take(length as int) =~= rest);
            if (rest + more).len() <= length {
                assert(rest + more =~= rest);
            }
        } else {
            assert((rest + more).take(length as int) =~= rest.take(length as int));
        }
    }
}

/// While the body is awaited, bytes that follow can only add to the
/// body: the framing stays where it is or becomes complete.
pub proof fn lemma_body_only_grows(received: Seq<u8>, more: Seq<u8>)
    requires
        state_of(received) == FramerState::AwaitingBody,
    ensures
        state_of(received + more) == FramerState::AwaitingBody || state_of(received + more)
            == FramerState::Complete,
{
    lemma_header_section_is_final(received, more);
}

/// How a stream is cut into chunks does not matter: a framer that is
/// offered the chunks one by one ends in the state, and with the
/// request, of the stream as a whole.
pub proof fn lemma_chunking_is_immaterial(received: Seq<u8>, chunks: Seq<Seq<u8>>)
    ensures
        state_of(receive_all(received, chunks)) == state_of(received + chunks.flatten()),
        frame(receive_all(received, chunks)) == frame(received + chunks.flatten()),
    decreases chunks.len(),
{
    if chunks.len() == 0 {
        assert(received + chunks.flatten() =~= received);
    } else {
        let first = chunks.first();
        let others = chunks.drop_first();
        lemma_chunking_is_immaterial(receive(received, first), others);
        if is_settled(received) {
            lemma_settled_is_final(received, others.flatten());
            lemma_settled_is_final(received, chunks.flatten());
        } else {
            assert((received + first) + others.flatten() =~= received + chunks.flatten());
        }
    }
}

/// A request whose body has exactly the announced length comes out
/// whole, however the stream is cut.
///
/// Here `head` is a header section: the header terminator that follows
/// it is the first in the stream. Its request line has a method and a
/// path, and its header lines announce the length of `body`.
pub proof fn lemma_body_survives_chunking(head: Seq<u8>, body: Seq<u8>, chunks: Seq<Seq<u8>>)
    requires
        first_occurrence(head + header_terminator(), header_terminator()) == Some(
            head.len() as int,
        ),
        request_line_parts(header_section(head).request_line) is Some,
        declared_content_length(header_section(head).headers) == body.len(),
        chunks.flatten() == head + header_terminator() + body,
    ensures
        state_of(receive_all(Seq::<u8>::empty(), chunks)) == FramerState::Complete,
        ({
            let section = header_section(head);
            let parts = request_line_parts(section.request_line).unwrap();
            frame(receive_all(Seq::<u8>::empty(), chunks)) == Ok::<RequestView, FrameError>(
                RequestView { method: parts.0, path: parts.1, headers: section.headers, body },
            )
        }),
{
    let stream = head + header_terminator() + body;
    let empty = Seq::<u8>::empty();
    lemma_chunking_is_immaterial(empty, chunks);
    assert(empty + chunks.flatten() =~= stream);
    lemma_header_section_is_final(head + header_terminator(), body);
    assert(stream.take(head.len() as int) =~= head);
    assert(stream.skip((head.len() + header_terminator().len()) as int) =~= body);
}

/// A stream that ends before the header terminator holds no request,
/// however it is cut.
pub proof fn lemma_unterminated_stream_fails(chunks: Seq<Seq<u8>>)
    requires
        first_occurrence(chunks.flatten(), header_terminator()) is None,
    ensures
        state_of(receive_all(Seq::<u8>::empty(), chunks)) == FramerState::AwaitingHeaders,
        frame(receive_all(Seq::<u8>::empty(), chunks)) == Err::<RequestView, FrameError>(
            FrameError::IncompleteHeader,
        ),
{
    lemma_chunking_is_immaterial(Seq::<u8>::empty(), chunks);
    assert(Seq::<u8>::empty() + chunks.flatten() =~= chunks.flatten());
}

/// The body of a framed request is never longer than its headers
/// announce; and where the framing is complete, it is exactly as long.
pub proof fn lemma_body_has_announced_length(received: Seq<u8>)
    ensures
        frame(received) matches Ok(request) ==> request.wf(),
        state_of(received) == FramerState::Complete ==> (frame(received) matches Ok(request)
            && request.body.len() == declared_content_length(request.headers)),
{
    lemma_first_occurrence_from(received, header_terminator(), 0);
}

} // verus!
