//! The parts of the language server protocol that the library computes with.
use crate::requests::RequestId;
use vstd::prelude::*;

verus! {

/// A place in a document: a line, and a column counted in UTF-16 code units.
#[derive(Clone, Copy, Debug, PartialEq, Eq, Structural)]
pub struct Position {
    pub line: u32,
    pub character: u32,
}

impl Position {
    pub fn new(line: u32, character: u32) -> (position: Position)
        ensures
            position.line == line,
            position.character == character,
    {
        Position { line, character }
    }
}

/// A stretch of a document, from `start` up to but not including `end`.
#[derive(Clone, Copy, Debug, PartialEq, Eq, Structural)]
pub struct Range {
    pub start: Position,
    pub end: Position,
}

/// A place in a file.
#[derive(Clone, Debug)]
pub struct Location {
    pub uri: String,
    pub range: Range,
}

/// A link from a place in one file to a place in another.
#[derive(Clone, Debug)]
pub struct LocationLink {
    pub origin_selection_range: Option<Range>,
    pub target_uri: String,
    pub target_range: Range,
    pub target_selection_range: Range,
}

/// A replacement of the text in a range.
pub struct TextDocumentContentChangePartial {
    pub range: Range,
    pub text: String,
}

/// A replacement of the whole document.
pub struct TextDocumentContentChangeWholeDocument {
    pub text: String,
}

/// One edit of a document, as the client reports it.
pub enum TextDocumentContentChangeEvent {
    TextDocumentContentChangePartial(TextDocumentContentChangePartial),
    TextDocumentContentChangeWholeDocument(TextDocumentContentChangeWholeDocument),
}

/// Why a request failed. `P` is what messages carry beside their envelope.
#[derive(Clone, Debug)]
pub struct ResponseError<P> {
    pub code: i32,
    pub message: String,
    pub data: Option<P>,
}

/// The error code for a request that must not be made at this time.
pub const INVALID_REQUEST: i32 = -32600;

/// An answer to a request.
#[derive(Clone, Debug)]
pub struct Response<P> {
    pub id: RequestId,
    pub result: Option<P>,
    pub error: Option<ResponseError<P>>,
}

/// A request of the client.
#[derive(Clone, Debug)]
pub struct Request<P> {
    pub id: RequestId,
    pub method: String,
    pub params: P,
}

/// A notification of the client.
#[derive(Clone, Debug)]
pub struct Notification<P> {
    pub method: String,
    pub params: P,
}

/// A message of the client.
#[derive(Clone, Debug)]
pub enum Message<P> {
    Request(Request<P>),
    Response(Response<P>),
    Notification(Notification<P>),
}

} // verus!
