//! The errors generation can end with.

use vstd::prelude::*;

verus! {

/// Everything that can go wrong while generating output.
#[derive(Debug)]
pub enum Error {
    /// No configuration was found.
    NoConfiguration,
    /// A reference is missing its closing `$`.
    MalformedSnippetReference,
    /// An end marker appeared with no region open.
    MalformedSnippet,
    /// A fenced rust code block was opened and never closed, or a reference
    /// was left unterminated.
    MalformedCodeBlock,
    /// A second region used an already taken name; the name is carried.
    SnippetAlreadyDefined(Vec<u8>),
    /// A reference resolved to nothing; the reference is carried.
    SnippetNotFound(Vec<u8>),
    /// A region was opened and never closed.
    SnippetEndNotFound,
    /// Reading a local resource failed for a reason other than absence; the
    /// reported reason is carried.
    Io(Vec<u8>),
    /// Deserializing failed; the reported reason is carried.
    Ron(Vec<u8>),
    /// Fetching a remote resource failed for a reason other than absence;
    /// the reported reason is carried.
    Http(Vec<u8>),
    /// Text failed to decode; the reported reason is carried.
    Unicode(Vec<u8>),
    /// Loading a glossary failed; where it came from and what went wrong.
    Glossary {
        /// The location of the glossary.
        location: Vec<u8>,
        /// The reason loading failed.
        error: Vec<u8>,
    },
}

/// The mathematical shape of an [`Error`].
pub ghost enum ErrorView {
    /// No configuration was found.
    NoConfiguration,
    /// A reference is missing its closing `$`.
    MalformedSnippetReference,
    /// An end marker appeared with no region open.
    MalformedSnippet,
    /// A fenced rust code block was opened and never closed, or a reference
    /// was left unterminated.
    MalformedCodeBlock,
    /// A second region used an already taken name.
    SnippetAlreadyDefined(Seq<u8>),
    /// A reference resolved to nothing.
    SnippetNotFound(Seq<u8>),
    /// A region was opened and never closed.
    SnippetEndNotFound,
    /// Reading a local resource failed for a reason other than absence.
    Io(Seq<u8>),
    /// Deserializing failed.
    Ron(Seq<u8>),
    /// Fetching a remote resource failed for a reason other than absence.
    Http(Seq<u8>),
    /// Text failed to decode.
    Unicode(Seq<u8>),
    /// Loading a glossary failed.
    Glossary {
        /// The location of the glossary.
        location: Seq<u8>,
        /// The reason loading failed.
        error: Seq<u8>,
    },
}

impl View for Error {
    type V = ErrorView;

    open spec fn view(&self) -> ErrorView {
        match *self {
            Error::NoConfiguration => ErrorView::NoConfiguration,
            Error::MalformedSnippetReference => ErrorView::MalformedSnippetReference,
            Error::MalformedSnippet => ErrorView::MalformedSnippet,
            Error::MalformedCodeBlock => ErrorView::MalformedCodeBlock,
            Error::SnippetAlreadyDefined(name) => ErrorView::SnippetAlreadyDefined(name@),
            Error::SnippetNotFound(reference) => ErrorView::SnippetNotFound(reference@),
            Error::SnippetEndNotFound => ErrorView::SnippetEndNotFound,
            Error::Io(reason) => ErrorView::Io(reason@),
            Error::Ron(reason) => ErrorView::Ron(reason@),
            Error::Http(reason) => ErrorView::Http(reason@),
            Error::Unicode(reason) => ErrorView::Unicode(reason@),
            Error::Glossary { location, error } => ErrorView::Glossary {
                location: location@,
                error: error@,
            },
        }
    }
}

} // verus!
