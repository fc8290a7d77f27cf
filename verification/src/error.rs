//! The errors of the library.

use vstd::prelude::*;

verus! {

/// An error. Where an outside parser refused its input, the variant names the parser and
/// holds the parser's own text.
#[derive(Debug)]
pub enum Error {
    /// A message of this library.
    Text(String),
    /// An HTTP response could not be parsed.
    HttpParse(String),
    /// A Digest challenge could not be parsed.
    DigestAuth(String),
    /// A SOCKS5 UDP header could not be read.
    Socks(String),
    /// Bytes that should be text are not UTF-8.
    Utf8,
    /// Text that should be a number is none.
    ParseInt,
}

/// What an [`Error`] says, in mathematical terms.
pub enum ErrorView {
    Text(Seq<char>),
    HttpParse(Seq<char>),
    DigestAuth(Seq<char>),
    Socks(Seq<char>),
    Utf8,
    ParseInt,
}

impl View for Error {
    type V = ErrorView;

    open spec fn view(&self) -> ErrorView {
        match self {
            Error::Text(s) => ErrorView::Text(s@),
            Error::HttpParse(s) => ErrorView::HttpParse(s@),
            Error::DigestAuth(s) => ErrorView::DigestAuth(s@),
            Error::Socks(s) => ErrorView::Socks(s@),
            Error::Utf8 => ErrorView::Utf8,
            Error::ParseInt => ErrorView::ParseInt,
        }
    }
}

impl ErrorView {
    /// The text to show for the error.
    pub open spec fn message(self) -> Seq<char> {
        match self {
            ErrorView::Text(s) => s,
            ErrorView::HttpParse(s) => s,
            ErrorView::DigestAuth(s) => s,
            ErrorView::Socks(s) => s,
            ErrorView::Utf8 => "invalid utf-8 sequence"@,
            ErrorView::ParseInt => "invalid number"@,
        }
    }
}

impl Error {
    /// The error whose message is `s`.
    pub fn text(s: &str) -> (r: Error)
        ensures
            r@ == ErrorView::Text(s@),
    {
        Error::Text(s.to_owned())
    }

    /// The text to show for the error.
    pub fn message(&self) -> (r: String)
        ensures
            r@ == self@.message(),
    {
        match self {
            Error::Text(s) => s.clone(),
            Error::HttpParse(s) => s.clone(),
            Error::DigestAuth(s) => s.clone(),
            Error::Socks(s) => s.clone(),
            Error::Utf8 => "invalid utf-8 sequence".to_owned(),
            Error::ParseInt => "invalid number".to_owned(),
        }
    }
}

/// An error with a text of its own is shown as that text, in whatever variant it stands.
pub proof fn law_message(s: Seq<char>)
    ensures
        ErrorView::Text(s).message() == s,
        ErrorView::HttpParse(s).message() == s,
        ErrorView::DigestAuth(s).message() == s,
        ErrorView::Socks(s).message() == s,
{
}

} // verus!
