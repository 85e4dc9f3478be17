//! Errors when handling incoming requests.
use vstd::prelude::*;

verus! {

/// Errors when handling incoming requests.
#[derive(Debug, PartialEq, Eq, Structural)]
pub enum HttpError {
    UnexpectedContentLengthHeader,
}

/// The text that describes an error.
pub open spec fn http_error_text(e: HttpError) -> Seq<char> {
    match e {
        HttpError::UnexpectedContentLengthHeader => "unexpected content-length header"@,
    }
}

impl HttpError {
    /// A short description of the error, as its `Display` shows it.
    pub fn description(&self) -> (text: &'static str)
        ensures
            text@ == http_error_text(*self),
    {
        match self {
            HttpError::UnexpectedContentLengthHeader => "unexpected content-length header",
        }
    }
}

/// Errors when decoding a response on the client.
#[derive(Debug)]
pub enum ClientError {
    /// The head is not shorter than `MAX_HEAD_LENGTH` (CWE-400).
    HeadersTooLong,
    /// The head ended before it was complete.
    PartialHead,
    MissingStatusCode,
    MissingVersion,
    /// Only HTTP/1.1 is understood; the minor version given.
    UnsupportedVersion(u8),
    /// A status code `http_types` does not know.
    UnrecognizedStatusCode(u16),
    /// A header whose value is not valid.
    MalformedHeader(&'static str),
    /// A header that may not be there.
    UnexpectedHeader(&'static str),
    /// `httparse` refused the head.
    Head(crate::head::HeadError),
    /// These bytes are not UTF-8.
    InvalidUtf8(Vec<u8>),
    /// A header value holds characters that are not ASCII.
    NonAsciiHeaderValue,
}

/// The view of [`ClientError`].
pub enum ClientErrorView {
    HeadersTooLong,
    PartialHead,
    MissingStatusCode,
    MissingVersion,
    UnsupportedVersion(u8),
    UnrecognizedStatusCode(u16),
    MalformedHeader(Seq<char>),
    UnexpectedHeader(Seq<char>),
    Head(crate::head::HeadError),
    InvalidUtf8(Seq<u8>),
    NonAsciiHeaderValue,
}

impl View for ClientError {
    type V = ClientErrorView;

    open spec fn view(&self) -> ClientErrorView {
        match self {
            ClientError::HeadersTooLong => ClientErrorView::HeadersTooLong,
            ClientError::PartialHead => ClientErrorView::PartialHead,
            ClientError::MissingStatusCode => ClientErrorView::MissingStatusCode,
            ClientError::MissingVersion => ClientErrorView::MissingVersion,
            ClientError::UnsupportedVersion(v) => ClientErrorView::UnsupportedVersion(*v),
            ClientError::UnrecognizedStatusCode(c) => ClientErrorView::UnrecognizedStatusCode(*c),
            ClientError::MalformedHeader(h) => ClientErrorView::MalformedHeader(h@),
            ClientError::UnexpectedHeader(h) => ClientErrorView::UnexpectedHeader(h@),
            ClientError::Head(e) => ClientErrorView::Head(*e),
            ClientError::InvalidUtf8(b) => ClientErrorView::InvalidUtf8(b@),
            ClientError::NonAsciiHeaderValue => ClientErrorView::NonAsciiHeaderValue,
        }
    }
}

} // verus!
