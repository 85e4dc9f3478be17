//! Decodes HTTP responses on the client.
use vstd::prelude::*;
use crate::bytes::{push_bytes, push_text, text};
use crate::error::{ClientError, ClientErrorView};
use crate::head::{
    BadValue, BadValueFound, RawHeader, ResponseHeadRaw, ResponseHeadRawView, check_values,
    content_length, content_length_spec, find_first, find_last, first_bad_value, first_named,
    last_named, lemma_first_named_bound, lemma_last_named_bound, raw_headers_view,
};
use crate::server::decode::{HeadProgress, blank_line_at_end, ends_with_blank_line};

verus! {

/// The head ends in two bare line feeds.
pub open spec fn ends_with_bare_blank_line(buf: Seq<u8>) -> bool {
    buf.len() >= 2 && buf[buf.len() - 2] == 10 && buf[buf.len() - 1] == 10
}

/// Where reading a response head stands once `bytes_read` more bytes, ending a line,
/// were added to `buf`. Many servers end lines with a bare LF.
pub open spec fn response_head_progress(buf: Seq<u8>, bytes_read: nat) -> HeadProgress {
    if bytes_read == 0 {
        HeadProgress::Eof
    } else if buf.len() >= crate::MAX_HEAD_LENGTH {
        HeadProgress::TooLong
    } else if ends_with_blank_line(buf) || ends_with_bare_blank_line(buf) {
        HeadProgress::Complete
    } else {
        HeadProgress::More
    }
}

/// Decides, after a line was read into `buf`, whether the response head is complete.
/// The head is refused once it reaches `MAX_HEAD_LENGTH` bytes (CWE-400).
pub fn head_progress(buf: &[u8], bytes_read: usize) -> (r: HeadProgress)
    ensures
        r == response_head_progress(buf@, bytes_read as nat),
{
    if bytes_read == 0 {
        return HeadProgress::Eof;
    }
    if buf.len() >= crate::MAX_HEAD_LENGTH {
        return HeadProgress::TooLong;
    }
    if blank_line_at_end(buf) {
        return HeadProgress::Complete;
    }
    let n = buf.len();
    if n >= 2 && buf[n - 2] == 10u8 && buf[n - 1] == 10u8 {
        return HeadProgress::Complete;
    }
    HeadProgress::More
}

/// Whether `http_types::StatusCode::try_from` accepts `code`: the status codes it knows.
pub open spec fn is_known_status(code: u16) -> bool {
    ||| code == 100 || code == 101 || code == 103 || code == 200 || code == 201 || code == 202
    ||| code == 203 || code == 204 || code == 205 || code == 206 || code == 207 || code == 226
    ||| code == 300 || code == 301 || code == 302 || code == 303 || code == 304 || code == 307
    ||| code == 308 || code == 400 || code == 401 || code == 402 || code == 403 || code == 404
    ||| code == 405 || code == 406 || code == 407 || code == 408 || code == 409 || code == 410
    ||| code == 411 || code == 412 || code == 413 || code == 414 || code == 415 || code == 416
    ||| code == 417 || code == 418 || code == 421 || code == 422 || code == 423 || code == 424
    ||| code == 425 || code == 426 || code == 428 || code == 429 || code == 431 || code == 451
    ||| code == 500 || code == 501 || code == 502 || code == 503 || code == 504 || code == 505
    ||| code == 506 || code == 507 || code == 508 || code == 510 || code == 511
}

/// Calls `http_types::StatusCode::try_from` on `code` and says whether it accepted it,
/// which it does for exactly the codes `is_known_status` lists.
#[verifier::external_body]
fn known_status(code: u16) -> (r: bool)
    ensures
        r == is_known_status(code),
{
    <http_types::StatusCode as std::convert::TryFrom<u16>>::try_from(code).is_ok()
}

/// How the body of a response is framed.
#[derive(Debug, Clone, Copy, PartialEq, Eq, Structural)]
pub enum ResponseBody {
    /// The last `Transfer-Encoding` value is `chunked`.
    Chunked,
    /// `Content-Length` bytes.
    Fixed(u64),
    /// No body was framed.
    Empty,
}

/// A decoded response head: the status, the headers, the `Date` value to add when the
/// response has none, and how the body is framed.
#[derive(Debug)]
pub struct DecodedResponse {
    pub status: u16,
    pub headers: Vec<RawHeader>,
    pub date: Option<Vec<u8>>,
    pub body: ResponseBody,
}

/// The view of [`DecodedResponse`].
pub struct DecodedResponseView {
    pub status: u16,
    pub headers: Seq<(Seq<u8>, Seq<u8>)>,
    pub date: Option<Seq<u8>>,
    pub body: ResponseBody,
}

impl View for DecodedResponse {
    type V = DecodedResponseView;

    open spec fn view(&self) -> DecodedResponseView {
        DecodedResponseView {
            status: self.status,
            headers: raw_headers_view(self.headers@),
            date: match self.date {
                Some(d) => Some(d@),
                None => None,
            },
            body: self.body,
        }
    }
}

/// The `Date` value added to a response that has none: the HTTP date it was received on,
/// written as a whole header line, `date: ` before it and CRLF after it.
pub open spec fn date_value(date: Seq<u8>) -> Seq<u8> {
    text("date: ") + date + seq![13u8, 10u8]
}

/// How a response body is framed.
pub open spec fn response_body_spec(hs: Seq<(Seq<u8>, Seq<u8>)>, cl: Option<u64>) -> ResponseBody {
    match last_named(hs, text("transfer-encoding")) {
        Some(i) if hs[i as int].1 == text("chunked") => ResponseBody::Chunked,
        _ => match cl {
            Some(n) => ResponseBody::Fixed(n),
            None => ResponseBody::Empty,
        },
    }
}

/// The decoding of a response head received on `date`, checked in the order the client
/// checks it.
pub open spec fn decode_response_spec(h: ResponseHeadRawView, date: Seq<u8>) -> Result<
    DecodedResponseView,
    ClientErrorView,
> {
    if !h.complete {
        Err(ClientErrorView::PartialHead)
    } else {
        match h.code {
            None => Err(ClientErrorView::MissingStatusCode),
            Some(code) => match h.version {
                None => Err(ClientErrorView::MissingVersion),
                Some(v) => if v != 1 {
                    Err(ClientErrorView::UnsupportedVersion(v))
                } else if !is_known_status(code) {
                    Err(ClientErrorView::UnrecognizedStatusCode(code))
                } else {
                    match first_bad_value(h.headers) {
                        Some(BadValue::NotUtf8(b)) => Err(ClientErrorView::InvalidUtf8(b)),
                        Some(BadValue::NotAscii) => Err(ClientErrorView::NonAsciiHeaderValue),
                        None => match content_length_spec(h.headers) {
                            Err(_) => Err(ClientErrorView::MalformedHeader("content-length"@)),
                            Ok(cl) => if cl is Some && first_named(
                                h.headers,
                                text("transfer-encoding"),
                            ) is Some {
                                Err(ClientErrorView::UnexpectedHeader("content-length"@))
                            } else {
                                Ok(
                                    DecodedResponseView {
                                        status: code,
                                        headers: h.headers,
                                        date: if first_named(h.headers, text("date")) is None {
                                            Some(date_value(date))
                                        } else {
                                            None
                                        },
                                        body: response_body_spec(h.headers, cl),
                                    },
                                )
                            },
                        },
                    }
                },
            },
        }
    }
}

pub open spec fn response_view(r: Result<DecodedResponse, ClientError>) -> Result<DecodedResponseView, ClientErrorView> {
    match r {
        Ok(d) => Ok(d@),
        Err(e) => Err(e@),
    }
}

/// Decodes a parsed response head received on `date`: it must be complete, with a
/// status code and version 1.1, the code one `http_types` knows, header values ASCII
/// text, a valid content length, and not both `Content-Length` and `Transfer-Encoding`.
/// A `Date` header is added when there is none.
pub fn decode_head(head: ResponseHeadRaw, date: &[u8]) -> (r: Result<DecodedResponse, ClientError>)
    ensures
        response_view(r) == decode_response_spec(head@, date@),
{
    if !head.complete {
        return Err(ClientError::PartialHead);
    }
    let code = match head.code {
        Some(c) => c,
        None => return Err(ClientError::MissingStatusCode),
    };
    let version = match head.version {
        Some(v) => v,
        None => return Err(ClientError::MissingVersion),
    };
    if version != 1 {
        return Err(ClientError::UnsupportedVersion(version));
    }
    if !known_status(code) {
        return Err(ClientError::UnrecognizedStatusCode(code));
    }
    match check_values(&head.headers) {
        Some(BadValueFound::NotUtf8(b)) => return Err(ClientError::InvalidUtf8(b)),
        Some(BadValueFound::NotAscii) => return Err(ClientError::NonAsciiHeaderValue),
        None => {},
    }
    // Bounds the number of headers by `usize::MAX`.
    let _header_count = head.headers.len();
    let date_name = "date".as_bytes();
    assert(date_name@ == text("date"));
    let added_date = if find_first(&head.headers, date_name).is_none() {
        let mut v: Vec<u8> = Vec::new();
        push_text(&mut v, "date: ");
        push_bytes(&mut v, date);
        v.push(13u8);
        v.push(10u8);
        assert(v@ =~= date_value(date@));
        Some(v)
    } else {
        None
    };
    let cl = match content_length(&head.headers) {
        Ok(cl) => cl,
        Err(_) => return Err(ClientError::MalformedHeader("content-length")),
    };
    let te_name = "transfer-encoding".as_bytes();
    let te = find_first(&head.headers, te_name);
    if cl.is_some() && te.is_some() {
        return Err(ClientError::UnexpectedHeader("content-length"));
    }
    let last_te = find_last(&head.headers, te_name);
    proof { lemma_last_named_bound(head@.headers, te_name@); }
    let chunked = match last_te {
        Some(i) => crate::bytes::bytes_eq(head.headers[i].value.as_slice(), "chunked".as_bytes()),
        None => false,
    };
    assert(last_te matches Some(i) ==> last_named(head@.headers, text("transfer-encoding")) == Some(i as nat));
    let body = if chunked {
        ResponseBody::Chunked
    } else {
        match cl {
            Some(n) => ResponseBody::Fixed(n),
            None => ResponseBody::Empty,
        }
    };
    let ResponseHeadRaw { headers, .. } = head;
    Ok(DecodedResponse { status: code, headers, date: added_date, body })
}

/// Parses and decodes a complete response head read into `buf` on `date`.
pub fn decode_response_head(buf: &[u8], date: &[u8]) -> (r: Result<DecodedResponse, ClientError>)
    ensures
        match crate::head::response_head_of(buf@) {
            Ok(h) => response_view(r) == decode_response_spec(h, date@),
            Err(e) => response_view(r) == Err::<DecodedResponseView, ClientErrorView>(ClientErrorView::Head(e)),
        },
{
    match crate::head::parse_response_head(buf) {
        Ok(head) => decode_head(head, date),
        Err(e) => Err(ClientError::Head(e)),
    }
}

} // verus!
