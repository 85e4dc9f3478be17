//! Decodes HTTP requests on the server.
use vstd::prelude::*;
use crate::bytes::{
    all_ascii, bytes_eq, eq_ignore_ascii_case, eq_ignore_case, has_prefix, is_ascii_bytes, is_utf8,
    parse_u64, parse_u64_spec, push_bytes, push_text, starts_with, text, trim_bounds, trimmed,
    IntError,
};
use crate::head::{
    BadValue, BadValueFound, RawHeader, RequestHead, RequestHeadView, check_values,
    content_length, content_length_spec, find_first, find_last, first_bad_value, first_named,
    last_named, lemma_first_named_bound, lemma_last_named_bound, raw_headers_view,
};
use vstd::slice::slice_subrange;
use vstd::string::StringSliceAdditionalSpecFns;
use vstd::utf8::valid_utf8;

verus! {

/// The number returned from httparse when the request is HTTP 1.1.
pub const HTTP_1_1_VERSION: u8 = 1;

/// The number returned from httparse when the request is HTTP 1.0.
pub const HTTP_1_0_VERSION: u8 = 0;

/// How far reading a message head has come after one more line was read.
#[derive(Debug, Clone, Copy, PartialEq, Eq, Structural)]
pub enum HeadProgress {
    /// The stream ended before the line.
    Eof,
    /// The head grew too long.
    TooLong,
    /// The blank line that ends the head was read.
    Complete,
    /// More lines are to be read.
    More,
}

/// The head ends in CRLF CRLF.
pub open spec fn ends_with_blank_line(buf: Seq<u8>) -> bool {
    buf.len() >= 4 && buf.subrange(buf.len() - 4, buf.len() as int) == seq![13u8, 10u8, 13u8, 10u8]
}

/// Where reading a request head stands once `bytes_read` more bytes, ending a line, were
/// added to `buf`.
pub open spec fn request_head_progress(buf: Seq<u8>, bytes_read: nat) -> HeadProgress {
    if bytes_read == 0 {
        HeadProgress::Eof
    } else if buf.len() >= crate::MAX_HEAD_LENGTH {
        HeadProgress::TooLong
    } else if ends_with_blank_line(buf) {
        HeadProgress::Complete
    } else {
        HeadProgress::More
    }
}

/// Whether the last four bytes of `buf` are CRLF CRLF.
pub fn blank_line_at_end(buf: &[u8]) -> (r: bool)
    ensures
        r == ends_with_blank_line(buf@),
{
    let n = buf.len();
    if n < 4 {
        return false;
    }
    let r = buf[n - 4] == 13u8 && buf[n - 3] == 10u8 && buf[n - 2] == 13u8 && buf[n - 1] == 10u8;
    assert(r == (buf@.subrange(n - 4, n as int) =~= seq![13u8, 10u8, 13u8, 10u8]));
    r
}

/// Decides, after a line was read into `buf`, whether the request head is complete.
/// The head is refused once it reaches `MAX_HEAD_LENGTH` bytes (CWE-400).
pub fn head_progress(buf: &[u8], bytes_read: usize) -> (r: HeadProgress)
    ensures
        r == request_head_progress(buf@, bytes_read as nat),
{
    if bytes_read == 0 {
        HeadProgress::Eof
    } else if buf.len() >= crate::MAX_HEAD_LENGTH {
        HeadProgress::TooLong
    } else if blank_line_at_end(buf) {
        HeadProgress::Complete
    } else {
        HeadProgress::More
    }
}

/// Why a request could not be decoded.
#[derive(Debug, PartialEq, Eq)]
pub enum ServerDecodeError {
    /// The head is not shorter than `MAX_HEAD_LENGTH`.
    HeadTooLong,
    /// `httparse` refused the head.
    Head(crate::head::HeadError),
    /// The head ended before it was complete.
    MalformedHead,
    NoMethod,
    NoVersion,
    /// Only HTTP/1.1, and HTTP/1.0 where a default host is set, are served; the minor
    /// version given.
    UnsupportedVersion(u8),
    NoUri,
    /// No `Host` header.
    NoHost,
    /// These bytes are not UTF-8.
    InvalidUtf8(Vec<u8>),
    /// The URL could not be parsed, for this reason.
    InvalidUrl(Vec<u8>),
    /// The target is neither absolute, nor a path, nor an authority for CONNECT.
    UnexpectedUriFormat,
    /// The method is not one `http_types` knows.
    InvalidMethod,
    /// A header value holds characters that are not ASCII.
    NonAsciiHeaderValue,
    /// The `Content-Length` value is not a number.
    InvalidContentLength(IntError),
    /// Both `Content-Length` and `Transfer-Encoding` are set (status 400).
    UnexpectedContentLength,
}

/// The view of [`ServerDecodeError`].
pub enum ServerDecodeFault {
    HeadTooLong,
    Head(crate::head::HeadError),
    MalformedHead,
    NoMethod,
    NoVersion,
    UnsupportedVersion(u8),
    NoUri,
    NoHost,
    InvalidUtf8(Seq<u8>),
    InvalidUrl(Seq<u8>),
    UnexpectedUriFormat,
    InvalidMethod,
    NonAsciiHeaderValue,
    InvalidContentLength(IntError),
    UnexpectedContentLength,
}

impl View for ServerDecodeError {
    type V = ServerDecodeFault;

    open spec fn view(&self) -> ServerDecodeFault {
        match self {
            ServerDecodeError::HeadTooLong => ServerDecodeFault::HeadTooLong,
            ServerDecodeError::Head(e) => ServerDecodeFault::Head(*e),
            ServerDecodeError::MalformedHead => ServerDecodeFault::MalformedHead,
            ServerDecodeError::NoMethod => ServerDecodeFault::NoMethod,
            ServerDecodeError::NoVersion => ServerDecodeFault::NoVersion,
            ServerDecodeError::UnsupportedVersion(v) => ServerDecodeFault::UnsupportedVersion(*v),
            ServerDecodeError::NoUri => ServerDecodeFault::NoUri,
            ServerDecodeError::NoHost => ServerDecodeFault::NoHost,
            ServerDecodeError::InvalidUtf8(b) => ServerDecodeFault::InvalidUtf8(b@),
            ServerDecodeError::InvalidUrl(m) => ServerDecodeFault::InvalidUrl(m@),
            ServerDecodeError::UnexpectedUriFormat => ServerDecodeFault::UnexpectedUriFormat,
            ServerDecodeError::InvalidMethod => ServerDecodeFault::InvalidMethod,
            ServerDecodeError::NonAsciiHeaderValue => ServerDecodeFault::NonAsciiHeaderValue,
            ServerDecodeError::InvalidContentLength(k) => ServerDecodeFault::InvalidContentLength(
                *k,
            ),
            ServerDecodeError::UnexpectedContentLength => ServerDecodeFault::UnexpectedContentLength,
        }
    }
}

/// What `url::Url::parse` makes of `input`: the URL's serialization, or the text of the
/// reason it was refused.
pub uninterp spec fn url_parse(input: Seq<u8>) -> Result<Seq<u8>, Seq<u8>>;

pub open spec fn bytes_result_view(r: Result<Vec<u8>, Vec<u8>>) -> Result<Seq<u8>, Seq<u8>> {
    match r {
        Ok(v) => Ok(v@),
        Err(v) => Err(v@),
    }
}

/// Calls `url::Url::parse` on the UTF-8 text `input`; its result is named by `url_parse`.
#[verifier::external_body]
fn parse_url(input: &[u8]) -> (r: Result<Vec<u8>, Vec<u8>>)
    requires
        valid_utf8(input@),
    ensures
        bytes_result_view(r) == url_parse(input@),
{
    match url::Url::parse(std::str::from_utf8(input).unwrap_or_default()) {
        Ok(url) => Ok(url.as_str().as_bytes().to_vec()),
        Err(e) => Err(e.to_string().into_bytes()),
    }
}

/// Whether `http_types::Method::from_str` accepts `m`: the method names it knows, in any
/// ASCII case.
pub open spec fn is_known_method(m: Seq<u8>) -> bool {
    ||| eq_ignore_case(m, text("ACL"))
    ||| eq_ignore_case(m, text("BASELINE-CONTROL"))
    ||| eq_ignore_case(m, text("BIND"))
    ||| eq_ignore_case(m, text("CHECKIN"))
    ||| eq_ignore_case(m, text("CHECKOUT"))
    ||| eq_ignore_case(m, text("CONNECT"))
    ||| eq_ignore_case(m, text("COPY"))
    ||| eq_ignore_case(m, text("DELETE"))
    ||| eq_ignore_case(m, text("GET"))
    ||| eq_ignore_case(m, text("HEAD"))
    ||| eq_ignore_case(m, text("LABEL"))
    ||| eq_ignore_case(m, text("LINK"))
    ||| eq_ignore_case(m, text("LOCK"))
    ||| eq_ignore_case(m, text("MERGE"))
    ||| eq_ignore_case(m, text("MKACTIVITY"))
    ||| eq_ignore_case(m, text("MKCALENDAR"))
    ||| eq_ignore_case(m, text("MKCOL"))
    ||| eq_ignore_case(m, text("MKREDIRECTREF"))
    ||| eq_ignore_case(m, text("MKWORKSPACE"))
    ||| eq_ignore_case(m, text("MOVE"))
    ||| eq_ignore_case(m, text("OPTIONS"))
    ||| eq_ignore_case(m, text("ORDERPATCH"))
    ||| eq_ignore_case(m, text("PATCH"))
    ||| eq_ignore_case(m, text("POST"))
    ||| eq_ignore_case(m, text("PRI"))
    ||| eq_ignore_case(m, text("PROPFIND"))
    ||| eq_ignore_case(m, text("PROPPATCH"))
    ||| eq_ignore_case(m, text("PUT"))
    ||| eq_ignore_case(m, text("REBIND"))
    ||| eq_ignore_case(m, text("REPORT"))
    ||| eq_ignore_case(m, text("SEARCH"))
    ||| eq_ignore_case(m, text("TRACE"))
    ||| eq_ignore_case(m, text("UNBIND"))
    ||| eq_ignore_case(m, text("UNCHECKOUT"))
    ||| eq_ignore_case(m, text("UNLINK"))
    ||| eq_ignore_case(m, text("UNLOCK"))
    ||| eq_ignore_case(m, text("UPDATE"))
    ||| eq_ignore_case(m, text("UPDATEREDIRECTREF"))
    ||| eq_ignore_case(m, text("VERSION-CONTROL"))
}

/// Calls `http_types::Method::from_str` on the UTF-8 text `m` and says whether it accepted
/// it, which it does for exactly the names `is_known_method` lists, in any ASCII case.
#[verifier::external_body]
fn known_method(m: &[u8]) -> (r: bool)
    requires
        valid_utf8(m@),
    ensures
        r == is_known_method(m@),
{
    std::str::from_utf8(m).unwrap_or_default().parse::<http_types::Method>().is_ok()
}

/// A URL as the parse left it, or why it failed.
pub open spec fn url_outcome(r: Result<Seq<u8>, Seq<u8>>) -> Result<Seq<u8>, ServerDecodeFault> {
    match r {
        Ok(u) => Ok(u),
        Err(m) => Err(ServerDecodeFault::InvalidUrl(m)),
    }
}

/// The URL of a request: an absolute target is the URL; a path is joined to the host,
/// which the first `Host` header names, else `fallback`; the target of CONNECT is an
/// authority.
pub open spec fn url_spec(h: RequestHeadView, fallback: Option<Seq<u8>>) -> Result<Seq<u8>, ServerDecodeFault> {
    match h.path {
        None => Err(ServerDecodeFault::NoUri),
        Some(path) => {
            let named = match first_named(h.headers, text("host")) {
                Some(i) => Some(h.headers[i as int].1),
                None => fallback,
            };
            match named {
                None => Err(ServerDecodeFault::NoHost),
                Some(host) => if !valid_utf8(host) {
                    Err(ServerDecodeFault::InvalidUtf8(host))
                } else if starts_with(path, text("http://")) || starts_with(path, text("https://")) {
                    url_outcome(url_parse(path))
                } else if starts_with(path, text("/")) {
                    url_outcome(url_parse(text("http://") + host + path))
                } else if eq_ignore_case(h.method.unwrap(), text("connect")) {
                    url_outcome(url_parse(text("http://") + path + text("/")))
                } else {
                    Err(ServerDecodeFault::UnexpectedUriFormat)
                },
            }
        },
    }
}

/// The bytes of an optional byte slice.
pub open spec fn opt_slice_view(o: Option<&[u8]>) -> Option<Seq<u8>> {
    match o {
        Some(b) => Some(b@),
        None => None,
    }
}

pub open spec fn url_result_view(r: Result<Vec<u8>, ServerDecodeError>) -> Result<Seq<u8>, ServerDecodeFault> {
    match r {
        Ok(u) => Ok(u@),
        Err(e) => Err(e@),
    }
}

/// Turns what the URL parse gave into the request's URL or the error it is refused with.
pub fn url_from_parse(r: Result<Vec<u8>, Vec<u8>>) -> (out: Result<Vec<u8>, ServerDecodeError>)
    ensures
        url_result_view(out) == url_outcome(bytes_result_view(r)),
{
    match r {
        Ok(u) => Ok(u),
        Err(m) => Err(ServerDecodeError::InvalidUrl(m)),
    }
}

/// The URL of the request whose head is `req`; `fallback` is the host when no `Host`
/// header names one.
pub fn url_from_httparse_req(req: &RequestHead, fallback: Option<&[u8]>) -> (r: Result<Vec<u8>, ServerDecodeError>)
    requires
        req@.path is Some ==> req@.method is Some,
        req@.path matches Some(p) ==> valid_utf8(p),
    ensures
        url_result_view(r) == url_spec(req@, opt_slice_view(fallback)),
{
    let path = match &req.path {
        Some(p) => p,
        None => return Err(ServerDecodeError::NoUri),
    };
    let host_name = "host".as_bytes();
    assert(host_name@ == text("host"));
    proof { lemma_first_named_bound(req@.headers, text("host")); }
    // Bounds the number of headers by `usize::MAX`.
    let _header_count = req.headers.len();
    let host: &[u8] = match find_first(&req.headers, host_name) {
        Some(i) => {
            assert(first_named(req@.headers, text("host")) == Some(i as nat));
            req.headers[i].value.as_slice()
        },
        None => match fallback {
            Some(d) => d,
            None => return Err(ServerDecodeError::NoHost),
        },
    };
    assert(Some(host@) == match first_named(req@.headers, text("host")) {
        Some(i) => Some(req@.headers[i as int].1),
        None => opt_slice_view(fallback),
    });
    if !is_utf8(host) {
        return Err(ServerDecodeError::InvalidUtf8(crate::bytes::copy_bytes(host)));
    }
    assert(req@.path == Some(path@));
    let absolute = has_prefix(path.as_slice(), "http://".as_bytes()) || has_prefix(
        path.as_slice(),
        "https://".as_bytes(),
    );
    if absolute {
        let parsed = parse_url(path.as_slice());
        assert(bytes_result_view(parsed) == url_parse(path@));
        url_from_parse(parsed)
    } else if has_prefix(path.as_slice(), "/".as_bytes()) {
        let mut input: Vec<u8> = Vec::new();
        push_text(&mut input, "http://");
        push_bytes(&mut input, host);
        push_bytes(&mut input, path.as_slice());
        proof {
            vstd::utf8::encode_utf8_valid_utf8("http://"@);
            vstd::utf8::valid_utf8_concat(text("http://"), host@);
            vstd::utf8::valid_utf8_concat(text("http://") + host@, path@);
        }
        url_from_parse(parse_url(input.as_slice()))
    } else {
        let method = match &req.method {
            Some(m) => m,
            None => return Err(ServerDecodeError::UnexpectedUriFormat),
        };
        if eq_ignore_ascii_case(method.as_slice(), "connect".as_bytes()) {
            let mut input: Vec<u8> = Vec::new();
            push_text(&mut input, "http://");
            push_bytes(&mut input, path.as_slice());
            push_text(&mut input, "/");
            proof {
                vstd::utf8::encode_utf8_valid_utf8("http://"@);
                vstd::utf8::encode_utf8_valid_utf8("/"@);
                vstd::utf8::valid_utf8_concat(text("http://"), path@);
                vstd::utf8::valid_utf8_concat(text("http://") + path@, text("/"));
            }
            url_from_parse(parse_url(input.as_slice()))
        } else {
            Err(ServerDecodeError::UnexpectedUriFormat)
        }
    }
}

/// How the body of a request is framed.
#[derive(Debug, Clone, Copy, PartialEq, Eq, Structural)]
pub enum RequestBody {
    /// `Transfer-Encoding: chunked`.
    Chunked,
    /// `Content-Length` bytes.
    Fixed(u64),
    /// No body.
    Empty,
}

/// A decoded request head: method, URL, headers, how the body is framed, and whether the
/// client waits for `100 Continue` before sending it.
#[derive(Debug)]
pub struct DecodedRequest {
    /// The minor version of HTTP/1.
    pub version: u8,
    pub method: Vec<u8>,
    pub url: Vec<u8>,
    pub headers: Vec<RawHeader>,
    pub body: RequestBody,
    pub expect_continue: bool,
}

/// The view of [`DecodedRequest`].
pub struct DecodedView {
    pub version: u8,
    pub method: Seq<u8>,
    pub url: Seq<u8>,
    pub headers: Seq<(Seq<u8>, Seq<u8>)>,
    pub body: RequestBody,
    pub expect_continue: bool,
}

impl View for DecodedRequest {
    type V = DecodedView;

    open spec fn view(&self) -> DecodedView {
        DecodedView {
            version: self.version,
            method: self.method@,
            url: self.url@,
            headers: raw_headers_view(self.headers@),
            body: self.body,
            expect_continue: self.expect_continue,
        }
    }
}

/// Whether the first `Expect` header asks for `100 Continue`.
pub open spec fn expects_continue(hs: Seq<(Seq<u8>, Seq<u8>)>) -> bool {
    match first_named(hs, text("expect")) {
        Some(i) => hs[i as int].1 == text("100-continue"),
        None => false,
    }
}

/// How the body is framed: chunked when the first `Transfer-Encoding` header says so,
/// else by the content length, else there is none.
pub open spec fn body_spec(hs: Seq<(Seq<u8>, Seq<u8>)>, cl: Option<u64>) -> RequestBody {
    let te = first_named(hs, text("transfer-encoding"));
    if te matches Some(i) && eq_ignore_case(hs[i as int].1, text("chunked")) {
        RequestBody::Chunked
    } else {
        match cl {
            Some(n) => RequestBody::Fixed(n),
            None => RequestBody::Empty,
        }
    }
}

/// Whether requests of minor version `v` are served: HTTP/1.1 always, HTTP/1.0 where a
/// default host is set.
pub open spec fn served_version(v: u8, default_host: Option<Seq<u8>>) -> bool {
    v == HTTP_1_1_VERSION || (v == HTTP_1_0_VERSION && default_host is Some)
}

/// The host that a request of minor version `v` falls back on without a `Host` header.
pub open spec fn fallback_host(v: u8, default_host: Option<Seq<u8>>) -> Option<Seq<u8>> {
    if v == HTTP_1_0_VERSION {
        default_host
    } else {
        None
    }
}

/// The decoding of a request head, checked in the order the server checks it.
pub open spec fn decode_spec(h: RequestHeadView, default_host: Option<Seq<u8>>) -> Result<DecodedView, ServerDecodeFault> {
    if !h.complete {
        Err(ServerDecodeFault::MalformedHead)
    } else {
        match h.method {
            None => Err(ServerDecodeFault::NoMethod),
            Some(m) => match h.version {
                None => Err(ServerDecodeFault::NoVersion),
                Some(v) => if !served_version(v, default_host) {
                    Err(ServerDecodeFault::UnsupportedVersion(v))
                } else {
                    match url_spec(h, fallback_host(v, default_host)) {
                        Err(e) => Err(e),
                        Ok(url) => if !is_known_method(m) {
                            Err(ServerDecodeFault::InvalidMethod)
                        } else {
                            match first_bad_value(h.headers) {
                                Some(BadValue::NotUtf8(b)) => Err(ServerDecodeFault::InvalidUtf8(b)),
                                Some(BadValue::NotAscii) => Err(ServerDecodeFault::NonAsciiHeaderValue),
                                None => match content_length_spec(h.headers) {
                                    Err(k) => Err(ServerDecodeFault::InvalidContentLength(k)),
                                    Ok(cl) => if cl is Some && first_named(
                                        h.headers,
                                        text("transfer-encoding"),
                                    ) is Some {
                                        Err(ServerDecodeFault::UnexpectedContentLength)
                                    } else {
                                        Ok(
                                            DecodedView {
                                                version: v,
                                                method: m,
                                                url,
                                                headers: h.headers,
                                                body: body_spec(h.headers, cl),
                                                expect_continue: expects_continue(h.headers),
                                            },
                                        )
                                    },
                                },
                            }
                        },
                    }
                },
            },
        }
    }
}

pub open spec fn decoded_view(r: Result<DecodedRequest, ServerDecodeError>) -> Result<DecodedView, ServerDecodeFault> {
    match r {
        Ok(d) => Ok(d@),
        Err(e) => Err(e@),
    }
}

/// Decodes a parsed request head, checking it in order: complete, with a method, with
/// version 1.1 (or 1.0 where `default_host` is set), with a URL, with a known method, with header values that are ASCII text,
/// with a valid content length; a request with both `Content-Length` and
/// `Transfer-Encoding` is refused, against request smuggling (RFC 7230, 3.3.3).
pub fn decode_head(head: RequestHead, default_host: Option<&[u8]>) -> (r: Result<DecodedRequest, ServerDecodeError>)
    requires
        head@.path matches Some(p) ==> head@.method is Some && valid_utf8(p),
        head@.method matches Some(m) ==> valid_utf8(m),
    ensures
        decoded_view(r) == decode_spec(head@, opt_slice_view(default_host)),
{
    if !head.complete {
        return Err(ServerDecodeError::MalformedHead);
    }
    let method = match &head.method {
        Some(m) => m,
        None => return Err(ServerDecodeError::NoMethod),
    };
    let version = match head.version {
        Some(v) => v,
        None => return Err(ServerDecodeError::NoVersion),
    };
    let fallback = if version == HTTP_1_1_VERSION {
        None
    } else if version == HTTP_1_0_VERSION && default_host.is_some() {
        default_host
    } else {
        return Err(ServerDecodeError::UnsupportedVersion(version));
    };
    let url = match url_from_httparse_req(&head, fallback) {
        Ok(u) => u,
        Err(e) => return Err(e),
    };
    if !known_method(method.as_slice()) {
        return Err(ServerDecodeError::InvalidMethod);
    }
    match check_values(&head.headers) {
        Some(BadValueFound::NotUtf8(b)) => return Err(ServerDecodeError::InvalidUtf8(b)),
        Some(BadValueFound::NotAscii) => return Err(ServerDecodeError::NonAsciiHeaderValue),
        None => {},
    }
    let cl = match content_length(&head.headers) {
        Ok(cl) => cl,
        Err(k) => return Err(ServerDecodeError::InvalidContentLength(k)),
    };
    // Bounds the number of headers by `usize::MAX`.
    let _header_count = head.headers.len();
    let te_name = "transfer-encoding".as_bytes();
    let te = find_first(&head.headers, te_name);
    proof { lemma_first_named_bound(head@.headers, te_name@); }
    assert(te == match first_named(head@.headers, text("transfer-encoding")) {
        Some(j) => Some(j as usize),
        None => None::<usize>,
    });
    if cl.is_some() && te.is_some() {
        return Err(ServerDecodeError::UnexpectedContentLength);
    }
    let expect_name = "expect".as_bytes();
    let found = find_first(&head.headers, expect_name);
    proof { lemma_first_named_bound(head@.headers, expect_name@); }
    let expect_continue = match found {
        Some(i) => {
            assert(first_named(head@.headers, text("expect")) == Some(i as nat));
            bytes_eq(head.headers[i].value.as_slice(), "100-continue".as_bytes())
        },
        None => false,
    };
    let chunked = match te {
        Some(i) => eq_ignore_ascii_case(head.headers[i].value.as_slice(), "chunked".as_bytes()),
        None => false,
    };
    assert(te matches Some(i) ==> first_named(head@.headers, text("transfer-encoding")) == Some(i as nat));
    let body = if chunked {
        RequestBody::Chunked
    } else {
        match cl {
            Some(n) => RequestBody::Fixed(n),
            None => RequestBody::Empty,
        }
    };
    let method = crate::bytes::copy_bytes(method.as_slice());
    let RequestHead { headers, .. } = head;
    Ok(DecodedRequest { version, method, url, headers, body, expect_continue })
}

/// Parses and decodes a complete request head read into `buf`, under the options `opts`.
pub fn decode_request_head(buf: &[u8], opts: &crate::server::ServerOptions) -> (r: Result<DecodedRequest, ServerDecodeError>)
    ensures
        match crate::head::request_head_of(buf@) {
            Ok(h) => decoded_view(r) == decode_spec(h, opts.host()),
            Err(e) => decoded_view(r) == Err::<DecodedView, ServerDecodeFault>(ServerDecodeFault::Head(e)),
        },
{
    match crate::head::parse_request_head(buf) {
        Ok(head) => decode_head(head, opts.default_host()),
        Err(e) => Err(ServerDecodeError::Head(e)),
    }
}

/// The decoding of a request head whose target is taken relative to `addr`, the address
/// the server listens on, checked in this order: complete, with a method, with a target,
/// whose URL parses, with version 1.1, with a known method, with header values that are
/// ASCII text. Each header name keeps its last value: a last `Transfer-Encoding` of
/// `chunked` frames the body in chunks, else a last `Content-Length`, read as a number,
/// gives its length; both headers at once are refused.
pub open spec fn decode_at_spec(addr: Seq<u8>, h: RequestHeadView) -> Result<DecodedView, ServerDecodeFault> {
    if !h.complete {
        Err(ServerDecodeFault::MalformedHead)
    } else {
        match h.method {
            None => Err(ServerDecodeFault::NoMethod),
            Some(m) => match h.path {
                None => Err(ServerDecodeFault::NoUri),
                Some(p) => match url_parse(addr + p) {
                    Err(e) => Err(ServerDecodeFault::InvalidUrl(e)),
                    Ok(url) => match h.version {
                        None => Err(ServerDecodeFault::NoVersion),
                        Some(v) => if v != HTTP_1_1_VERSION {
                            Err(ServerDecodeFault::UnsupportedVersion(v))
                        } else if !is_known_method(m) {
                            Err(ServerDecodeFault::InvalidMethod)
                        } else {
                            match first_bad_value(h.headers) {
                                Some(BadValue::NotUtf8(b)) => Err(ServerDecodeFault::InvalidUtf8(b)),
                                Some(BadValue::NotAscii) => Err(ServerDecodeFault::NonAsciiHeaderValue),
                                None => {
                                    let te = last_named(h.headers, text("transfer-encoding"));
                                    let cl = last_named(h.headers, text("content-length"));
                                    let decoded = |body: RequestBody|
                                        DecodedView {
                                            version: v,
                                            method: m,
                                            url,
                                            headers: h.headers,
                                            body,
                                            expect_continue: false,
                                        };
                                    if te is Some && cl is Some {
                                        Err(ServerDecodeFault::UnexpectedContentLength)
                                    } else if te matches Some(i) && h.headers[i as int].1 == text(
                                        "chunked",
                                    ) {
                                        Ok(decoded(RequestBody::Chunked))
                                    } else {
                                        match cl {
                                            Some(i) => match parse_u64_spec(h.headers[i as int].1) {
                                                Err(k) => Err(ServerDecodeFault::InvalidContentLength(k)),
                                                Ok(n) => Ok(decoded(RequestBody::Fixed(n))),
                                            },
                                            None => Ok(decoded(RequestBody::Empty)),
                                        }
                                    }
                                },
                            }
                        },
                    },
                },
            },
        }
    }
}

/// Decodes a parsed request head whose target is taken relative to `addr`, the address
/// the server listens on, as `decode_at_spec` says.
pub fn decode_head_at(addr: &str, head: RequestHead) -> (r: Result<DecodedRequest, ServerDecodeError>)
    requires
        head@.path matches Some(p) ==> valid_utf8(p),
        head@.method matches Some(m) ==> valid_utf8(m),
    ensures
        decoded_view(r) == decode_at_spec(text(addr), head@),
{
    if !head.complete {
        return Err(ServerDecodeError::MalformedHead);
    }
    let method = match &head.method {
        Some(m) => m,
        None => return Err(ServerDecodeError::NoMethod),
    };
    let path = match &head.path {
        Some(p) => p,
        None => return Err(ServerDecodeError::NoUri),
    };
    let mut input: Vec<u8> = Vec::new();
    push_text(&mut input, addr);
    push_bytes(&mut input, path.as_slice());
    proof {
        vstd::utf8::encode_utf8_valid_utf8(addr@);
        vstd::utf8::valid_utf8_concat(text(addr), path@);
    }
    let url = match parse_url(input.as_slice()) {
        Ok(u) => u,
        Err(m) => return Err(ServerDecodeError::InvalidUrl(m)),
    };
    let version = match head.version {
        Some(v) => v,
        None => return Err(ServerDecodeError::NoVersion),
    };
    if version != HTTP_1_1_VERSION {
        return Err(ServerDecodeError::UnsupportedVersion(version));
    }
    if !known_method(method.as_slice()) {
        return Err(ServerDecodeError::InvalidMethod);
    }
    match check_values(&head.headers) {
        Some(BadValueFound::NotUtf8(b)) => return Err(ServerDecodeError::InvalidUtf8(b)),
        Some(BadValueFound::NotAscii) => return Err(ServerDecodeError::NonAsciiHeaderValue),
        None => {},
    }
    // Bounds the number of headers by `usize::MAX`.
    let _header_count = head.headers.len();
    let te_name = "transfer-encoding".as_bytes();
    let cl_name = "content-length".as_bytes();
    let te = find_last(&head.headers, te_name);
    let cl = find_last(&head.headers, cl_name);
    proof {
        lemma_last_named_bound(head@.headers, te_name@);
        lemma_last_named_bound(head@.headers, cl_name@);
    }
    if te.is_some() && cl.is_some() {
        return Err(ServerDecodeError::UnexpectedContentLength);
    }
    let chunked = match te {
        Some(i) => bytes_eq(head.headers[i].value.as_slice(), "chunked".as_bytes()),
        None => false,
    };
    let body = if chunked {
        RequestBody::Chunked
    } else {
        match cl {
            Some(i) => match parse_u64(head.headers[i].value.as_slice()) {
                Ok(n) => RequestBody::Fixed(n),
                Err(k) => return Err(ServerDecodeError::InvalidContentLength(k)),
            },
            None => RequestBody::Empty,
        }
    };
    let method = crate::bytes::copy_bytes(method.as_slice());
    let RequestHead { headers, .. } = head;
    Ok(DecodedRequest { version, method, url, headers, body, expect_continue: false })
}

/// Parses and decodes a complete request head read into `buf`, its target taken
/// relative to `addr`, the address the server listens on.
pub fn decode_request_head_at(addr: &str, buf: &[u8]) -> (r: Result<DecodedRequest, ServerDecodeError>)
    ensures
        match crate::head::request_head_of(buf@) {
            Ok(h) => decoded_view(r) == decode_at_spec(text(addr), h),
            Err(e) => decoded_view(r) == Err::<DecodedView, ServerDecodeFault>(ServerDecodeFault::Head(e)),
        },
{
    match crate::head::parse_request_head(buf) {
        Ok(head) => decode_head_at(addr, head),
        Err(e) => Err(ServerDecodeError::Head(e)),
    }
}

/// The interim response that asks a client waiting on `Expect: 100-continue` to send its
/// body.
pub fn continue_response() -> (r: Vec<u8>)
    ensures
        r@ == text("HTTP/1.1 100 Continue\r\n\r\n"),
{
    let mut r: Vec<u8> = Vec::new();
    push_text(&mut r, "HTTP/1.1 100 Continue\r\n\r\n");
    r
}

/// What first wakes the task that answers `Expect: 100-continue`.
#[derive(Debug, Clone, Copy, PartialEq, Eq, Structural)]
pub enum ContinueWake {
    /// The body was first read.
    BodyRead,
    /// The body was dropped without being read.
    BodyDropped,
    /// The response is about to be written.
    ResponseStarting,
}

/// Whether the client is asked to send its body: unless the body was dropped unread,
/// in which case the next request is read from where this head ended.
pub fn should_continue(wake: ContinueWake) -> (r: bool)
    ensures
        r == !(wake is BodyDropped),
{
    match wake {
        ContinueWake::BodyDropped => false,
        _ => true,
    }
}

} // verus!
