//! Raw message heads as `httparse` hands them out, and the calls into it.
use vstd::prelude::*;
use crate::bytes::{
    all_ascii, eq_ignore_ascii_case, eq_ignore_case, is_ascii_bytes, is_utf8, parse_u64,
    parse_u64_spec, text, trim_bounds, trimmed, IntError,
};
use vstd::slice::slice_subrange;
use vstd::utf8::valid_utf8;

verus! {

/// Why `httparse` refused a head.
#[derive(Debug, Clone, Copy, PartialEq, Eq, Structural)]
pub enum HeadError {
    HeaderName,
    HeaderValue,
    NewLine,
    Status,
    Token,
    TooManyHeaders,
    Version,
}

/// One header line: the bytes of its name and of its value.
#[derive(Debug)]
pub struct RawHeader {
    pub name: Vec<u8>,
    pub value: Vec<u8>,
}

impl View for RawHeader {
    type V = (Seq<u8>, Seq<u8>);

    open spec fn view(&self) -> (Seq<u8>, Seq<u8>) {
        (self.name@, self.value@)
    }
}

/// The raw headers as a sequence of views.
pub open spec fn raw_headers_view(headers: Seq<RawHeader>) -> Seq<(Seq<u8>, Seq<u8>)> {
    headers.map_values(|h: RawHeader| h@)
}

/// The outcome of parsing a block of header lines.
#[derive(Debug)]
pub enum HeaderBlock {
    Complete { used: usize, headers: Vec<RawHeader> },
    Partial,
    Invalid(HeadError),
}

/// The view of [`HeaderBlock`].
pub enum HeaderBlockView {
    Complete { used: nat, headers: Seq<(Seq<u8>, Seq<u8>)> },
    Partial,
    Invalid(HeadError),
}

impl View for HeaderBlock {
    type V = HeaderBlockView;

    open spec fn view(&self) -> HeaderBlockView {
        match self {
            HeaderBlock::Complete { used, headers } => HeaderBlockView::Complete {
                used: *used as nat,
                headers: raw_headers_view(headers@),
            },
            HeaderBlock::Partial => HeaderBlockView::Partial,
            HeaderBlock::Invalid(e) => HeaderBlockView::Invalid(*e),
        }
    }
}

/// What `httparse::parse_headers` makes of `buf` with room for sixteen headers.
pub uninterp spec fn header_block_of(buf: Seq<u8>) -> HeaderBlockView;

/// The place of an `httparse::Error` variant in the enum's declaration, which is what
/// the variant gives when cast to `u8`.
pub open spec fn error_code(k: HeadError) -> u8 {
    match k {
        HeadError::HeaderName => 0,
        HeadError::HeaderValue => 1,
        HeadError::NewLine => 2,
        HeadError::Status => 3,
        HeadError::Token => 4,
        HeadError::TooManyHeaders => 5,
        HeadError::Version => 6,
    }
}

/// The kind of the `httparse` error whose code is `code`.
fn head_error(code: u8) -> (k: HeadError)
    requires
        code < 7,
    ensures
        error_code(k) == code,
{
    match code {
        0 => HeadError::HeaderName,
        1 => HeadError::HeaderValue,
        2 => HeadError::NewLine,
        3 => HeadError::Status,
        4 => HeadError::Token,
        5 => HeadError::TooManyHeaders,
        _ => HeadError::Version,
    }
}

/// Calls `httparse::parse_headers` with sixteen header slots; its result is named by
/// `header_block_of`, an error given by its code. The source shows that a complete parse
/// used at most the bytes it was given and filled at most the sixteen slots.
#[verifier::external_body]
fn httparse_headers(buf: &[u8]) -> (r: Result<Option<(usize, Vec<RawHeader>)>, u8>)
    ensures
        match header_block_of(buf@) {
            HeaderBlockView::Complete { used, headers } => r matches Ok(Some((u, hs))) && u
                == used && raw_headers_view(hs@) == headers && used <= buf@.len()
                && headers.len() <= 16,
            HeaderBlockView::Partial => r matches Ok(None),
            HeaderBlockView::Invalid(k) => r matches Err(c) && c == error_code(k),
        },
{
    let mut slots = [httparse::EMPTY_HEADER; 16];
    match httparse::parse_headers(buf, &mut slots) {
        Ok(httparse::Status::Complete((used, hs))) => Ok(Some((used, hs.iter().map(
            |h| RawHeader { name: h.name.as_bytes().to_vec(), value: h.value.to_vec() },
        ).collect()))),
        Ok(httparse::Status::Partial) => Ok(None),
        Err(e) => Err(e as u8),
    }
}

/// Parses a block of header lines with room for sixteen headers.
pub(crate) fn parse_header_block(buf: &[u8]) -> (r: HeaderBlock)
    ensures
        r@ == header_block_of(buf@),
        r@ is Complete ==> r@->used <= buf@.len() && r@->headers.len() <= 16,
{
    match httparse_headers(buf) {
        Ok(Some((used, headers))) => HeaderBlock::Complete { used, headers },
        Ok(None) => HeaderBlock::Partial,
        Err(c) => HeaderBlock::Invalid(head_error(c)),
    }
}


/// A request head as `httparse` hands it out: whether it was complete, the method,
/// path and minor version when they were reached, and the header slots.
#[derive(Debug)]
pub struct RequestHead {
    pub complete: bool,
    pub method: Option<Vec<u8>>,
    pub path: Option<Vec<u8>>,
    pub version: Option<u8>,
    pub headers: Vec<RawHeader>,
}

/// The view of [`RequestHead`].
pub struct RequestHeadView {
    pub complete: bool,
    pub method: Option<Seq<u8>>,
    pub path: Option<Seq<u8>>,
    pub version: Option<u8>,
    pub headers: Seq<(Seq<u8>, Seq<u8>)>,
}

pub open spec fn opt_bytes(o: Option<Vec<u8>>) -> Option<Seq<u8>> {
    match o {
        Some(v) => Some(v@),
        None => None,
    }
}

impl View for RequestHead {
    type V = RequestHeadView;

    open spec fn view(&self) -> RequestHeadView {
        RequestHeadView {
            complete: self.complete,
            method: opt_bytes(self.method),
            path: opt_bytes(self.path),
            version: self.version,
            headers: raw_headers_view(self.headers@),
        }
    }
}

/// The view of a parse result.
pub open spec fn request_result_view(r: Result<RequestHead, HeadError>) -> Result<RequestHeadView, HeadError> {
    match r {
        Ok(h) => Ok(h@),
        Err(e) => Err(e),
    }
}

/// A head that has a path has a method; its method and its path are UTF-8.
pub open spec fn head_text_ok(h: RequestHeadView) -> bool {
    &&& (h.path matches Some(p) ==> h.method is Some && vstd::utf8::valid_utf8(p))
    &&& (h.method matches Some(m) ==> vstd::utf8::valid_utf8(m))
}

/// A parsed request that has a path has a method; its method and its path are UTF-8.
pub open spec fn path_after_method(r: Result<RequestHead, HeadError>) -> bool {
    r matches Ok(h) ==> head_text_ok(h@)
}

/// What `httparse::Request::parse` makes of `buf` with room for `MAX_HEADERS` headers.
pub uninterp spec fn request_head_of(buf: Seq<u8>) -> Result<RequestHeadView, HeadError>;

/// Calls `httparse::Request::parse` with `MAX_HEADERS` header slots; its result is
/// named by `request_head_of`, an error given by its code. The source shows that a path
/// is only read after a method, and that the method and the path are UTF-8 text.
#[verifier::external_body]
fn httparse_request(buf: &[u8]) -> (r: Result<RequestHead, u8>)
    ensures
        match request_head_of(buf@) {
            Ok(h) => r matches Ok(x) && x@ == h,
            Err(k) => r matches Err(c) && c == error_code(k),
        },
        r matches Ok(x) ==> head_text_ok(x@),
{
    let mut slots = [httparse::EMPTY_HEADER; crate::MAX_HEADERS];
    let mut req = httparse::Request::new(&mut slots);
    match req.parse(buf) {
        Ok(status) => Ok(RequestHead {
            complete: status.is_complete(),
            method: req.method.map(|m| m.as_bytes().to_vec()),
            path: req.path.map(|p| p.as_bytes().to_vec()),
            version: req.version,
            headers: req.headers.iter().map(
                |h| RawHeader { name: h.name.as_bytes().to_vec(), value: h.value.to_vec() },
            ).collect(),
        }),
        Err(e) => Err(e as u8),
    }
}

/// Parses a request head with room for `MAX_HEADERS` headers.
pub fn parse_request_head(buf: &[u8]) -> (r: Result<RequestHead, HeadError>)
    ensures
        request_result_view(r) == request_head_of(buf@),
        path_after_method(r),
{
    match httparse_request(buf) {
        Ok(head) => Ok(head),
        Err(c) => Err(head_error(c)),
    }
}

/// A response head as `httparse` hands it out.
#[derive(Debug)]
pub struct ResponseHeadRaw {
    pub complete: bool,
    pub version: Option<u8>,
    pub code: Option<u16>,
    pub headers: Vec<RawHeader>,
}

/// The view of [`ResponseHeadRaw`].
pub struct ResponseHeadRawView {
    pub complete: bool,
    pub version: Option<u8>,
    pub code: Option<u16>,
    pub headers: Seq<(Seq<u8>, Seq<u8>)>,
}

impl View for ResponseHeadRaw {
    type V = ResponseHeadRawView;

    open spec fn view(&self) -> ResponseHeadRawView {
        ResponseHeadRawView {
            complete: self.complete,
            version: self.version,
            code: self.code,
            headers: raw_headers_view(self.headers@),
        }
    }
}

/// The view of a parse result.
pub open spec fn response_result_view(r: Result<ResponseHeadRaw, HeadError>) -> Result<ResponseHeadRawView, HeadError> {
    match r {
        Ok(h) => Ok(h@),
        Err(e) => Err(e),
    }
}

/// What `httparse::Response::parse` makes of `buf` with room for `MAX_HEADERS` headers.
pub uninterp spec fn response_head_of(buf: Seq<u8>) -> Result<ResponseHeadRawView, HeadError>;

/// Calls `httparse::Response::parse` with `MAX_HEADERS` header slots; its result is
/// named by `response_head_of`, an error given by its code.
#[verifier::external_body]
fn httparse_response(buf: &[u8]) -> (r: Result<ResponseHeadRaw, u8>)
    ensures
        match response_head_of(buf@) {
            Ok(h) => r matches Ok(x) && x@ == h,
            Err(k) => r matches Err(c) && c == error_code(k),
        },
{
    let mut slots = [httparse::EMPTY_HEADER; crate::MAX_HEADERS];
    let mut res = httparse::Response::new(&mut slots);
    match res.parse(buf) {
        Ok(status) => Ok(ResponseHeadRaw {
            complete: status.is_complete(),
            version: res.version,
            code: res.code,
            headers: res.headers.iter().map(
                |h| RawHeader { name: h.name.as_bytes().to_vec(), value: h.value.to_vec() },
            ).collect(),
        }),
        Err(e) => Err(e as u8),
    }
}

/// Parses a response head with room for `MAX_HEADERS` headers.
pub(crate) fn parse_response_head(buf: &[u8]) -> (r: Result<ResponseHeadRaw, HeadError>)
    ensures
        response_result_view(r) == response_head_of(buf@),
{
    match httparse_response(buf) {
        Ok(head) => Ok(head),
        Err(c) => Err(head_error(c)),
    }
}

/// The index of the first header named `name`, ignoring ASCII case.
pub open spec fn first_named(hs: Seq<(Seq<u8>, Seq<u8>)>, name: Seq<u8>) -> Option<nat>
    decreases hs.len(),
{
    if hs.len() == 0 {
        None
    } else if eq_ignore_case(hs[0].0, name) {
        Some(0)
    } else {
        match first_named(hs.drop_first(), name) {
            Some(i) => Some(i + 1),
            None => None,
        }
    }
}

/// The index of the last header named `name`, ignoring ASCII case.
pub open spec fn last_named(hs: Seq<(Seq<u8>, Seq<u8>)>, name: Seq<u8>) -> Option<nat>
    decreases hs.len(),
{
    if hs.len() == 0 {
        None
    } else if eq_ignore_case(hs.last().0, name) {
        Some((hs.len() - 1) as nat)
    } else {
        last_named(hs.drop_last(), name)
    }
}

pub proof fn lemma_first_named_bound(hs: Seq<(Seq<u8>, Seq<u8>)>, name: Seq<u8>)
    ensures
        first_named(hs, name) matches Some(i) ==> i < hs.len() && eq_ignore_case(hs[i as int].0, name),
    decreases hs.len(),
{
    if hs.len() > 0 && !eq_ignore_case(hs[0].0, name) {
        lemma_first_named_bound(hs.drop_first(), name);
    }
}

pub proof fn lemma_last_named_bound(hs: Seq<(Seq<u8>, Seq<u8>)>, name: Seq<u8>)
    ensures
        last_named(hs, name) matches Some(i) ==> i < hs.len() && eq_ignore_case(hs[i as int].0, name),
    decreases hs.len(),
{
    if hs.len() > 0 && !eq_ignore_case(hs.last().0, name) {
        lemma_last_named_bound(hs.drop_last(), name);
    }
}

/// Finds the first header named `name`, ignoring ASCII case.
pub fn find_first(headers: &Vec<RawHeader>, name: &[u8]) -> (r: Option<usize>)
    ensures
        r == (match first_named(raw_headers_view(headers@), name@) {
            Some(i) => Some(i as usize),
            None => None::<usize>,
        }),
{
    let ghost hs = raw_headers_view(headers@);
    let n = headers.len();
    let mut i: usize = 0;
    assert(hs.skip(0) =~= hs);
    while i < n
        invariant
            0 <= i <= n,
            n == headers@.len(),
            hs == raw_headers_view(headers@),
            first_named(hs, name@) == match first_named(hs.skip(i as int), name@) {
                Some(j) => Some((j + i) as nat),
                None => None::<nat>,
            },
        decreases n - i,
    {
        assert(hs.skip(i as int)[0] == hs[i as int]);
        assert(hs.skip(i as int).drop_first() =~= hs.skip(i + 1));
        if eq_ignore_ascii_case(headers[i].name.as_slice(), name) {
            return Some(i);
        }
        i = i + 1;
    }
    assert(hs.skip(i as int).len() == 0);
    None
}

/// Finds the last header named `name`, ignoring ASCII case.
pub fn find_last(headers: &Vec<RawHeader>, name: &[u8]) -> (r: Option<usize>)
    ensures
        r == (match last_named(raw_headers_view(headers@), name@) {
            Some(i) => Some(i as usize),
            None => None::<usize>,
        }),
{
    let ghost hs = raw_headers_view(headers@);
    let mut i: usize = headers.len();
    assert(hs.take(i as int) =~= hs);
    while i > 0
        invariant
            0 <= i <= headers@.len(),
            hs == raw_headers_view(headers@),
            last_named(hs, name@) == last_named(hs.take(i as int), name@),
        decreases i,
    {
        assert(hs.take(i as int).last() == hs[i - 1]);
        assert(hs.take(i as int).drop_last() =~= hs.take(i - 1));
        if eq_ignore_ascii_case(headers[i - 1].name.as_slice(), name) {
            return Some(i - 1);
        }
        i = i - 1;
    }
    None
}

/// Why a header value cannot become a header value.
pub enum BadValue {
    NotUtf8(Seq<u8>),
    NotAscii,
}

/// A header value that cannot become a header value: its bytes when they are not UTF-8.
#[derive(Debug)]
pub enum BadValueFound {
    NotUtf8(Vec<u8>),
    NotAscii,
}

impl View for BadValueFound {
    type V = BadValue;

    open spec fn view(&self) -> BadValue {
        match self {
            BadValueFound::NotUtf8(b) => BadValue::NotUtf8(b@),
            BadValueFound::NotAscii => BadValue::NotAscii,
        }
    }
}

/// The first header whose value cannot become a header value: not UTF-8, or not ASCII.
pub open spec fn first_bad_value(hs: Seq<(Seq<u8>, Seq<u8>)>) -> Option<BadValue>
    decreases hs.len(),
{
    if hs.len() == 0 {
        None
    } else if !valid_utf8(hs[0].1) {
        Some(BadValue::NotUtf8(hs[0].1))
    } else if !all_ascii(hs[0].1) {
        Some(BadValue::NotAscii)
    } else {
        first_bad_value(hs.drop_first())
    }
}

/// The body length the last `Content-Length` header gives.
pub open spec fn content_length_spec(hs: Seq<(Seq<u8>, Seq<u8>)>) -> Result<Option<u64>, IntError> {
    match last_named(hs, text("content-length")) {
        None => Ok(None),
        Some(i) => match parse_u64_spec(trimmed(hs[i as int].1)) {
            Ok(n) => Ok(Some(n)),
            Err(k) => Err(k),
        },
    }
}

/// Finds the first header value that cannot become a header value.
pub fn check_values(headers: &Vec<RawHeader>) -> (r: Option<BadValueFound>)
    ensures
        match first_bad_value(raw_headers_view(headers@)) {
            Some(e) => r matches Some(x) && x@ == e,
            None => r is None,
        },
{
    let ghost hs = raw_headers_view(headers@);
    let n = headers.len();
    let mut i: usize = 0;
    assert(hs.skip(0) =~= hs);
    while i < n
        invariant
            0 <= i <= n,
            n == headers@.len(),
            hs == raw_headers_view(headers@),
            first_bad_value(hs) == first_bad_value(hs.skip(i as int)),
        decreases n - i,
    {
        assert(hs.skip(i as int)[0] == hs[i as int]);
        assert(hs.skip(i as int).drop_first() =~= hs.skip(i + 1));
        let value = headers[i].value.as_slice();
        if !is_utf8(value) {
            return Some(BadValueFound::NotUtf8(crate::bytes::copy_bytes(value)));
        }
        if !is_ascii_bytes(value) {
            return Some(BadValueFound::NotAscii);
        }
        i = i + 1;
    }
    assert(hs.skip(i as int).len() == 0);
    None
}

/// The body length the last `Content-Length` header gives.
pub fn content_length(headers: &Vec<RawHeader>) -> (r: Result<Option<u64>, IntError>)
    ensures
        r == content_length_spec(raw_headers_view(headers@)),
{
    let name = "content-length".as_bytes();
    assert(name@ == text("content-length"));
    // Bounds the number of headers by `usize::MAX`.
    let _header_count = headers.len();
    match find_last(headers, name) {
        None => Ok(None),
        Some(i) => {
            proof { lemma_last_named_bound(raw_headers_view(headers@), name@); }
            let value = headers[i].value.as_slice();
            let (start, end) = trim_bounds(value);
            match parse_u64(slice_subrange(value, start, end)) {
                Ok(n) => Ok(Some(n)),
                Err(k) => Err(k),
            }
        },
    }
}

} // verus!
