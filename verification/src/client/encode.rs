//! Encodes HTTP requests on the client.
use vstd::prelude::*;
use crate::bytes::{bytes_eq, eq_ignore_ascii_case, eq_ignore_case, push_bytes, push_text, text, write_at};
use crate::digits::{decimal, decimal_digits};
use crate::server::encode::{HeaderEntry, crlf, entries_view, header_lines, push_header_lines};
use vstd::slice::slice_subrange;

verus! {

/// Why a request could not be encoded.
#[derive(Debug, Clone, Copy, PartialEq, Eq, Structural)]
pub enum EncodeError {
    /// The URL names no host.
    MissingHostname,
    /// The URL of a CONNECT request has no port, and its scheme none by default.
    MissingPort,
}

/// What the encoder needs of a request to write its head: the method, the parts of the
/// URL, the body length, and the headers.
#[derive(Debug)]
pub struct RequestParts {
    pub method: Vec<u8>,
    /// The path of the URL.
    pub path: Vec<u8>,
    /// The query of the URL, if it has one.
    pub query: Option<Vec<u8>>,
    /// The host of the URL, if it has one.
    pub host: Option<Vec<u8>>,
    /// The port of the URL where it is not the default port of its scheme.
    pub port: Option<u16>,
    /// The port of the URL, or else the default port of its scheme.
    pub known_port: Option<u16>,
    pub len: Option<usize>,
    pub headers: Vec<HeaderEntry>,
}

/// The view of [`RequestParts`].
pub struct RequestView {
    pub method: Seq<u8>,
    pub path: Seq<u8>,
    pub query: Option<Seq<u8>>,
    pub host: Option<Seq<u8>>,
    pub port: Option<u16>,
    pub known_port: Option<u16>,
    pub len: Option<usize>,
    pub headers: Seq<(Seq<u8>, Seq<Seq<u8>>)>,
}

impl View for RequestParts {
    type V = RequestView;

    open spec fn view(&self) -> RequestView {
        RequestView {
            method: self.method@,
            path: self.path@,
            query: crate::server::opt_view(self.query),
            host: crate::server::opt_view(self.host),
            port: self.port,
            known_port: self.known_port,
            len: self.len,
            headers: entries_view(self.headers@),
        }
    }
}

/// The method is CONNECT.
pub open spec fn is_connect(method: Seq<u8>) -> bool {
    method == text("CONNECT")
}

/// The request target: for CONNECT the authority, host and port (RFC 7231, 4.3.6); else
/// the path and query of the URL, without its fragment (RFC 7230, 5.3.1).
pub open spec fn request_target(r: RequestView) -> Result<Seq<u8>, EncodeError> {
    if is_connect(r.method) {
        match r.host {
            None => Err(EncodeError::MissingHostname),
            Some(h) => match r.known_port {
                None => Err(EncodeError::MissingPort),
                Some(p) => Ok(h + text(":") + decimal(p as nat)),
            },
        }
    } else {
        match r.query {
            Some(q) => Ok(r.path + text("?") + q),
            None => Ok(r.path),
        }
    }
}

/// Some of the first `n` headers is named `host`, ignoring ASCII case.
pub open spec fn names_host_upto(hs: Seq<(Seq<u8>, Seq<Seq<u8>>)>, n: nat) -> bool
    decreases n,
{
    if n == 0 {
        false
    } else {
        names_host_upto(hs, (n - 1) as nat) || eq_ignore_case(hs[n - 1].0, text("host"))
    }
}

/// Some of the first `n` headers is named `host`, whichever it is: the host is found
/// wherever it stands among them.
pub proof fn lemma_names_host_upto(hs: Seq<(Seq<u8>, Seq<Seq<u8>>)>, n: nat)
    requires
        n <= hs.len(),
    ensures
        names_host_upto(hs, n) == exists|i: int| 0 <= i < n && eq_ignore_case(
            #[trigger] hs[i].0,
            text("host"),
        ),
    decreases n,
{
    if n > 0 {
        lemma_names_host_upto(hs, (n - 1) as nat);
        if names_host_upto(hs, (n - 1) as nat) {
            let i = choose|i: int| 0 <= i < n - 1 && eq_ignore_case(#[trigger] hs[i].0, text("host"));
            assert(0 <= i < n && eq_ignore_case(hs[i].0, text("host")));
        } else if eq_ignore_case(hs[n - 1].0, text("host")) {
            assert(eq_ignore_case(hs[n - 1].0, text("host")));
        } else {
            assert forall|i: int| 0 <= i < n implies !eq_ignore_case(#[trigger] hs[i].0, text("host")) by {
                if i < n - 1 {
                    if eq_ignore_case(hs[i].0, text("host")) {
                        assert(exists|j: int| 0 <= j < n - 1 && eq_ignore_case(
                            #[trigger] hs[j].0,
                            text("host"),
                        ));
                    }
                }
            }
        }
    }
}

/// Once a header names the host, every longer run of the headers names it too.
pub proof fn lemma_names_host_monotone(hs: Seq<(Seq<u8>, Seq<Seq<u8>>)>, k: nat, n: nat)
    requires
        k <= n <= hs.len(),
        names_host_upto(hs, k),
    ensures
        names_host_upto(hs, n),
{
    lemma_names_host_upto(hs, k);
    lemma_names_host_upto(hs, n);
    let i = choose|i: int| 0 <= i < k && eq_ignore_case(#[trigger] hs[i].0, text("host"));
    assert(0 <= i < n && eq_ignore_case(hs[i].0, text("host")));
}

/// The `Host` line added where the request's headers name no host: the host of the URL,
/// with its port where that is not the default one.
pub open spec fn host_line(r: RequestView) -> Result<Seq<u8>, EncodeError> {
    if names_host_upto(r.headers, r.headers.len()) {
        Ok(Seq::empty())
    } else {
        match r.host {
            None => Err(EncodeError::MissingHostname),
            Some(h) => match r.port {
                Some(p) => Ok(text("host: ") + h + text(":") + decimal(p as nat) + crlf()),
                None => Ok(text("host: ") + h + crlf()),
            },
        }
    }
}

/// The `Proxy-Connection` line that a CONNECT request carries.
pub open spec fn proxy_line(method: Seq<u8>) -> Seq<u8> {
    if is_connect(method) {
        text("proxy-connection: keep-alive") + crlf()
    } else {
        Seq::empty()
    }
}

/// The head of a request whose body length is `len`: the request line, the host, the
/// proxy connection for CONNECT, the content length, the headers, and a blank line.
pub open spec fn request_head(r: RequestView, len: usize) -> Result<Seq<u8>, EncodeError> {
    match request_target(r) {
        Err(e) => Err(e),
        Ok(target) => match host_line(r) {
            Err(e) => Err(e),
            Ok(host) => Ok(
                r.method + text(" ") + target + text(" HTTP/1.1") + crlf() + host + proxy_line(
                    r.method,
                ) + text("content-length: ") + decimal(len as nat) + crlf() + header_lines(
                    r.headers,
                ) + crlf(),
            ),
        },
    }
}

/// An HTTP request encoder: hands out the head, then the body read from `request`.
#[derive(Debug)]
pub struct Encoder<R> {
    /// Keep track how far we've indexed into the headers.
    cursor: usize,
    /// HTTP headers to be sent.
    headers: Vec<u8>,
    /// Check whether we're done sending headers.
    headers_done: bool,
    /// Request with the HTTP body to be sent.
    request: R,
    /// Check whether we're done with the body.
    body_done: bool,
    /// Keep track of how many bytes have been read from the body stream.
    body_bytes_read: usize,
}

/// The view of [`Encoder`].
pub struct EncoderView {
    pub cursor: nat,
    pub headers: Seq<u8>,
    pub headers_done: bool,
    pub body_done: bool,
    pub body_bytes_read: nat,
}

/// What a read of the head into a buffer of `len` bytes hands out, and the view after it:
/// the next unread head bytes, as many as fit; nothing once the head is done.
pub open spec fn head_read(v: EncoderView, len: nat) -> (EncoderView, Seq<u8>) {
    if v.headers_done {
        (v, Seq::empty())
    } else {
        let n = if v.headers.len() - v.cursor < len {
            (v.headers.len() - v.cursor) as nat
        } else {
            len
        };
        (
            EncoderView { cursor: v.cursor + n, headers_done: v.cursor + n == v.headers.len(), ..v },
            v.headers.subrange(v.cursor as int, (v.cursor + n) as int),
        )
    }
}

/// Reads of the head into buffers of the lengths `lens`, one after another: the view
/// after them, and the bytes they handed out, joined.
pub open spec fn head_reads(v: EncoderView, lens: Seq<nat>) -> (EncoderView, Seq<u8>)
    decreases lens.len(),
{
    if lens.len() == 0 {
        (v, Seq::empty())
    } else {
        let (v1, o1) = head_read(v, lens[0]);
        let (v2, o2) = head_reads(v1, lens.drop_first());
        (v2, o1 + o2)
    }
}

/// The lengths added up.
pub open spec fn total(lens: Seq<nat>) -> nat
    decreases lens.len(),
{
    if lens.len() == 0 {
        0
    } else {
        lens[0] + total(lens.drop_first())
    }
}

/// Reading the head through buffers of any lengths, none empty, hands out its unread
/// bytes in order and each once: what comes out is a prefix of them, and is all of them,
/// with the head then done, once the lengths add up to more than their number.
pub proof fn lemma_head_reads(v: EncoderView, lens: Seq<nat>)
    requires
        v.cursor <= v.headers.len(),
        v.headers_done ==> v.cursor == v.headers.len(),
        forall|i: int| 0 <= i < lens.len() ==> #[trigger] lens[i] > 0,
    ensures
        v.cursor + head_reads(v, lens).1.len() <= v.headers.len(),
        head_reads(v, lens).1 == v.headers.subrange(
            v.cursor as int,
            (v.cursor + head_reads(v, lens).1.len()) as int,
        ),
        total(lens) > v.headers.len() - v.cursor ==> head_reads(v, lens).1 == v.headers.skip(
            v.cursor as int,
        ) && head_reads(v, lens).0.headers_done,
    decreases lens.len(),
{
    if lens.len() > 0 {
        let (v1, o1) = head_read(v, lens[0]);
        let rest = lens.drop_first();
        assert forall|i: int| 0 <= i < rest.len() implies #[trigger] rest[i] > 0 by {
            assert(rest[i] == lens[i + 1]);
        }
        assert(lens[0] > 0);
        lemma_head_reads(v1, rest);
        let (v2, o2) = head_reads(v1, rest);
        assert(head_reads(v, lens) == (v2, o1 + o2));
        if v.headers_done {
            assert(o1 =~= Seq::<u8>::empty());
            assert(v1 == v);
        } else {
            assert(v1.cursor == v.cursor + o1.len());
        }
        assert(o1 + o2 =~= v.headers.subrange(v.cursor as int, (v.cursor + o1.len() + o2.len()) as int));
        if total(lens) > v.headers.len() - v.cursor {
            if total(rest) > v1.headers.len() - v1.cursor {
                assert(o1 + o2 =~= v.headers.skip(v.cursor as int));
            } else {
                assert(v1.cursor == v.headers.len());
                assert(v1.headers_done);
                assert(o1 + o2 =~= v.headers.skip(v.cursor as int));
            }
        }
    }
}

impl<R> Encoder<R> {
    pub closed spec fn view(&self) -> EncoderView {
        EncoderView {
            cursor: self.cursor as nat,
            headers: self.headers@,
            headers_done: self.headers_done,
            body_done: self.body_done,
            body_bytes_read: self.body_bytes_read as nat,
        }
    }

    /// The request whose body is sent.
    pub closed spec fn source(&self) -> R {
        self.request
    }

    /// Create a new instance.
    pub fn new(headers: Vec<u8>, request: R) -> (e: Self)
        ensures
            e.view() == (EncoderView {
                cursor: 0,
                headers: headers@,
                headers_done: false,
                body_done: false,
                body_bytes_read: 0,
            }),
            e.source() == request,
    {
        Encoder { request, headers, cursor: 0, headers_done: false, body_done: false, body_bytes_read: 0 }
    }

    /// The request, to read the body from.
    pub fn request_mut(&mut self) -> (r: &mut R)
        ensures
            *r == old(self).source(),
            final(self).source() == *final(r),
            final(self).view() == old(self).view(),
    {
        &mut self.request
    }

    /// Whether the body is over.
    pub fn is_body_done(&self) -> (b: bool)
        ensures
            b == self.view().body_done,
    {
        self.body_done
    }

    /// Copies the next part of the head into the front of `buf`; returns its length.
    pub fn read_head(&mut self, buf: &mut Vec<u8>) -> (n: usize)
        requires
            old(self).view().cursor <= old(self).view().headers.len(),
        ensures
            final(self).source() == old(self).source(),
            final(self).view() == head_read(old(self).view(), old(buf)@.len()).0,
            n == head_read(old(self).view(), old(buf)@.len()).1.len(),
            final(buf)@ == head_read(old(self).view(), old(buf)@.len()).1 + old(buf)@.skip(n as int),
            final(self).view().cursor <= final(self).view().headers.len(),
    {
        if self.headers_done {
            return 0;
        }
        let left = self.headers.len() - self.cursor;
        let len = if left < buf.len() {
            left
        } else {
            buf.len()
        };
        let start = self.cursor;
        write_at(buf, 0, slice_subrange(self.headers.as_slice(), start, start + len));
        assert(buf@ =~= self.headers@.subrange(start as int, start + len) + old(buf)@.skip(len as int));
        self.cursor = start + len;
        if self.cursor == self.headers.len() {
            self.headers_done = true;
        }
        len
    }

    /// Records that `n` body bytes were read after `bytes_read` head bytes; returns the
    /// bytes produced. The body is over once a read produces nothing at all.
    pub fn body_read(&mut self, bytes_read: usize, n: usize) -> (total: usize)
        requires
            bytes_read + n <= usize::MAX,
            old(self).view().body_bytes_read + n <= usize::MAX,
        ensures
            total == bytes_read + n,
            final(self).source() == old(self).source(),
            final(self).view() == (EncoderView {
                body_bytes_read: (old(self).view().body_bytes_read + n) as nat,
                body_done: old(self).view().body_done || total == 0,
                ..old(self).view()
            }),
    {
        let total = bytes_read + n;
        self.body_bytes_read = self.body_bytes_read + n;
        if total == 0 {
            self.body_done = true;
        }
        total
    }
}

/// Whether some header of `headers` is named `host`, ignoring ASCII case.
pub fn names_host(headers: &Vec<HeaderEntry>) -> (r: bool)
    ensures
        r == names_host_upto(entries_view(headers@), headers@.len()),
{
    let mut found = false;
    let mut i: usize = 0;
    while i < headers.len()
        invariant
            i <= headers@.len(),
            entries_view(headers@).len() == headers@.len(),
            found == names_host_upto(entries_view(headers@), i as nat),
        decreases headers@.len() - i,
    {
        let named = eq_ignore_ascii_case(headers[i].name.as_slice(), "host".as_bytes());
        assert(entries_view(headers@)[i as int].0 == headers@[i as int].name@);
        found = found || named;
        i = i + 1;
    }
    found
}

/// The target of the request line, as `request_target` says.
fn push_target(buf: &mut Vec<u8>, req: &RequestParts) -> (r: Result<(), EncodeError>)
    ensures
        match request_target(req@) {
            Ok(t) => r is Ok && final(buf)@ == old(buf)@ + t,
            Err(e) => r == Err::<(), EncodeError>(e),
        },
{
    if bytes_eq(req.method.as_slice(), "CONNECT".as_bytes()) {
        let host = match &req.host {
            Some(h) => h,
            None => return Err(EncodeError::MissingHostname),
        };
        let port = match req.known_port {
            Some(p) => p,
            None => return Err(EncodeError::MissingPort),
        };
        push_bytes(buf, host.as_slice());
        push_text(buf, ":");
        let digits = decimal_digits(port as u64);
        push_bytes(buf, digits.as_slice());
    } else {
        push_bytes(buf, req.path.as_slice());
        match &req.query {
            Some(q) => {
                push_text(buf, "?");
                push_bytes(buf, q.as_slice());
            },
            None => {},
        }
    }
    Ok(())
}

/// The `Host` line, as `host_line` says.
fn push_host_line(buf: &mut Vec<u8>, req: &RequestParts) -> (r: Result<(), EncodeError>)
    ensures
        match host_line(req@) {
            Ok(h) => r is Ok && final(buf)@ == old(buf)@ + h,
            Err(e) => r == Err::<(), EncodeError>(e),
        },
{
    if names_host(&req.headers) {
        return Ok(());
    }
    let host = match &req.host {
        Some(h) => h,
        None => return Err(EncodeError::MissingHostname),
    };
    push_text(buf, "host: ");
    push_bytes(buf, host.as_slice());
    match req.port {
        Some(p) => {
            push_text(buf, ":");
            let digits = decimal_digits(p as u64);
            push_bytes(buf, digits.as_slice());
        },
        None => {},
    }
    buf.push(13u8);
    buf.push(10u8);
    Ok(())
}

/// Encode an HTTP request on the client: the request line with the request target, the
/// `host` (unless a header names it), `proxy-connection` for CONNECT, the
/// `content-length`, the headers, and a blank line; the body follows as it is read.
/// Bodies of unknown length are not supported, so `len` must be known.
pub fn encode<R>(req: &RequestParts, request: R) -> (r: Result<Encoder<R>, EncodeError>)
    requires
        req@.len is Some,
    ensures
        match request_head(req@, req@.len->Some_0) {
            Ok(h) => r matches Ok(e) && e.view() == (EncoderView {
                cursor: 0,
                headers: h,
                headers_done: false,
                body_done: false,
                body_bytes_read: 0,
            }) && e.source() == request,
            Err(err) => r matches Err(x) && x == err,
        },
{
    let mut buf: Vec<u8> = Vec::new();
    push_bytes(&mut buf, req.method.as_slice());
    push_text(&mut buf, " ");
    match push_target(&mut buf, req) {
        Ok(()) => {},
        Err(e) => return Err(e),
    }
    push_text(&mut buf, " HTTP/1.1");
    buf.push(13u8);
    buf.push(10u8);
    match push_host_line(&mut buf, req) {
        Ok(()) => {},
        Err(e) => return Err(e),
    }
    if bytes_eq(req.method.as_slice(), "CONNECT".as_bytes()) {
        push_text(&mut buf, "proxy-connection: keep-alive");
        buf.push(13u8);
        buf.push(10u8);
    }
    let len = match req.len {
        Some(n) => n,
        None => 0,
    };
    push_text(&mut buf, "content-length: ");
    let digits = decimal_digits(len as u64);
    push_bytes(&mut buf, digits.as_slice());
    buf.push(13u8);
    buf.push(10u8);
    push_header_lines(&mut buf, &req.headers);
    buf.push(13u8);
    buf.push(10u8);
    assert(buf@ =~= request_head(req@, len)->Ok_0);
    Ok(Encoder::new(buf, request))
}

} // verus!
