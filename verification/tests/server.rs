use async_h1::server::decode::{continue_response, should_continue, ContinueWake};
use async_h1::chunked::decoder::{ChunkedDecoder, Want};
use async_h1::head::parse_request_head;
use async_h1::server::decode::{
    decode_request_head, decode_request_head_at, head_progress, url_from_httparse_req, url_from_parse, HeadProgress, RequestBody,
    ServerDecodeError,
};
use async_h1::server::encode::{EncodeStep, Encoder, HeaderEntry, ResponseHead};
use async_h1::server::{
    admit_request, connection_status, has_token, request_connection_flags, ConnectionStatus,
    ServerOptions, MAX_REQUESTS,
};
use async_h1::MAX_HEAD_LENGTH;

/// Parses the request head `buf`, as far as it goes, and gives the URL of the request.
fn url_of(buf: &str) -> Result<Vec<u8>, ServerDecodeError> {
    let req = parse_request_head(buf.as_bytes()).unwrap();
    url_from_httparse_req(&req, None)
}

#[test]
fn url_for_connect() {
    let url = url_of("CONNECT server.example.com:443 HTTP/1.1\r\nHost: server.example.com:443\r\n").unwrap();
    assert_eq!(String::from_utf8(url).unwrap(), "http://server.example.com:443/");
}

#[test]
fn url_for_host_plus_path() {
    let url = url_of("GET /some/resource HTTP/1.1\r\nHost: server.example.com:443\r\n").unwrap();
    assert_eq!(String::from_utf8(url).unwrap(), "http://server.example.com:443/some/resource");
}

#[test]
fn url_for_host_plus_absolute_url() {
    let url = url_of("GET http://domain.com/some/resource HTTP/1.1\r\nHost: server.example.com\r\n").unwrap();
    // The host header must be ignored.
    assert_eq!(String::from_utf8(url).unwrap(), "http://domain.com/some/resource");
}

#[test]
fn url_for_conflicting_connect() {
    let url = url_of("CONNECT server.example.com:443 HTTP/1.1\r\nHost: conflicting.host\r\n").unwrap();
    assert_eq!(String::from_utf8(url).unwrap(), "http://server.example.com:443/");
}

#[test]
fn url_for_malformed_resource_path() {
    assert!(url_of("GET not-a-url HTTP/1.1\r\nHost: server.example.com\r\n").is_err());
}

#[test]
fn url_for_double_slash_path() {
    let url = url_of("GET //double/slashes HTTP/1.1\r\nHost: server.example.com:443\r\n").unwrap();
    assert_eq!(String::from_utf8(url).unwrap(), "http://server.example.com:443//double/slashes");
}

#[test]
fn url_for_triple_slash_path() {
    let url = url_of("GET ///triple/slashes HTTP/1.1\r\nHost: server.example.com:443\r\n").unwrap();
    assert_eq!(String::from_utf8(url).unwrap(), "http://server.example.com:443///triple/slashes");
}

#[test]
fn url_for_query() {
    let url = url_of("GET /foo?bar=1 HTTP/1.1\r\nHost: server.example.com:443\r\n").unwrap();
    assert_eq!(String::from_utf8(url).unwrap(), "http://server.example.com:443/foo?bar=1");
}

#[test]
fn url_for_anchor() {
    let url = url_of("GET /foo?bar=1#anchor HTTP/1.1\r\nHost: server.example.com:443\r\n").unwrap();
    assert_eq!(String::from_utf8(url).unwrap(), "http://server.example.com:443/foo?bar=1#anchor");
}

#[test]
fn url_parse_outcome_is_kept() {
    assert_eq!(url_from_parse(Ok(b"http://a.com/".to_vec())), Ok(b"http://a.com/".to_vec()));
    assert_eq!(
        url_from_parse(Err(b"relative URL without a base".to_vec())),
        Err(ServerDecodeError::InvalidUrl(b"relative URL without a base".to_vec()))
    );
}

#[test]
fn url_with_default_host() {
    let req = parse_request_head(b"GET /p HTTP/1.0\r\n\r\n").unwrap();
    let url = url_from_httparse_req(&req, Some(&b"website.com"[..])).unwrap();
    assert_eq!(String::from_utf8(url).unwrap(), "http://website.com/p");
}

#[test]
fn url_without_host_is_refused() {
    assert_eq!(url_of("GET /path HTTP/1.1\r\n"), Err(ServerDecodeError::NoHost));
}

#[test]
fn post_with_body() {
    let head = "POST / HTTP/1.1\r\n\
                host: localhost:8080\r\n\
                content-length: 5\r\n\
                content-type: text/plain;charset=utf-8\r\n\
                another-header: header value\r\n\
                another-header: other header value\r\n\
                \r\n";
    let req = decode_request_head(head.as_bytes(), &ServerOptions::default()).unwrap();
    assert_eq!(req.method, b"POST".to_vec());
    assert_eq!(req.version, 1);
    assert_eq!(String::from_utf8(req.url).unwrap(), "http://localhost:8080/");
    assert_eq!(req.body, RequestBody::Fixed(5));
    assert!(!req.expect_continue);
    let values: Vec<&[u8]> = req
        .headers
        .iter()
        .filter(|h| h.name == b"another-header")
        .map(|h| h.value.as_slice())
        .collect();
    assert_eq!(values, vec![&b"header value"[..], &b"other header value"[..]]);
}

#[test]
fn chunked() {
    let head = "POST / HTTP/1.1\r\n\
                host: localhost:8080\r\n\
                transfer-encoding: chunked\r\n\
                content-type: text/plain;charset=utf-8\r\n\
                \r\n";
    let req = decode_request_head(head.as_bytes(), &ServerOptions::default()).unwrap();
    assert_eq!(req.body, RequestBody::Chunked);
    let body = b"1\r\nh\r\n1\r\ne\r\n3\r\nllo\r\n0\r\n";
    let mut d = ChunkedDecoder::new();
    let mut pos = 0;
    let mut out = Vec::new();
    loop {
        match d.want() {
            Want::Yield => {
                let n = d.pass_through_len(body.len() - pos).unwrap();
                out.extend_from_slice(&body[pos..pos + n]);
                pos += n;
                d.consume(n);
            }
            Want::Read => pos += d.read_framing(&body[pos..]).unwrap(),
            Want::SendTrailers => {
                d.take_trailers();
                d.trailers_sent();
            }
            Want::AwaitTrailers => unreachable!(),
            Want::Finished => break,
        }
    }
    assert_eq!(out, b"hello".to_vec());
}

#[test]
fn content_length_with_transfer_encoding_is_refused() {
    let head = "POST / HTTP/1.1\r\nhost: a.com\r\ncontent-length: 5\r\ntransfer-encoding: chunked\r\n\r\n";
    assert_eq!(
        decode_request_head(head.as_bytes(), &ServerOptions::default()).err(),
        Some(ServerDecodeError::UnexpectedContentLength)
    );
}

#[test]
fn http_1_0_without_host_header() {
    let head = "GET /path?query#fragment HTTP/1.0\r\n\r\n";
    let opts = ServerOptions::new().with_default_host("website.com");
    let req = decode_request_head(head.as_bytes(), &opts).unwrap();
    assert_eq!(req.version, 0);
    assert_eq!(String::from_utf8(req.url).unwrap(), "http://website.com/path?query#fragment");
}

#[test]
fn http_1_1_without_host_header() {
    let head = "GET /path?query#fragment HTTP/1.1\r\n\r\n";
    assert_eq!(
        decode_request_head(head.as_bytes(), &ServerOptions::default()).err(),
        Some(ServerDecodeError::NoHost)
    );
}

#[test]
fn http_1_1_without_host_header_ignores_default_host() {
    let head = "GET /path HTTP/1.1\r\n\r\n";
    let opts = ServerOptions::new().with_default_host("website.com");
    assert_eq!(decode_request_head(head.as_bytes(), &opts).err(), Some(ServerDecodeError::NoHost));
}

#[test]
fn http_1_0_with_host_header() {
    let head = "GET /path?query#fragment HTTP/1.0\r\nhost: example.com\r\n\r\n";
    let opts = ServerOptions::new().with_default_host("website.com");
    let req = decode_request_head(head.as_bytes(), &opts).unwrap();
    assert_eq!(req.version, 0);
    assert_eq!(String::from_utf8(req.url).unwrap(), "http://example.com/path?query#fragment");
}

#[test]
fn http_1_0_request_with_no_default_host_is_provided() {
    let head = "GET /path?query#fragment HTTP/1.0\r\n\r\n";
    assert_eq!(
        decode_request_head(head.as_bytes(), &ServerOptions::default()).err(),
        Some(ServerDecodeError::UnsupportedVersion(0))
    );
}

#[test]
fn http_1_0_request_with_no_default_host_is_provided_even_if_host_header_exists() {
    let head = "GET /path?query#fragment HTTP/1.0\r\nhost: example.com\r\n\r\n";
    assert_eq!(
        decode_request_head(head.as_bytes(), &ServerOptions::default()).err(),
        Some(ServerDecodeError::UnsupportedVersion(0))
    );
}

#[test]
fn server_options_defaults() {
    let opts = ServerOptions::default();
    assert_eq!(opts.headers_timeout(), Some(60));
    assert_eq!(opts.default_host(), None);
    let opts = ServerOptions::new().with_default_host("website.com");
    assert_eq!(opts.default_host(), Some(&b"website.com"[..]));
    assert_eq!(opts.headers_timeout(), Some(60));
}

#[test]
fn incomplete_head_is_malformed() {
    let head = "GET / HTTP/1.1\r\nhost: a.com\r\n";
    assert_eq!(decode_request_head(head.as_bytes(), &ServerOptions::default()).err(), Some(ServerDecodeError::MalformedHead));
}

#[test]
fn unknown_method_is_refused() {
    let head = "FROB / HTTP/1.1\r\nhost: a.com\r\n\r\n";
    assert_eq!(decode_request_head(head.as_bytes(), &ServerOptions::default()).err(), Some(ServerDecodeError::InvalidMethod));
}

#[test]
fn non_ascii_header_value_is_refused() {
    let head = "GET / HTTP/1.1\r\nhost: a.com\r\nx-invalid: \u{e5}\r\n\r\n";
    assert_eq!(
        decode_request_head(head.as_bytes(), &ServerOptions::default()).err(),
        Some(ServerDecodeError::NonAsciiHeaderValue)
    );
}

#[test]
fn bad_content_length_is_refused() {
    let head = "POST / HTTP/1.1\r\nhost: a.com\r\ncontent-length: five\r\n\r\n";
    assert!(matches!(
        decode_request_head(head.as_bytes(), &ServerOptions::default()),
        Err(ServerDecodeError::InvalidContentLength(_))
    ));
}

#[test]
fn expect_continue_is_seen() {
    let head = "POST / HTTP/1.1\r\nhost: a.com\r\ncontent-length: 10\r\nexpect: 100-continue\r\n\r\n";
    let req = decode_request_head(head.as_bytes(), &ServerOptions::default()).unwrap();
    assert!(req.expect_continue);
    assert_eq!(req.body, RequestBody::Fixed(10));
}

#[test]
fn request_without_length_has_no_body() {
    let head = "GET / HTTP/1.1\r\nhost: a.com\r\n\r\n";
    assert_eq!(decode_request_head(head.as_bytes(), &ServerOptions::default()).unwrap().body, RequestBody::Empty);
}

#[test]
fn head_progress_cases() {
    assert_eq!(head_progress(b"GET / HTTP/1.1\r\n", 0), HeadProgress::Eof);
    assert_eq!(head_progress(b"GET / HTTP/1.1\r\n", 16), HeadProgress::More);
    assert_eq!(head_progress(b"GET / HTTP/1.1\r\n\r\n", 2), HeadProgress::Complete);
    let long = vec![b'a'; MAX_HEAD_LENGTH];
    assert_eq!(head_progress(&long, 1), HeadProgress::TooLong);
}

#[test]
fn connection_header_tokens() {
    assert!(has_token(b"keep-alive, Upgrade", b"upgrade"));
    assert!(!has_token(b"keep-alive", b"upgrade"));
    assert_eq!(request_connection_flags(Some(&b"Close"[..])), (false, true));
    assert_eq!(request_connection_flags(Some(&b"upgrade"[..])), (true, false));
    assert_eq!(request_connection_flags(None), (false, false));
}

#[test]
fn keep_alive_unless_closed_or_upgraded() {
    assert_eq!(connection_status(false, false, false, false, false), (false, ConnectionStatus::KeepAlive));
    assert_eq!(connection_status(false, false, false, true, false), (false, ConnectionStatus::Close));
    assert_eq!(connection_status(false, false, false, false, true), (false, ConnectionStatus::Close));
    assert_eq!(connection_status(true, true, true, false, false), (true, ConnectionStatus::Close));
    // An upgrade asked for but not given leaves the connection alive.
    assert_eq!(connection_status(true, true, false, false, false), (false, ConnectionStatus::KeepAlive));
}

#[test]
fn requests_per_connection_are_bounded() {
    let mut served = 0;
    let mut admitted = 0;
    while let Some(next) = admit_request(served) {
        served = next;
        admitted += 1;
    }
    assert_eq!(admitted, MAX_REQUESTS);
    assert_eq!(admitted, 200);
}

#[test]
fn default_headers_timeout_is_a_minute() {
    assert_eq!(ServerOptions::default().headers_timeout(), Some(60));
}

fn response(len: Option<usize>) -> ResponseHead {
    ResponseHead {
        status: 200,
        reason: b"OK".to_vec(),
        len,
        headers: vec![HeaderEntry {
            name: b"content-type".to_vec(),
            values: vec![b"text/plain".to_vec()],
        }],
    }
}

const DATE: &[u8] = b"Wed, 21 Oct 2015 07:28:00 GMT";

/// Runs one read of the encoder into a buffer of `size` bytes, with `body` as what the
/// response body yields; returns the bytes the read produced.
fn encode_read(e: &mut Encoder, size: usize, body: &mut &[u8]) -> Vec<u8> {
    let mut buf = vec![0u8; size];
    e.begin();
    loop {
        match e.next(&mut buf) {
            EncodeStep::Start => e.start(DATE),
            EncodeStep::Continue => {}
            EncodeStep::ReadBody { start, end } => {
                let n = (end - start).min(body.len());
                buf[start..start + n].copy_from_slice(&body[..n]);
                *body = &body[n..];
                if let EncodeStep::Return(k) = e.body_read(size, n) {
                    return buf[..k].to_vec();
                }
            }
            EncodeStep::ReadChunk { len } => {
                let mut chunk = vec![0u8; len];
                let n = len.min(body.len());
                chunk[..n].copy_from_slice(&body[..n]);
                *body = &body[n..];
                if let EncodeStep::Return(k) = e.chunk_read(&mut buf, &chunk, n) {
                    return buf[..k].to_vec();
                }
            }
            EncodeStep::Return(k) => return buf[..k].to_vec(),
        }
    }
}

#[test]
fn encode_fixed_length_response() {
    let mut e = Encoder::encode(response(Some(5)));
    let mut body: &[u8] = b"hello";
    let out = encode_read(&mut e, 1024, &mut body);
    let expected = "HTTP/1.1 200 OK\r\n\
                    content-length: 5\r\n\
                    date: Wed, 21 Oct 2015 07:28:00 GMT\r\n\
                    content-type: text/plain\r\n\
                    \r\n\
                    hello";
    assert_eq!(String::from_utf8(out).unwrap(), expected);
    assert!(encode_read(&mut e, 1024, &mut body).is_empty());
}

#[test]
fn encode_head_across_small_reads() {
    let mut e = Encoder::encode(response(Some(0)));
    let mut body: &[u8] = b"";
    let mut all = Vec::new();
    loop {
        let out = encode_read(&mut e, 16, &mut body);
        if out.is_empty() {
            break;
        }
        all.extend(out);
    }
    assert!(String::from_utf8(all).unwrap().starts_with("HTTP/1.1 200 OK\r\ncontent-length: 0\r\n"));
}

#[test]
fn encode_chunked_response() {
    let mut e = Encoder::encode(response(None));
    let mut body: &[u8] = b"hello world";
    let mut all = Vec::new();
    for _ in 0..4 {
        all.extend(encode_read(&mut e, 1024, &mut body));
    }
    let expected = "HTTP/1.1 200 OK\r\n\
                    transfer-encoding: chunked\r\n\
                    date: Wed, 21 Oct 2015 07:28:00 GMT\r\n\
                    content-type: text/plain\r\n\
                    \r\n\
                    B\r\nhello world\r\n0\r\n\r\n";
    assert_eq!(String::from_utf8(all).unwrap(), expected);
}

#[test]
fn continue_answer_and_decision() {
    assert_eq!(continue_response(), b"HTTP/1.1 100 Continue\r\n\r\n".to_vec());
    assert!(should_continue(ContinueWake::BodyRead));
    assert!(should_continue(ContinueWake::ResponseStarting));
    assert!(!should_continue(ContinueWake::BodyDropped));
}

#[test]
fn target_is_taken_relative_to_the_listening_address() {
    let head = "GET /some/resource?x=1 HTTP/1.1\r\nhost: ignored.example\r\n\r\n";
    let req = decode_request_head_at("http://localhost:8080", head.as_bytes()).unwrap();
    assert_eq!(String::from_utf8(req.url).unwrap(), "http://localhost:8080/some/resource?x=1");
    assert_eq!(req.body, RequestBody::Empty);
    assert!(!req.expect_continue);
}

#[test]
fn addressed_request_framing_uses_the_last_values() {
    let head = "POST / HTTP/1.1\r\ncontent-length: 3\r\ncontent-length: 7\r\n\r\n";
    let req = decode_request_head_at("http://a.com", head.as_bytes()).unwrap();
    assert_eq!(req.body, RequestBody::Fixed(7));
    let head = "POST / HTTP/1.1\r\ntransfer-encoding: chunked\r\ntransfer-encoding: gzip\r\n\r\n";
    let req = decode_request_head_at("http://a.com", head.as_bytes()).unwrap();
    assert_eq!(req.body, RequestBody::Empty);
    let head = "POST / HTTP/1.1\r\ntransfer-encoding: chunked\r\n\r\n";
    let req = decode_request_head_at("http://a.com", head.as_bytes()).unwrap();
    assert_eq!(req.body, RequestBody::Chunked);
}

#[test]
fn addressed_request_errors() {
    let both = "POST / HTTP/1.1\r\ncontent-length: 3\r\ntransfer-encoding: chunked\r\n\r\n";
    assert_eq!(
        decode_request_head_at("http://a.com", both.as_bytes()).err(),
        Some(ServerDecodeError::UnexpectedContentLength)
    );
    let old = "GET / HTTP/1.0\r\n\r\n";
    assert_eq!(
        decode_request_head_at("http://a.com", old.as_bytes()).err(),
        Some(ServerDecodeError::UnsupportedVersion(0))
    );
    let bad_len = "POST / HTTP/1.1\r\ncontent-length: x\r\n\r\n";
    assert!(matches!(
        decode_request_head_at("http://a.com", bad_len.as_bytes()),
        Err(ServerDecodeError::InvalidContentLength(_))
    ));
    assert!(matches!(
        decode_request_head_at("not a url", b"GET / HTTP/1.1\r\n\r\n"),
        Err(ServerDecodeError::InvalidUrl(_))
    ));
}

#[test]
fn non_utf8_header_value_is_refused() {
    let head = b"GET / HTTP/1.1\r\nhost: a.com\r\nx-bytes: \xff\xfe\r\n\r\n";
    assert_eq!(
        decode_request_head(head, &ServerOptions::default()).err(),
        Some(ServerDecodeError::InvalidUtf8(vec![0xff, 0xfe]))
    );
}

#[test]
fn unparsable_head_is_refused() {
    let head = b"GET / HTTP/1.1\r\nbad header line\r\n\r\n";
    assert!(matches!(decode_request_head(head, &ServerOptions::default()), Err(ServerDecodeError::Head(_))));
}

#[test]
fn chunked_response_through_small_reads() {
    let body: Vec<u8> = (0..300u32).map(|i| b'a' + (i % 26) as u8).collect();
    let mut e = Encoder::encode(response(None));
    let mut rest: &[u8] = &body;
    let mut all = Vec::new();
    let mut reads = 0;
    loop {
        reads += 1;
        assert!(reads < 10_000);
        let out = encode_read(&mut e, 9, &mut rest);
        assert!(out.len() <= 9);
        if out.is_empty() {
            break;
        }
        all.extend(out);
    }
    assert!(rest.is_empty());
    let head_end = all.windows(4).position(|w| w == b"\r\n\r\n").unwrap() + 4;
    assert!(all.ends_with(b"0\r\n\r\n"));
    let framed = &all[head_end..];
    let mut d = ChunkedDecoder::new();
    let mut pos = 0;
    let mut out = Vec::new();
    loop {
        match d.want() {
            Want::Yield => {
                let n = d.pass_through_len(framed.len() - pos).unwrap();
                out.extend_from_slice(&framed[pos..pos + n]);
                pos += n;
                d.consume(n);
            }
            Want::Read => pos += d.read_framing(&framed[pos..]).unwrap(),
            Want::SendTrailers => {
                d.take_trailers();
                d.trailers_sent();
            }
            Want::AwaitTrailers => unreachable!(),
            Want::Finished => break,
        }
    }
    assert_eq!(out, body);
    assert_eq!(pos, framed.len());
}

#[test]
fn fixed_length_response_with_short_body_through_varying_reads() {
    let mut e = Encoder::encode(response(Some(11)));
    let mut body: &[u8] = b"hello";
    let sizes = [1usize, 5, 3, 8, 2];
    let mut all = Vec::new();
    let mut i = 0;
    loop {
        let out = encode_read(&mut e, sizes[i % sizes.len()], &mut body);
        i += 1;
        if out.is_empty() {
            break;
        }
        all.extend(out);
    }
    let expected = "HTTP/1.1 200 OK\r\n\
                    content-length: 11\r\n\
                    date: Wed, 21 Oct 2015 07:28:00 GMT\r\n\
                    content-type: text/plain\r\n\
                    \r\n\
                    hello";
    assert_eq!(String::from_utf8(all).unwrap(), expected);
    assert!(encode_read(&mut e, 4, &mut body).is_empty());
}

#[test]
fn fixed_length_response_through_small_reads() {
    let mut e = Encoder::encode(response(Some(11)));
    let mut body: &[u8] = b"hello world and more";
    let mut all = Vec::new();
    for _ in 0..200 {
        all.extend(encode_read(&mut e, 7, &mut body));
    }
    let expected = "HTTP/1.1 200 OK\r\n\
                    content-length: 11\r\n\
                    date: Wed, 21 Oct 2015 07:28:00 GMT\r\n\
                    content-type: text/plain\r\n\
                    \r\n\
                    hello world";
    assert_eq!(String::from_utf8(all).unwrap(), expected);
    assert_eq!(body, b" and more");
}

#[test]
fn known_methods_in_any_case() {
    for m in ["get", "Post", "version-control", "MKCALENDAR"] {
        let head = format!("{} / HTTP/1.1\r\nhost: a.com\r\n\r\n", m);
        let req = decode_request_head(head.as_bytes(), &ServerOptions::default()).unwrap();
        assert_eq!(req.method, m.as_bytes().to_vec());
    }
}
