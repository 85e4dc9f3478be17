use async_h1::client::add_user_agent;
use async_h1::client::decode::{decode_response_head, head_progress, ResponseBody};
use async_h1::client::encode::{encode, EncodeError, Encoder, RequestParts};
use async_h1::error::ClientError;
use async_h1::server::decode::HeadProgress;
use async_h1::server::encode::HeaderEntry;

const DATE: &[u8] = b"Wed, 21 Oct 2015 07:28:00 GMT";

#[test]
fn response_no_date() {
    let head = "HTTP/1.1 200 OK\r\n\
                transfer-encoding: chunked\r\n\
                content-type: text/plain\r\n\
                \r\n";
    let res = decode_response_head(head.as_bytes(), DATE).unwrap();
    assert_eq!(res.status, 200);
    assert_eq!(res.body, ResponseBody::Chunked);
    assert_eq!(res.date, Some(b"date: Wed, 21 Oct 2015 07:28:00 GMT\r\n".to_vec()));
}

#[test]
fn response_with_date_gets_none_added() {
    let head = "HTTP/1.1 200 OK\r\ndate: Tue, 20 Oct 2015 07:28:00 GMT\r\ncontent-length: 0\r\n\r\n";
    let res = decode_response_head(head.as_bytes(), DATE).unwrap();
    assert_eq!(res.date, None);
    assert_eq!(res.body, ResponseBody::Fixed(0));
}

#[test]
fn multiple_header_values_for_same_header_name() {
    let head = "HTTP/1.1 200 OK\r\n\
                host: example.com\r\n\
                content-length: 0\r\n\
                set-cookie: sessionId=e8bb43229de9\r\n\
                set-cookie: qwerty=219ffwef9w0f\r\n\
                \r\n";
    let res = decode_response_head(head.as_bytes(), DATE).unwrap();
    let cookies: Vec<&[u8]> = res
        .headers
        .iter()
        .filter(|h| h.name == b"set-cookie")
        .map(|h| h.value.as_slice())
        .collect();
    assert_eq!(cookies, vec![&b"sessionId=e8bb43229de9"[..], &b"qwerty=219ffwef9w0f"[..]]);
}

#[test]
fn response_newlines() {
    let head = "HTTP/1.1 200 OK\n\
                content-length: 78\n\
                date: Wed, 21 Oct 2015 07:28:00 GMT\n\
                content-type: text/plain; charset=utf-8\n\
                \n";
    assert_eq!(head_progress(head.as_bytes(), 1), HeadProgress::Complete);
    let res = decode_response_head(head.as_bytes(), DATE).unwrap();
    assert_eq!(res.body, ResponseBody::Fixed(78));
    assert_eq!(res.date, None);
}

#[test]
fn response_head_progress_cases() {
    assert_eq!(head_progress(b"HTTP/1.1 200 OK\r\n", 0), HeadProgress::Eof);
    assert_eq!(head_progress(b"HTTP/1.1 200 OK\r\n", 17), HeadProgress::More);
    assert_eq!(head_progress(b"HTTP/1.1 200 OK\r\n\r\n", 2), HeadProgress::Complete);
}

#[test]
fn last_transfer_encoding_decides_chunking() {
    let head = "HTTP/1.1 200 OK\r\ntransfer-encoding: gzip\r\ntransfer-encoding: chunked\r\n\r\n";
    assert_eq!(decode_response_head(head.as_bytes(), DATE).unwrap().body, ResponseBody::Chunked);
    let head = "HTTP/1.1 200 OK\r\ntransfer-encoding: chunked\r\ntransfer-encoding: gzip\r\n\r\n";
    assert_eq!(decode_response_head(head.as_bytes(), DATE).unwrap().body, ResponseBody::Empty);
}

#[test]
fn response_with_length_and_transfer_encoding_is_refused() {
    let head = "HTTP/1.1 200 OK\r\ncontent-length: 5\r\ntransfer-encoding: chunked\r\n\r\n";
    assert!(matches!(
        decode_response_head(head.as_bytes(), DATE),
        Err(ClientError::UnexpectedHeader("content-length"))
    ));
}

#[test]
fn partial_response_head_is_refused() {
    assert!(matches!(
        decode_response_head(b"HTTP/1.1 200 OK\r\n", DATE),
        Err(ClientError::PartialHead)
    ));
}

#[test]
fn unknown_status_is_refused() {
    assert!(matches!(
        decode_response_head(b"HTTP/1.1 299 Odd\r\n\r\n", DATE),
        Err(ClientError::UnrecognizedStatusCode(299))
    ));
}

#[test]
fn http_1_0_response_is_refused() {
    assert!(matches!(
        decode_response_head(b"HTTP/1.0 200 OK\r\n\r\n", DATE),
        Err(ClientError::UnsupportedVersion(0))
    ));
}

#[test]
fn malformed_content_length_is_refused() {
    assert!(matches!(
        decode_response_head(b"HTTP/1.1 200 OK\r\ncontent-length: 1x\r\n\r\n", DATE),
        Err(ClientError::MalformedHeader("content-length"))
    ));
}

#[test]
fn non_ascii_response_header_is_refused() {
    let head = "HTTP/1.1 200 OK\r\nx-name: \u{e5}\r\n\r\n";
    assert!(matches!(
        decode_response_head(head.as_bytes(), DATE),
        Err(ClientError::NonAsciiHeaderValue)
    ));
}

#[test]
fn garbage_head_is_refused_by_the_parser() {
    assert!(matches!(decode_response_head(b"NOT HTTP\r\n\r\n", DATE), Err(ClientError::Head(_))));
}

/// The parts of a request with these URL parts, no body and no headers.
fn parts(method: &str, path: &str, query: Option<&str>, host: Option<&str>, port: Option<u16>, known_port: Option<u16>) -> RequestParts {
    RequestParts {
        method: method.as_bytes().to_vec(),
        path: path.as_bytes().to_vec(),
        query: query.map(|q| q.as_bytes().to_vec()),
        host: host.map(|h| h.as_bytes().to_vec()),
        port,
        known_port,
        len: Some(0),
        headers: Vec::new(),
    }
}

/// Reads the whole request out of `e` through buffers of `len` bytes, as a reader of the
/// encoder does, with the body taken from the cursor the encoder holds.
fn encode_to_string(mut e: Encoder<(Vec<u8>, usize)>, len: usize) -> String {
    let mut out = Vec::new();
    loop {
        let mut buf = vec![0u8; len];
        let n = e.read_head(&mut buf);
        let mut total = n;
        if !e.is_body_done() {
            let (body, pos) = e.request_mut();
            let k = std::cmp::min(body.len() - *pos, len - n);
            buf[n..n + k].copy_from_slice(&body[*pos..*pos + k]);
            *pos += k;
            total = e.body_read(n, k);
        }
        out.extend_from_slice(&buf[..total]);
        if total == 0 {
            return String::from_utf8(out).unwrap();
        }
    }
}

#[test]
fn client_encode_request_add_date() {
    let mut req = parts("POST", "/", None, Some("localhost"), Some(8080), Some(8080));
    req.len = Some(5);
    req.headers.push(HeaderEntry {
        name: b"content-type".to_vec(),
        values: vec![b"text/plain;charset=utf-8".to_vec()],
    });
    let e = encode(&req, (b"hello".to_vec(), 0)).unwrap();
    assert_eq!(
        encode_to_string(e, 100),
        "POST / HTTP/1.1\r\n\
         host: localhost:8080\r\n\
         content-length: 5\r\n\
         content-type: text/plain;charset=utf-8\r\n\
         \r\n\
         hello"
    );
}

#[test]
fn client_encode_request_with_connect() {
    let req = parts("CONNECT", "/", None, Some("example.com"), None, Some(443));
    let e = encode(&req, (Vec::new(), 0)).unwrap();
    assert_eq!(
        encode_to_string(e, 100),
        "CONNECT example.com:443 HTTP/1.1\r\n\
         host: example.com\r\n\
         proxy-connection: keep-alive\r\n\
         content-length: 0\r\n\
         \r\n"
    );
}

#[test]
fn client_encode_request_with_fragment() {
    // The fragment is not among the parts: it is never sent.
    let req = parts("GET", "/path", Some("query"), Some("example.com"), None, Some(80));
    let e = encode(&req, (Vec::new(), 0)).unwrap();
    assert_eq!(
        encode_to_string(e, 10),
        "GET /path?query HTTP/1.1\r\n\
         host: example.com\r\n\
         content-length: 0\r\n\
         \r\n"
    );
}

#[test]
fn own_host_header_is_kept() {
    let mut req = parts("GET", "/", None, None, None, None);
    req.headers.push(HeaderEntry { name: b"Host".to_vec(), values: vec![b"a.com".to_vec()] });
    let e = encode(&req, (Vec::new(), 0)).unwrap();
    assert_eq!(encode_to_string(e, 7), "GET / HTTP/1.1\r\ncontent-length: 0\r\nHost: a.com\r\n\r\n");
}

#[test]
fn encode_errors() {
    let req = parts("GET", "/", None, None, None, None);
    assert_eq!(encode(&req, (Vec::<u8>::new(), 0usize)).err(), Some(EncodeError::MissingHostname));
    let req = parts("CONNECT", "/", None, None, None, Some(443));
    assert_eq!(encode(&req, (Vec::<u8>::new(), 0usize)).err(), Some(EncodeError::MissingHostname));
    let req = parts("CONNECT", "/", None, Some("example.com"), None, None);
    assert_eq!(encode(&req, (Vec::<u8>::new(), 0usize)).err(), Some(EncodeError::MissingPort));
}

#[test]
fn encoder_body_is_over_after_an_empty_read() {
    let mut req = parts("POST", "/", None, Some("a.com"), None, Some(80));
    req.len = Some(5);
    let mut e = encode(&req, (b"hello".to_vec(), 0)).unwrap();
    let mut buf = vec![0u8; 200];
    let n = e.read_head(&mut buf);
    assert_eq!(n, "POST / HTTP/1.1\r\nhost: a.com\r\ncontent-length: 5\r\n\r\n".len());
    assert_eq!(e.body_read(0, 5), 5);
    assert!(!e.is_body_done());
    assert_eq!(e.body_read(0, 0), 0);
    assert!(e.is_body_done());
}

#[test]
fn user_agent_is_added_only_when_missing() {
    let mut headers = vec![HeaderEntry { name: b"accept".to_vec(), values: vec![b"*/*".to_vec()] }];
    add_user_agent(&mut headers, b"agent/1");
    assert_eq!(headers.len(), 2);
    assert_eq!(headers[1].name, b"user-agent".to_vec());
    assert_eq!(headers[1].values, vec![b"agent/1".to_vec()]);
    let mut headers = vec![HeaderEntry { name: b"User-Agent".to_vec(), values: vec![b"mine".to_vec()] }];
    add_user_agent(&mut headers, b"agent/1");
    assert_eq!(headers.len(), 1);
    assert_eq!(headers[0].values, vec![b"mine".to_vec()]);
}

#[test]
fn known_status_codes_follow_the_table() {
    for code in [103u16, 226, 418, 451, 511] {
        let head = format!("HTTP/1.1 {} X\r\ncontent-length: 0\r\n\r\n", code);
        assert_eq!(decode_response_head(head.as_bytes(), DATE).unwrap().status, code);
    }
    for code in [102u16, 208, 305, 419, 509] {
        let head = format!("HTTP/1.1 {} X\r\ncontent-length: 0\r\n\r\n", code);
        assert!(matches!(
            decode_response_head(head.as_bytes(), DATE),
            Err(ClientError::UnrecognizedStatusCode(c)) if c == code
        ));
    }
}
