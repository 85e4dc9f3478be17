use async_h1::sequenced::Standing;
use async_h1::body::Body;
use async_h1::bytes::{eq_ignore_ascii_case, parse_u64, trim_bounds, IntError};
use async_h1::digits::{decimal_digits, hex_upper};
use async_h1::error::HttpError;
use async_h1::head::{content_length, find_first, find_last, RawHeader};
use async_h1::read_notifier::{Notice, ReadNotifier};

#[test]
fn body_lengths() {
    assert_eq!(Body::new(()).len(), None);
    assert_eq!(Body::new_with_size((), 12).len(), Some(12));
    assert_eq!(Body::empty(()).len(), Some(0));
    assert_eq!(Body::new_with_size(7u8, 1).into_reader(), 7u8);
}

#[test]
fn body_from_bytes_and_string() {
    let b = Body::from_bytes(b"hello".to_vec());
    assert_eq!(b.len(), Some(5));
    assert_eq!(b.into_reader().into_inner(), b"hello".to_vec());
    let s = Body::from_string("h\u{e9}llo".to_string());
    assert_eq!(s.len(), Some(6));
    let cursor = s.into_reader();
    assert_eq!(cursor.position(), 0);
    assert_eq!(cursor.into_inner(), "h\u{e9}llo".as_bytes().to_vec());
}

#[test]
fn read_notifier_sends_once() {
    let (s, r) = async_channel::bounded(1);
    let mut n = ReadNotifier::new(&b"body"[..], s);
    assert!(n.wants_notice());
    assert_eq!(n.notify_read(), Notice::Sent);
    assert!(!n.wants_notice());
    assert_eq!(n.notify_read(), Notice::AlreadySent);
    assert_eq!(r.try_recv(), Ok(()));
    assert!(r.try_recv().is_err());
    assert_eq!(*n.reader_mut(), &b"body"[..]);
}

#[test]
fn read_notifier_retries_while_channel_is_full() {
    let (s, r) = async_channel::bounded(1);
    s.try_send(()).unwrap();
    let mut n = ReadNotifier::new((), s);
    assert_eq!(n.notify_read(), Notice::NotTaken);
    assert!(n.wants_notice());
    r.try_recv().unwrap();
    assert_eq!(n.notify_read(), Notice::Sent);
}

#[test]
fn http_error_description() {
    assert_eq!(
        HttpError::UnexpectedContentLengthHeader.description(),
        "unexpected content-length header"
    );
}

#[test]
fn numbers_in_text() {
    assert_eq!(hex_upper(0), b"0".to_vec());
    assert_eq!(hex_upper(0xBEEF), b"BEEF".to_vec());
    assert_eq!(decimal_digits(0), b"0".to_vec());
    assert_eq!(decimal_digits(18446744073709551615), b"18446744073709551615".to_vec());
    assert_eq!(parse_u64(b"42"), Ok(42));
    assert_eq!(parse_u64(b"+7"), Ok(7));
    assert_eq!(parse_u64(b""), Err(IntError::Empty));
    assert_eq!(parse_u64(b"4x"), Err(IntError::InvalidDigit));
    assert_eq!(parse_u64(b"18446744073709551616"), Err(IntError::PosOverflow));
}

#[test]
fn ascii_helpers() {
    assert!(eq_ignore_ascii_case(b"Content-Length", b"content-length"));
    assert!(!eq_ignore_ascii_case(b"abc", b"abd"));
    assert_eq!(trim_bounds(b"  x y \t"), (2, 5));
}

fn header(name: &str, value: &str) -> RawHeader {
    RawHeader { name: name.as_bytes().to_vec(), value: value.as_bytes().to_vec() }
}

#[test]
fn header_lookup_ignores_case() {
    let hs = vec![header("Host", "a"), header("x", "1"), header("HOST", "b")];
    assert_eq!(find_first(&hs, b"host"), Some(0));
    assert_eq!(find_last(&hs, b"host"), Some(2));
    assert_eq!(find_first(&hs, b"date"), None);
}

#[test]
fn last_content_length_wins() {
    let hs = vec![header("content-length", "5"), header("Content-Length", " 7 ")];
    assert_eq!(content_length(&hs), Ok(Some(7)));
    assert_eq!(content_length(&vec![header("x", "1")]), Ok(None));
    assert_eq!(content_length(&vec![header("content-length", "-1")]), Err(IntError::InvalidDigit));
}

#[test]
fn sequenced_standing_decisions() {
    let mut s = Standing::Active { poisoned: false };
    assert!(s.usable());
    s.set_poisoned(true);
    assert_eq!(s, Standing::Active { poisoned: true });
    assert!(!s.usable());
    assert!(s.may_consume(0));
    assert!(!s.may_consume(1));
    s.cure();
    assert!(s.usable());
    let mut w = Standing::Waiting { poisoned: None };
    w.set_poisoned(true);
    assert_eq!(w, Standing::Waiting { poisoned: Some(true) });
    assert!(!w.usable());
    let mut e = Standing::Empty;
    e.set_poisoned(true);
    assert_eq!(e, Standing::Empty);
    assert_eq!(
        Standing::after_wait(Some(true), Standing::Active { poisoned: false }),
        Standing::Active { poisoned: true }
    );
    assert_eq!(
        Standing::after_wait(None, Standing::Active { poisoned: true }),
        Standing::Active { poisoned: true }
    );
    assert_eq!(Standing::after_wait(Some(false), Standing::Empty), Standing::Empty);
}

#[test]
fn body_reader_can_be_borrowed() {
    let mut b = Body::new_with_size(vec![1u8, 2], 2);
    b.reader_mut().push(3);
    assert_eq!(b.len(), Some(2));
    assert_eq!(b.into_reader(), vec![1u8, 2, 3]);
}

#[test]
fn read_notifier_records_attempts() {
    let (s, _r) = async_channel::bounded(1);
    let mut n = ReadNotifier::new((), s);
    assert!(!n.record_attempt(false));
    assert!(n.record_attempt(true));
    assert!(!n.record_attempt(true));
    assert_eq!(n.notify_read(), Notice::AlreadySent);
}
