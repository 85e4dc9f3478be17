//! A message body: a reader, and the body's length where it is known ahead of time.
use vstd::prelude::*;
use async_std::io::Cursor;
use vstd::utf8::encode_utf8;
use crate::bytes::copy_bytes;

verus! {

#[verifier::external_type_specification]
#[verifier::external_body]
#[verifier::reject_recursive_types(T)]
pub struct ExCursor<T>(Cursor<T>);

/// The bytes that a cursor over a byte vector holds.
pub uninterp spec fn cursor_bytes(c: Cursor<Vec<u8>>) -> Seq<u8>;

/// Where in its bytes a cursor over a byte vector stands.
pub uninterp spec fn cursor_position(c: Cursor<Vec<u8>>) -> nat;

/// Calls `async_std::io::Cursor::new`, which, as its documentation says, wraps `bytes`
/// with its position at the start.
#[verifier::external_body]
fn new_cursor(bytes: Vec<u8>) -> (c: Cursor<Vec<u8>>)
    ensures
        cursor_bytes(c) == bytes@,
        cursor_position(c) == 0,
{
    Cursor::new(bytes)
}

/// A streaming HTTP body.
#[derive(Debug)]
pub struct Body<R> {
    reader: R,
    length: Option<usize>,
}

impl<R> Body<R> {
    /// The reader the body is read from.
    pub closed spec fn reader(&self) -> R {
        self.reader
    }

    /// The body's length, where it is known ahead of time.
    pub closed spec fn length(&self) -> Option<usize> {
        self.length
    }

    /// Create a new instance from a reader.
    ///
    /// Because the size of a stream is not known ahead of time, we have to use
    /// `Transfer-Encoding: Chunked`.
    pub fn new(reader: R) -> (b: Self)
        ensures
            b.reader() == reader,
            b.length() is None,
    {
        Body { reader, length: None }
    }

    /// Create a new instance from a reader with a known size.
    pub fn new_with_size(reader: R, size: usize) -> (b: Self)
        ensures
            b.reader() == reader,
            b.length() == Some(size),
    {
        Body { reader, length: Some(size) }
    }

    /// Create a new empty body.
    pub fn empty(reader: R) -> (b: Self)
        ensures
            b.reader() == reader,
            b.length() == Some(0usize),
    {
        Body { reader, length: Some(0) }
    }

    /// Get the length of the body, if it has been set.
    ///
    /// The body length is only set for non-streaming types. If a type is streaming the
    /// amount of bytes sent needs to be calculated from the output stream.
    pub fn len(&self) -> (n: Option<usize>)
        ensures
            n == self.length(),
    {
        self.length
    }

    /// The reader, to read the body from.
    pub fn reader_mut(&mut self) -> (r: &mut R)
        ensures
            *r == old(self).reader(),
            final(self).reader() == *final(r),
            final(self).length() == old(self).length(),
    {
        &mut self.reader
    }

    /// The reader the body is read from.
    pub fn into_reader(self) -> (r: R)
        ensures
            r == self.reader(),
    {
        self.reader
    }
}

impl Body<Cursor<Vec<u8>>> {
    /// Create a new instance from a string.
    pub fn from_string(string: String) -> (b: Self)
        ensures
            b.length() == Some(encode_utf8(string@).len() as usize),
            cursor_bytes(b.reader()) == encode_utf8(string@),
            cursor_position(b.reader()) == 0,
    {
        let bytes = copy_bytes(string.as_str().as_bytes());
        Body::from_bytes(bytes)
    }

    /// Create a new instance from bytes.
    pub fn from_bytes(bytes: Vec<u8>) -> (b: Self)
        ensures
            b.length() == Some(bytes@.len() as usize),
            cursor_bytes(b.reader()) == bytes@,
            cursor_position(b.reader()) == 0,
    {
        let length = bytes.len();
        Body { reader: new_cursor(bytes), length: Some(length) }
    }
}

} // verus!
