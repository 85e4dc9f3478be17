//! An encoder for the chunked transfer coding.
use vstd::prelude::*;
use crate::digits::{hex, hex_upper};

verus! {

/// A chunk as it is sent: its size in hexadecimal, CRLF, its bytes, CRLF.
pub open spec fn chunk_frame(data: Seq<u8>) -> Seq<u8> {
    hex(data.len()) + seq![13u8, 10u8] + data + seq![13u8, 10u8]
}

/// An encoder for chunked encoding: frames what is read from `reader`, and ends the
/// body with the empty chunk once `reader` is exhausted.
#[derive(Debug)]
pub struct ChunkedEncoder<R> {
    reader: R,
    done: bool,
}

impl<R> ChunkedEncoder<R> {
    /// Whether the empty chunk has been sent.
    pub closed spec fn finished(&self) -> bool {
        self.done
    }

    /// The reader whose bytes are framed.
    pub closed spec fn source(&self) -> R {
        self.reader
    }

    /// Create a new instance.
    pub fn new(reader: R) -> (e: Self)
        ensures
            !e.finished(),
            e.source() == reader,
    {
        ChunkedEncoder { reader, done: false }
    }

    /// Whether the empty chunk has been sent, after which every read gives nothing.
    pub fn is_done(&self) -> (b: bool)
        ensures
            b == self.finished(),
    {
        self.done
    }

    /// The reader, to read the next chunk's bytes from.
    pub fn reader_mut(&mut self) -> (r: &mut R)
        ensures
            *r == old(self).source(),
            final(self).source() == *final(r),
            final(self).finished() == old(self).finished(),
    {
        &mut self.reader
    }

    /// Frames the `bytes` bytes that were read into the front of `buf`; returns the
    /// length of the frame, which now fills the front of `buf`. A read of nothing is the
    /// empty chunk, which ends the body.
    pub fn frame(&mut self, buf: &mut Vec<u8>, bytes: usize) -> (total: usize)
        requires
            bytes + hex(bytes as nat).len() + 4 <= old(buf)@.len(),
        ensures
            total == bytes + hex(bytes as nat).len() + 4,
            final(buf)@ == chunk_frame(old(buf)@.take(bytes as int)) + old(buf)@.skip(
                total as int,
            ),
            final(self).finished() == (old(self).finished() || bytes == 0),
            final(self).source() == old(self).source(),
    {
        if bytes == 0 {
            self.done = true;
        }
        let start = hex_upper(bytes as u64);
        assert(start@ == hex(bytes as nat));
        // Bounds the buffer's length by `usize::MAX`.
        let _buf_len = buf.len();
        let start_length = start.len();
        let total = bytes + start_length + 4;
        let mut out: Vec<u8> = Vec::with_capacity(buf.len());
        let mut i: usize = 0;
        while i < start_length
            invariant
                0 <= i <= start_length,
                start_length == start@.len(),
                out@ == start@.take(i as int),
            decreases start_length - i,
        {
            out.push(start[i]);
            i = i + 1;
            assert(start@.take(i as int) =~= start@.take(i - 1).push(start@[i - 1]));
        }
        out.push(13u8);
        out.push(10u8);
        let ghost head = out@;
        assert(head =~= start@ + seq![13u8, 10u8]);
        let mut j: usize = 0;
        while j < bytes
            invariant
                0 <= j <= bytes,
                bytes <= buf@.len(),
                buf@ == old(buf)@,
                out@ == head + buf@.take(j as int),
            decreases bytes - j,
        {
            out.push(buf[j]);
            j = j + 1;
            assert(buf@.take(j as int) =~= buf@.take(j - 1).push(buf@[j - 1]));
        }
        out.push(13u8);
        out.push(10u8);
        let ghost framed = out@;
        assert(framed =~= chunk_frame(old(buf)@.take(bytes as int)));
        let mut k: usize = total;
        while k < buf.len()
            invariant
                total <= k <= buf@.len(),
                buf@ == old(buf)@,
                framed.len() == total,
                out@ == framed + buf@.subrange(total as int, k as int),
            decreases buf@.len() - k,
        {
            out.push(buf[k]);
            k = k + 1;
            assert(buf@.subrange(total as int, k as int) =~= buf@.subrange(
                total as int,
                k - 1,
            ).push(buf@[k - 1]));
        }
        assert(buf@.subrange(total as int, buf@.len() as int) =~= old(buf)@.skip(total as int));
        *buf = out;
        total
    }
}

} // verus!
