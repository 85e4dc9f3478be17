//! Decodes a chunked body according to
//! https://tools.ietf.org/html/rfc7230#section-4.1
use vstd::prelude::*;
use vstd::slice::slice_subrange;
use crate::chunked::joined;
use crate::head::{HeaderBlock, HeaderBlockView, RawHeader, header_block_of, parse_header_block, raw_headers_view};

verus! {

/// The largest chunk size the decoder accepts.
pub const MAX_CHUNK_SIZE: u64 = 0x0FFF_FFFF_FFFF_FFFF;

/// Where the reader of a chunk-size line stands.
#[derive(Debug, Clone, Copy, PartialEq, Eq, Structural)]
pub enum ChunkSizeState {
    /// Reading the hexadecimal digits of the size.
    ChunkSize,
    /// After a `;` that opens a chunk extension: its name comes next.
    Extension,
    /// Inside the name of a chunk extension.
    ExtName,
    /// After the `=` of a chunk extension: its value comes next.
    ExtValue,
    /// Inside a value of a chunk extension written as a token.
    ExtToken,
    /// Inside a value of a chunk extension written as a quoted string.
    ExtQuoted,
    /// After a backslash inside a quoted value.
    ExtQuotedPair,
    /// After the closing quote of a quoted value.
    ExtQuotedEnd,
    /// After the CR that ends the line.
    NewLine,
}

/// Why a chunked body could not be decoded.
#[derive(Debug, Clone, Copy, PartialEq, Eq, Structural)]
pub enum DecodeError {
    /// A chunk-size line holds a byte it may not hold, or a size too large.
    InvalidChunkSize,
    /// The line end after a chunk, or after the last chunk, is not CRLF.
    InvalidData,
    /// The stream ended inside the body.
    UnexpectedEof,
    /// The trailer is not a valid block of header lines.
    Header(crate::head::HeadError),
}

/// The value of a hexadecimal digit.
pub open spec fn hex_value(c: u8) -> Option<u8> {
    if 48 <= c <= 57 {
        Some((c - 48) as u8)
    } else if 97 <= c <= 102 {
        Some((c - 87) as u8)
    } else if 65 <= c <= 70 {
        Some((c - 55) as u8)
    } else {
        None
    }
}

/// A size with one more hexadecimal digit appended.
pub open spec fn shifted_size(size: u64, d: u8) -> u64 {
    ((size << 4u64) + d) as u64
}

/// What one byte does to the reader of a chunk-size line, before the size is bounded.
pub enum SizeByte {
    Bad,
    Done,
    Next(u64, ChunkSizeState),
}

/// A `tchar` of RFC 7230, 3.2.6: a byte that may stand in a token.
pub open spec fn is_tchar(c: u8) -> bool {
    (48 <= c <= 57) || (65 <= c <= 90) || (97 <= c <= 122) || c == 33 || (35 <= c <= 39) || c
        == 42 || c == 43 || c == 45 || c == 46 || (94 <= c <= 96) || c == 124 || c == 126
}

/// A byte that may stand unescaped in a quoted string (`qdtext`, RFC 7230, 3.2.6).
pub open spec fn is_qdtext(c: u8) -> bool {
    c == 9 || c == 32 || c == 33 || (35 <= c <= 91) || (93 <= c <= 126) || c >= 128
}

/// A byte that may follow a backslash in a quoted string (`quoted-pair`).
pub open spec fn is_pair_byte(c: u8) -> bool {
    c == 9 || (32 <= c <= 126) || c >= 128
}

/// What one byte does inside the chunk extensions of a chunk-size line, which follow the
/// grammar of RFC 7230, 4.1.1 (`*( ";" chunk-ext-name [ "=" chunk-ext-val ] )`); a `;`
/// right before the line end is taken too. `None` where the byte may not stand there.
pub open spec fn ext_byte(state: ChunkSizeState, c: u8) -> Option<ChunkSizeState> {
    match state {
        ChunkSizeState::Extension => if is_tchar(c) {
            Some(ChunkSizeState::ExtName)
        } else if c == 13 {
            Some(ChunkSizeState::NewLine)
        } else {
            None
        },
        ChunkSizeState::ExtName => if is_tchar(c) {
            Some(ChunkSizeState::ExtName)
        } else if c == 59 {
            Some(ChunkSizeState::Extension)
        } else if c == 61 {
            Some(ChunkSizeState::ExtValue)
        } else if c == 13 {
            Some(ChunkSizeState::NewLine)
        } else {
            None
        },
        ChunkSizeState::ExtValue => if is_tchar(c) {
            Some(ChunkSizeState::ExtToken)
        } else if c == 34 {
            Some(ChunkSizeState::ExtQuoted)
        } else {
            None
        },
        ChunkSizeState::ExtToken => if is_tchar(c) {
            Some(ChunkSizeState::ExtToken)
        } else if c == 59 {
            Some(ChunkSizeState::Extension)
        } else if c == 13 {
            Some(ChunkSizeState::NewLine)
        } else {
            None
        },
        ChunkSizeState::ExtQuoted => if c == 34 {
            Some(ChunkSizeState::ExtQuotedEnd)
        } else if c == 92 {
            Some(ChunkSizeState::ExtQuotedPair)
        } else if is_qdtext(c) {
            Some(ChunkSizeState::ExtQuoted)
        } else {
            None
        },
        ChunkSizeState::ExtQuotedPair => if is_pair_byte(c) {
            Some(ChunkSizeState::ExtQuoted)
        } else {
            None
        },
        ChunkSizeState::ExtQuotedEnd => if c == 59 {
            Some(ChunkSizeState::Extension)
        } else if c == 13 {
            Some(ChunkSizeState::NewLine)
        } else {
            None
        },
        _ => None,
    }
}

/// Whether `c` is a `tchar`.
fn tchar(c: u8) -> (r: bool)
    ensures
        r == is_tchar(c),
{
    (48 <= c && c <= 57) || (65 <= c && c <= 90) || (97 <= c && c <= 122) || c == 33 || (35 <= c
        && c <= 39) || c == 42 || c == 43 || c == 45 || c == 46 || (94 <= c && c <= 96) || c == 124
        || c == 126
}

/// The state after the byte `c` inside the chunk extensions, as `ext_byte` says.
pub fn ext_step(state: ChunkSizeState, c: u8) -> (r: Option<ChunkSizeState>)
    ensures
        r == ext_byte(state, c),
{
    match state {
        ChunkSizeState::Extension => if tchar(c) {
            Some(ChunkSizeState::ExtName)
        } else if c == 13 {
            Some(ChunkSizeState::NewLine)
        } else {
            None
        },
        ChunkSizeState::ExtName => if tchar(c) {
            Some(ChunkSizeState::ExtName)
        } else if c == 59 {
            Some(ChunkSizeState::Extension)
        } else if c == 61 {
            Some(ChunkSizeState::ExtValue)
        } else if c == 13 {
            Some(ChunkSizeState::NewLine)
        } else {
            None
        },
        ChunkSizeState::ExtValue => if tchar(c) {
            Some(ChunkSizeState::ExtToken)
        } else if c == 34 {
            Some(ChunkSizeState::ExtQuoted)
        } else {
            None
        },
        ChunkSizeState::ExtToken => if tchar(c) {
            Some(ChunkSizeState::ExtToken)
        } else if c == 59 {
            Some(ChunkSizeState::Extension)
        } else if c == 13 {
            Some(ChunkSizeState::NewLine)
        } else {
            None
        },
        ChunkSizeState::ExtQuoted => if c == 34 {
            Some(ChunkSizeState::ExtQuotedEnd)
        } else if c == 92 {
            Some(ChunkSizeState::ExtQuotedPair)
        } else if c == 9 || c == 32 || c == 33 || (35 <= c && c <= 91) || (93 <= c && c <= 126)
            || c >= 128 {
            Some(ChunkSizeState::ExtQuoted)
        } else {
            None
        },
        ChunkSizeState::ExtQuotedPair => if c == 9 || (32 <= c && c <= 126) || c >= 128 {
            Some(ChunkSizeState::ExtQuoted)
        } else {
            None
        },
        ChunkSizeState::ExtQuotedEnd => if c == 59 {
            Some(ChunkSizeState::Extension)
        } else if c == 13 {
            Some(ChunkSizeState::NewLine)
        } else {
            None
        },
        _ => None,
    }
}

pub open spec fn size_byte(size: u64, state: ChunkSizeState, c: u8) -> SizeByte {
    match state {
        ChunkSizeState::ChunkSize => match hex_value(c) {
            Some(d) => SizeByte::Next(shifted_size(size, d), state),
            None => if c == 59 {
                SizeByte::Next(size, ChunkSizeState::Extension)
            } else if c == 13 {
                SizeByte::Next(size, ChunkSizeState::NewLine)
            } else {
                SizeByte::Bad
            },
        },
        ChunkSizeState::NewLine => if c == 10 {
            SizeByte::Done
        } else {
            SizeByte::Bad
        },
        _ => match ext_byte(state, c) {
            Some(st) => SizeByte::Next(size, st),
            None => SizeByte::Bad,
        },
    }
}

/// Where reading a chunk-size line from a buffer ends.
pub enum SizeScan {
    /// The line is invalid; the size and state as they were left.
    Failed { size: u64, state: ChunkSizeState },
    /// The line ended after `used` bytes with this size.
    Finished { used: nat, size: u64 },
    /// The buffer ended first.
    Unfinished { size: u64, state: ChunkSizeState },
}

/// The same outcome, with `n` more bytes used before it.
pub open spec fn scan_after(r: SizeScan, n: nat) -> SizeScan {
    match r {
        SizeScan::Finished { used, size } => SizeScan::Finished { used: used + n, size },
        _ => r,
    }
}

/// Reading a chunk-size line from `buf`, one byte at a time.
pub open spec fn scan_chunk_size(buf: Seq<u8>, size: u64, state: ChunkSizeState) -> SizeScan
    decreases buf.len(),
{
    if buf.len() == 0 {
        SizeScan::Unfinished { size, state }
    } else {
        match size_byte(size, state, buf[0]) {
            SizeByte::Bad => SizeScan::Failed { size, state },
            SizeByte::Done => SizeScan::Finished { used: 1, size },
            SizeByte::Next(s, st) => if s > MAX_CHUNK_SIZE {
                SizeScan::Failed { size: s, state: st }
            } else {
                scan_after(scan_chunk_size(buf.drop_first(), s, st), 1)
            },
        }
    }
}

proof fn lemma_shift_no_overflow(size: u64)
    ensures
        (size << 4u64) <= 0xFFFF_FFFF_FFFF_FFF0u64,
{
    assert((size << 4u64) <= 0xFFFF_FFFF_FFFF_FFF0u64) by (bit_vector);
}

/// Reads a chunk-size line from `buf`, continuing from `size` and `state`. Returns the
/// bytes used and whether the line ended.
pub fn read_chunk_size(buf: &[u8], size: &mut u64, state: &mut ChunkSizeState) -> (r: Result<
    (usize, bool),
    DecodeError,
>)
    ensures
        match scan_chunk_size(buf@, *old(size), *old(state)) {
            SizeScan::Failed { size: s, state: st } => r == Err::<(usize, bool), DecodeError>(
                DecodeError::InvalidChunkSize,
            ) && *final(size) == s && *final(state) == st,
            SizeScan::Finished { used, size: s } => r == Ok::<(usize, bool), DecodeError>(
                (used as usize, true),
            ) && *final(size) == s && *final(state) == ChunkSizeState::NewLine,
            SizeScan::Unfinished { size: s, state: st } => r == Ok::<(usize, bool), DecodeError>(
                (buf.len(), false),
            ) && *final(size) == s && *final(state) == st,
        },
{
    let mut offset: usize = 0;
    assert(buf@.skip(0) =~= buf@);
    while offset < buf.len()
        invariant
            0 <= offset <= buf.len(),
            scan_chunk_size(buf@, *old(size), *old(state)) == scan_after(
                scan_chunk_size(buf@.skip(offset as int), *size, *state),
                offset as nat,
            ),
        decreases buf.len() - offset,
    {
        let c = buf[offset];
        let ghost rest = buf@.skip(offset as int);
        assert(rest[0] == c);
        assert(rest.drop_first() =~= buf@.skip(offset + 1));
        match *state {
            ChunkSizeState::ChunkSize => {
                if 48u8 <= c && c <= 57u8 {
                    proof { lemma_shift_no_overflow(*size); }
                    *size = (*size << 4) + (c - 48u8) as u64;
                } else if 97u8 <= c && c <= 102u8 {
                    proof { lemma_shift_no_overflow(*size); }
                    *size = (*size << 4) + (c + 10 - 97u8) as u64;
                } else if 65u8 <= c && c <= 70u8 {
                    proof { lemma_shift_no_overflow(*size); }
                    *size = (*size << 4) + (c + 10 - 65u8) as u64;
                } else if c == 59u8 {
                    *state = ChunkSizeState::Extension;
                } else if c == 13u8 {
                    *state = ChunkSizeState::NewLine;
                } else {
                    return Err(DecodeError::InvalidChunkSize);
                }
            },
            ChunkSizeState::NewLine => {
                if c == 10u8 {
                    return Ok((offset + 1, true));
                } else {
                    return Err(DecodeError::InvalidChunkSize);
                }
            },
            _ => {
                match ext_step(*state, c) {
                    Some(st) => *state = st,
                    None => return Err(DecodeError::InvalidChunkSize),
                }
            },
        }
        if *size > MAX_CHUNK_SIZE {
            return Err(DecodeError::InvalidChunkSize);
        }
        offset = offset + 1;
    }
    assert(buf@.skip(offset as int).len() == 0);
    Ok((buf.len(), false))
}


pub proof fn lemma_scan_finished_used(buf: Seq<u8>, size: u64, state: ChunkSizeState)
    ensures
        scan_chunk_size(buf, size, state) matches SizeScan::Finished { used, .. } ==> 1 <= used
            <= buf.len(),
    decreases buf.len(),
{
    if buf.len() > 0 {
        if let SizeByte::Next(s, st) = size_byte(size, state, buf[0]) {
            if s <= MAX_CHUNK_SIZE {
                lemma_scan_finished_used(buf.drop_first(), s, st);
            }
        }
    }
}

/// Reading a chunk-size line resumes at any split of the input: reading `a + b` at once
/// ends as reading `a` does where that fails or finishes the line; where `a` leaves the
/// line unfinished, it ends as reading `b` from the size and state `a` left, with the
/// bytes of `a` counted as used.
pub proof fn lemma_scan_resumes(a: Seq<u8>, b: Seq<u8>, size: u64, state: ChunkSizeState)
    ensures
        scan_chunk_size(a + b, size, state) == match scan_chunk_size(a, size, state) {
            SizeScan::Unfinished { size: s, state: st } => scan_after(
                scan_chunk_size(b, s, st),
                a.len(),
            ),
            r => r,
        },
    decreases a.len(),
{
    if a.len() == 0 {
        assert(a + b =~= b);
    } else {
        assert((a + b)[0] == a[0]);
        assert((a + b).drop_first() =~= a.drop_first() + b);
        if let SizeByte::Next(s, st) = size_byte(size, state, a[0]) {
            if s <= MAX_CHUNK_SIZE {
                lemma_scan_resumes(a.drop_first(), b, s, st);
            }
        }
    }
}

/// Reading the framing around the chunks.
#[derive(Debug)]
pub enum ReadState {
    /// Reading the chunk-size line before a chunk.
    BeforeChunk { size: u64, inner: ChunkSizeState },
    /// Just finished reading the chunk data.
    AfterChunk { new_line: bool },
    /// Just read the line of the last chunk.
    MaybeTrailer { new_line: bool },
    /// Accumulating trailer lines into a buffer.
    Trailer { buffer: Vec<u8> },
}

/// The view of [`ReadState`].
pub enum ReadPhase {
    BeforeChunk { size: u64, inner: ChunkSizeState },
    AfterChunk { new_line: bool },
    MaybeTrailer { new_line: bool },
    Trailer { buffer: Seq<u8> },
}

impl View for ReadState {
    type V = ReadPhase;

    open spec fn view(&self) -> ReadPhase {
        match self {
            ReadState::BeforeChunk { size, inner } => ReadPhase::BeforeChunk {
                size: *size,
                inner: *inner,
            },
            ReadState::AfterChunk { new_line } => ReadPhase::AfterChunk { new_line: *new_line },
            ReadState::MaybeTrailer { new_line } => ReadPhase::MaybeTrailer {
                new_line: *new_line,
            },
            ReadState::Trailer { buffer } => ReadPhase::Trailer { buffer: buffer@ },
        }
    }
}

/// The state of a chunked decoder.
#[derive(Debug)]
pub enum DecoderState {
    /// Inside a chunk: `offset` of its `size` bytes are handed out.
    PassThrough { offset: u64, size: u64 },
    /// Reading the framing around a chunk.
    Read(ReadState),
    /// The trailer is decoded and waits to be sent.
    TrailerDone(Vec<RawHeader>),
    /// The trailer is being sent.
    TrailerSending,
    /// The body is over.
    Done,
}

/// The view of [`DecoderState`].
pub enum Phase {
    PassThrough { offset: u64, size: u64 },
    Read(ReadPhase),
    TrailerDone(Seq<(Seq<u8>, Seq<u8>)>),
    TrailerSending,
    Done,
}

impl View for DecoderState {
    type V = Phase;

    open spec fn view(&self) -> Phase {
        match self {
            DecoderState::PassThrough { offset, size } => Phase::PassThrough {
                offset: *offset,
                size: *size,
            },
            DecoderState::Read(rs) => Phase::Read(rs@),
            DecoderState::TrailerDone(headers) => Phase::TrailerDone(raw_headers_view(headers@)),
            DecoderState::TrailerSending => Phase::TrailerSending,
            DecoderState::Done => Phase::Done,
        }
    }
}

pub open spec fn phase_of(next: Option<DecoderState>) -> Option<Phase> {
    match next {
        Some(st) => Some(st@),
        None => None,
    }
}

/// What one call of `advance` does.
pub enum Advance {
    /// It failed, leaving the read state as given.
    Fail(DecodeError, ReadPhase),
    /// It used this many bytes, left this read state, and maybe moved the decoder on.
    Step(nat, ReadPhase, Option<Phase>),
}

/// One step of reading the framing from a non-empty buffer.
pub open spec fn advance_spec(rs: ReadPhase, buf: Seq<u8>) -> Advance {
    match rs {
        ReadPhase::BeforeChunk { size, inner } => match scan_chunk_size(buf, size, inner) {
            SizeScan::Failed { size: s, state: st } => Advance::Fail(
                DecodeError::InvalidChunkSize,
                ReadPhase::BeforeChunk { size: s, inner: st },
            ),
            SizeScan::Finished { used, size: s } => if s > 0 {
                Advance::Step(
                    used,
                    ReadPhase::BeforeChunk { size: s, inner: ChunkSizeState::NewLine },
                    Some(Phase::PassThrough { offset: 0, size: s }),
                )
            } else {
                Advance::Step(used, ReadPhase::MaybeTrailer { new_line: false }, None)
            },
            SizeScan::Unfinished { size: s, state: st } => Advance::Step(
                buf.len(),
                ReadPhase::BeforeChunk { size: s, inner: st },
                None,
            ),
        },
        ReadPhase::AfterChunk { new_line } => if !new_line && buf[0] == 13 {
            Advance::Step(1, ReadPhase::AfterChunk { new_line: true }, None)
        } else if new_line && buf[0] == 10 {
            Advance::Step(
                1,
                ReadPhase::BeforeChunk { size: 0, inner: ChunkSizeState::ChunkSize },
                None,
            )
        } else {
            Advance::Fail(DecodeError::InvalidData, rs)
        },
        ReadPhase::MaybeTrailer { new_line } => if !new_line && buf[0] == 13 {
            Advance::Step(1, ReadPhase::MaybeTrailer { new_line: true }, None)
        } else if new_line && buf[0] == 10 {
            Advance::Step(1, rs, Some(Phase::TrailerDone(Seq::empty())))
        } else if !new_line {
            Advance::Step(0, ReadPhase::Trailer { buffer: Seq::empty() }, None)
        } else {
            Advance::Fail(DecodeError::InvalidData, rs)
        },
        ReadPhase::Trailer { buffer } => {
            let b = buffer + buf;
            match header_block_of(b) {
                HeaderBlockView::Complete { used, headers } => Advance::Step(
                    if used > buffer.len() {
                        (used - buffer.len()) as nat
                    } else {
                        0
                    },
                    ReadPhase::Trailer { buffer: b },
                    Some(Phase::TrailerDone(headers)),
                ),
                HeaderBlockView::Partial => Advance::Step(
                    buf.len(),
                    ReadPhase::Trailer { buffer: b },
                    None,
                ),
                HeaderBlockView::Invalid(e) => Advance::Fail(
                    DecodeError::Header(e),
                    ReadPhase::Trailer { buffer: b },
                ),
            }
        },
    }
}

/// Steps of reading the framing, each offered the next of `parts`, until one moves the
/// decoder on: the bytes they used, added up, and where the decoder went; `None` where a
/// step failed.
pub open spec fn advance_run(rs: ReadPhase, parts: Seq<Seq<u8>>) -> Option<(nat, Option<Phase>)>
    decreases parts.len(),
{
    if parts.len() == 0 {
        Some((0, None))
    } else {
        match advance_spec(rs, parts[0]) {
            Advance::Fail(..) => None,
            Advance::Step(n, _, Some(p)) => Some((n, Some(p))),
            Advance::Step(n, rs2, None) => match advance_run(rs2, parts.drop_first()) {
                None => None,
                Some((m, p)) => Some((n + m, p)),
            },
        }
    }
}

/// A trailer that arrives in pieces, offered to the trailer state one after another, the
/// pieces before the last leaving the header block partial and the last completing it
/// after `used` bytes: the steps use, added up, exactly the `used` bytes of the block
/// beyond what the state already held, and hand over its headers.
pub proof fn lemma_trailer_split(buffer: Seq<u8>, parts: Seq<Seq<u8>>, used: nat, headers: Seq<(Seq<u8>, Seq<u8>)>)
    requires
        parts.len() > 0,
        forall|k: int| 1 <= k < parts.len() ==> header_block_of(buffer + joined(#[trigger] parts.take(k)))
            is Partial,
        header_block_of(buffer + joined(parts)) == (HeaderBlockView::Complete { used, headers }),
        buffer.len() + joined(parts.drop_last()).len() <= used,
    ensures
        advance_run(ReadPhase::Trailer { buffer }, parts) == Some(
            ((used - buffer.len()) as nat, Some(Phase::TrailerDone(headers))),
        ),
    decreases parts.len(),
{
    let p0 = parts[0];
    let more = parts.drop_first();
    assert(joined(parts) == p0 + joined(more));
    let b = buffer + p0;
    if parts.len() == 1 {
        assert(more.len() == 0);
        assert(joined(more) =~= Seq::<u8>::empty());
        assert(buffer + joined(parts) =~= b);
        assert(parts.drop_last().len() == 0);
        assert(joined(parts.drop_last()) =~= Seq::<u8>::empty());
    } else {
        assert(parts.take(1) =~= seq![p0]);
        assert(joined(seq![p0]) == p0 + joined(seq![p0].drop_first()));
        assert(seq![p0].drop_first() =~= Seq::<Seq<u8>>::empty());
        assert(joined(parts.take(1)) =~= p0);
        assert(buffer + joined(parts.take(1)) =~= b);
        assert(header_block_of(b) is Partial);
        assert forall|k: int| 1 <= k < more.len() implies header_block_of(
            b + joined(#[trigger] more.take(k)),
        ) is Partial by {
            let t = parts.take(k + 1);
            assert(t[0] == p0);
            assert(t.drop_first() =~= more.take(k));
            assert(joined(t) == p0 + joined(more.take(k)));
            assert(buffer + joined(t) =~= b + joined(more.take(k)));
        }
        assert(buffer + joined(parts) =~= b + joined(more));
        assert(parts.drop_last()[0] == p0);
        assert(parts.drop_last().drop_first() =~= more.drop_last());
        assert(joined(parts.drop_last()) == p0 + joined(more.drop_last()));
        lemma_trailer_split(b, more, used, headers);
    }
}

impl ReadState {
    /// Reads framing from the front of a non-empty `buf`; returns the bytes used and,
    /// once a chunk, the trailer or an error is reached, the decoder's next state.
    pub fn advance(&mut self, buf: &[u8]) -> (r: Result<(usize, Option<DecoderState>), DecodeError>)
        requires
            buf@.len() > 0,
        ensures
            match advance_spec(old(self)@, buf@) {
                Advance::Fail(e, rs) => r == Err::<(usize, Option<DecoderState>), DecodeError>(e)
                    && final(self)@ == rs,
                Advance::Step(n, rs, next) => r is Ok && r->Ok_0.0 == n && phase_of(r->Ok_0.1)
                    == next && final(self)@ == rs,
            },
    {
        match self {
            ReadState::BeforeChunk { size, inner } => {
                proof { lemma_scan_finished_used(buf@, *size, *inner); }
                let (amt, done) = match read_chunk_size(buf, size, inner) {
                    Ok(x) => x,
                    Err(e) => return Err(e),
                };
                if done {
                    if *size > 0 {
                        let s = *size;
                        Ok((amt, Some(DecoderState::PassThrough { offset: 0, size: s })))
                    } else {
                        *self = ReadState::MaybeTrailer { new_line: false };
                        Ok((amt, None))
                    }
                } else {
                    Ok((amt, None))
                }
            },
            ReadState::AfterChunk { new_line } => {
                if !*new_line && buf[0] == 13u8 {
                    *new_line = true;
                    Ok((1, None))
                } else if *new_line && buf[0] == 10u8 {
                    *self = ReadState::BeforeChunk { size: 0, inner: ChunkSizeState::ChunkSize };
                    Ok((1, None))
                } else {
                    Err(DecodeError::InvalidData)
                }
            },
            ReadState::MaybeTrailer { new_line } => {
                if !*new_line && buf[0] == 13u8 {
                    *new_line = true;
                    Ok((1, None))
                } else if *new_line && buf[0] == 10u8 {
                    let none: Vec<RawHeader> = Vec::new();
                    assert(raw_headers_view(none@) =~= Seq::empty());
                    Ok((1, Some(DecoderState::TrailerDone(none))))
                } else if !*new_line {
                    *self = ReadState::Trailer { buffer: Vec::new() };
                    Ok((0, None))
                } else {
                    Err(DecodeError::InvalidData)
                }
            },
            ReadState::Trailer { buffer } => {
                let ghost before = buffer@;
                let earlier = buffer.len();
                let mut i: usize = 0;
                while i < buf.len()
                    invariant
                        0 <= i <= buf.len(),
                        buffer@ == before + buf@.take(i as int),
                    decreases buf.len() - i,
                {
                    buffer.push(buf[i]);
                    i = i + 1;
                    assert(buf@.take(i as int) =~= buf@.take(i - 1) + seq![buf@[i - 1]]);
                }
                assert(buf@.take(buf.len() as int) =~= buf@);
                match parse_header_block(buffer.as_slice()) {
                    HeaderBlock::Complete { used, headers } => {
                        // Only the bytes of `buf` that the trailer takes are used here;
                        // the earlier ones were used by the calls that brought them.
                        let n = if used > earlier {
                            used - earlier
                        } else {
                            0
                        };
                        Ok((n, Some(DecoderState::TrailerDone(headers))))
                    },
                    HeaderBlock::Partial => Ok((buf.len(), None)),
                    HeaderBlock::Invalid(e) => Err(DecodeError::Header(e)),
                }
            },
        }
    }
}


/// The bytes of a buffer of length `len` not yet read at `read`.
pub open spec fn left(len: nat, read: nat) -> nat {
    if read < len {
        (len - read) as nat
    } else {
        0
    }
}

pub open spec fn read_rank(rs: ReadPhase) -> nat {
    match rs {
        ReadPhase::MaybeTrailer { .. } => 1,
        _ => 0,
    }
}

pub proof fn lemma_advance_progress(rs: ReadPhase, buf: Seq<u8>)
    requires
        buf.len() > 0,
    ensures
        advance_spec(rs, buf) matches Advance::Step(n, rs2, None) ==> n <= buf.len() && (n > 0 || (
        read_rank(rs) == 1 && read_rank(rs2) == 0)),
{
    if let ReadPhase::BeforeChunk { size, inner } = rs {
        lemma_scan_finished_used(buf, size, inner);
    }
}

/// What reading the framing from a buffer does, from byte `read` on.
pub enum Feed {
    /// It failed, leaving the read state as given.
    Fail(DecodeError, ReadPhase),
    /// It used the buffer up to this byte and left the decoder in this state.
    Moved(nat, Phase),
}

/// Reading the framing from `buf`, from byte `read` on, until the buffer is used or
/// the decoder moves to another state.
pub open spec fn feed(rs: ReadPhase, buf: Seq<u8>, read: nat) -> Feed
    decreases left(buf.len(), read), read_rank(rs),
{
    if read >= buf.len() {
        Feed::Moved(read, Phase::Read(rs))
    } else {
        let rest = buf.subrange(read as int, buf.len() as int);
        match advance_spec(rs, rest) {
            Advance::Fail(e, rs2) => Feed::Fail(e, rs2),
            Advance::Step(n, rs2, Some(p)) => Feed::Moved(read as nat + n, p),
            Advance::Step(n, rs2, None) => {
                proof {
                    lemma_advance_progress(rs, rest);
                }
                feed(rs2, buf, read + n)
            },
        }
    }
}

/// A count as a `usize`, held at `usize::MAX`.
pub open spec fn capped(n: nat) -> usize {
    if n <= usize::MAX {
        n as usize
    } else {
        usize::MAX
    }
}

/// A decoder state once a chunk that was handed out in full is left behind.
pub open spec fn settle(p: Phase) -> Phase {
    match p {
        Phase::PassThrough { offset, size } => if offset < size {
            p
        } else {
            Phase::Read(ReadPhase::AfterChunk { new_line: false })
        },
        _ => p,
    }
}

/// What the decoder needs next.
#[derive(Debug, Clone, Copy, PartialEq, Eq, Structural)]
pub enum Want {
    /// Part of a chunk is to be handed out from the inner reader's buffer.
    Yield,
    /// Framing is to be read from the inner reader's buffer.
    Read,
    /// The decoded trailer is to be sent.
    SendTrailers,
    /// The trailer is being sent.
    AwaitTrailers,
    /// The body is over.
    Finished,
}

pub open spec fn want_of(p: Phase) -> Want {
    match settle(p) {
        Phase::PassThrough { .. } => Want::Yield,
        Phase::Read(_) => Want::Read,
        Phase::TrailerDone(_) => Want::SendTrailers,
        Phase::TrailerSending => Want::AwaitTrailers,
        Phase::Done => Want::Finished,
    }
}

/// The state a decoder starts in.
pub open spec fn initial_phase() -> Phase {
    Phase::Read(ReadPhase::BeforeChunk { size: 0, inner: ChunkSizeState::ChunkSize })
}

/// Decodes a chunked body: a state machine that is handed the inner reader's buffered
/// bytes and says how many to consume and how many to pass on.
#[derive(Debug)]
pub struct ChunkedDecoder {
    state: DecoderState,
}

impl View for ChunkedDecoder {
    type V = Phase;

    closed spec fn view(&self) -> Phase {
        self.state@
    }
}

impl ChunkedDecoder {
    /// A decoder at the start of a body.
    pub fn new() -> (d: Self)
        ensures
            d@ == initial_phase(),
    {
        ChunkedDecoder {
            state: DecoderState::Read(
                ReadState::BeforeChunk { size: 0, inner: ChunkSizeState::ChunkSize },
            ),
        }
    }

    /// Leaves a chunk that was handed out in full behind, and says what comes next.
    pub fn want(&mut self) -> (w: Want)
        ensures
            final(self)@ == settle(old(self)@),
            w == want_of(old(self)@),
    {
        if let DecoderState::PassThrough { offset, size } = self.state {
            if offset >= size {
                self.state = DecoderState::Read(ReadState::AfterChunk { new_line: false });
            }
        }
        match self.state {
            DecoderState::PassThrough { .. } => Want::Yield,
            DecoderState::Read(_) => Want::Read,
            DecoderState::TrailerDone(_) => Want::SendTrailers,
            DecoderState::TrailerSending => Want::AwaitTrailers,
            DecoderState::Done => Want::Finished,
        }
    }

    /// Reads framing from the inner reader's buffer `inner`; returns how many of its
    /// bytes to consume.
    pub fn read_framing(&mut self, inner: &[u8]) -> (r: Result<usize, DecodeError>)
        requires
            old(self)@ is Read,
        ensures
            match old(self)@ {
                Phase::Read(rs0) => if inner@.len() == 0 {
                    if rs0 == (ReadPhase::MaybeTrailer { new_line: false }) {
                        r == Ok::<usize, DecodeError>(0) && final(self)@ == Phase::TrailerDone(
                            Seq::empty(),
                        )
                    } else {
                        r == Err::<usize, DecodeError>(DecodeError::UnexpectedEof) && final(self)@
                            == old(self)@
                    }
                } else {
                    match feed(rs0, inner@, 0) {
                        Feed::Fail(e, rs) => r == Err::<usize, DecodeError>(e) && final(self)@
                            == Phase::Read(rs),
                        Feed::Moved(n, p) => r == Ok::<usize, DecodeError>(capped(n))
                            && final(self)@ == p,
                    }
                },
                _ => true,
            },
    {
        let mut st = DecoderState::Done;
        core::mem::swap(&mut st, &mut self.state);
        let mut rs = match st {
            DecoderState::Read(rs) => rs,
            _ => {
                self.state = st;
                return Err(DecodeError::UnexpectedEof);
            },
        };
        if inner.len() == 0 {
            // The stream may end right after the last chunk: the body is over, with no
            // trailer.
            if let ReadState::MaybeTrailer { new_line: false } = rs {
                let none: Vec<RawHeader> = Vec::new();
                assert(raw_headers_view(none@) =~= Seq::empty());
                self.state = DecoderState::TrailerDone(none);
                return Ok(0);
            }
            self.state = DecoderState::Read(rs);
            return Err(DecodeError::UnexpectedEof);
        }
        let ghost rs0 = rs@;
        let mut read: usize = 0;
        while read < inner.len()
            invariant
                0 <= read <= inner@.len(),
                inner@.len() > 0,
                old(self)@ == Phase::Read(rs0),
                feed(rs0, inner@, 0) == feed(rs@, inner@, read as nat),
            decreases inner@.len() - read, read_rank(rs@),
        {
            let ghost rs_before = rs@;
            let rest = slice_subrange(inner, read, inner.len());
            proof { lemma_advance_progress(rs@, rest@); }
            assert(rest@ == inner@.subrange(read as int, inner@.len() as int));
            assert(feed(rs@, inner@, read as nat) == match advance_spec(rs@, rest@) {
                Advance::Fail(e, rs2) => Feed::Fail(e, rs2),
                Advance::Step(n, rs2, Some(p)) => Feed::Moved(read as nat + n, p),
                Advance::Step(n, rs2, None) => feed(rs2, inner@, read as nat + n),
            });
            match rs.advance(rest) {
                Err(e) => {
                    self.state = DecoderState::Read(rs);
                    return Err(e);
                },
                Ok((nread, Some(next))) => {
                    let total = read.saturating_add(nread);
                    self.state = next;
                    return Ok(total);
                },
                Ok((nread, None)) => {
                    read = read + nread;
                },
            }
        }
        self.state = DecoderState::Read(rs);
        Ok(read)
    }

    /// How many bytes of the inner reader's buffer, of length `inner_len`, to hand out
    /// from the current chunk.
    pub fn pass_through_len(&self, inner_len: usize) -> (r: Result<usize, DecodeError>)
        requires
            self@ matches Phase::PassThrough { offset, size } && offset < size,
        ensures
            match self@ {
                Phase::PassThrough { offset, size } => {
                    let amt = if size - offset < inner_len {
                        size - offset
                    } else {
                        inner_len as int
                    };
                    if amt == 0 {
                        r == Err::<usize, DecodeError>(DecodeError::UnexpectedEof)
                    } else {
                        r == Ok::<usize, DecodeError>(amt as usize)
                    }
                },
                _ => true,
            },
    {
        match self.state {
            DecoderState::PassThrough { offset, size } => {
                let max_read = size - offset;
                let amt: usize = if max_read < inner_len as u64 {
                    max_read as usize
                } else {
                    inner_len
                };
                if amt == 0 {
                    Err(DecodeError::UnexpectedEof)
                } else {
                    Ok(amt)
                }
            },
            _ => Err(DecodeError::UnexpectedEof),
        }
    }

    /// Records that `amt` bytes of the current chunk were handed on.
    pub fn consume(&mut self, amt: usize)
        requires
            amt > 0 ==> (old(self)@ matches Phase::PassThrough { offset, size } && offset + amt
                <= size),
        ensures
            amt == 0 ==> final(self)@ == old(self)@,
            amt > 0 ==> match old(self)@ {
                Phase::PassThrough { offset, size } => final(self)@ == Phase::PassThrough {
                    offset: (offset + amt) as u64,
                    size,
                },
                _ => true,
            },
    {
        if amt > 0 {
            if let DecoderState::PassThrough { offset, size } = self.state {
                self.state = DecoderState::PassThrough { offset: offset + amt as u64, size };
            }
        }
    }

    /// Hands out the decoded trailer, which is then being sent.
    pub fn take_trailers(&mut self) -> (r: Vec<RawHeader>)
        requires
            old(self)@ is TrailerDone,
        ensures
            old(self)@ matches Phase::TrailerDone(h) && raw_headers_view(r@) == h,
            final(self)@ == Phase::TrailerSending,
    {
        let mut st = DecoderState::TrailerSending;
        core::mem::swap(&mut st, &mut self.state);
        match st {
            DecoderState::TrailerDone(headers) => headers,
            _ => Vec::new(),
        }
    }

    /// Records that the trailer was sent: the body is over.
    pub fn trailers_sent(&mut self)
        requires
            old(self)@ is TrailerSending,
        ensures
            final(self)@ == Phase::Done,
    {
        self.state = DecoderState::Done;
    }
}

} // verus!
