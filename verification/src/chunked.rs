//! The chunked transfer coding of RFC 7230, section 4.1.
use vstd::prelude::*;

pub mod decoder;
pub mod encoder;

use crate::chunked::decoder::{
    Advance, ChunkSizeState, DecodeError, Feed, Phase, ReadPhase, SizeByte, SizeScan,
    MAX_CHUNK_SIZE, advance_spec, feed, hex_value, initial_phase, lemma_advance_progress, left,
    read_rank, scan_chunk_size, settle, shifted_size, size_byte,
};
use crate::chunked::encoder::chunk_frame;
use crate::head::{HeaderBlock, HeaderBlockView, RawHeader, header_block_of, parse_header_block, raw_headers_view};
use crate::bytes::{all_ascii, ascii_lower, is_ascii_bytes, is_utf8, write_at};
use vstd::slice::slice_subrange;
use vstd::utf8::valid_utf8;
use crate::digits::{
    all_hex, hex, hex_digit, hex_value_from, lemma_hex_all_digits, lemma_hex_digit_value, lemma_hex_value,
    lemma_hex_value_from_grows,
};

verus! {

/// Where a decoder working through a whole input ends.
pub enum Run {
    /// It stopped in `phase`, having handed out `output` and left `rest` unread.
    Ended { output: Seq<u8>, rest: Seq<u8>, phase: Phase },
    /// It failed.
    Failed(DecodeError),
    /// It took more steps than allowed.
    OutOfFuel,
}

/// The same run with `out` handed out before it.
pub open spec fn after_output(out: Seq<u8>, r: Run) -> Run {
    match r {
        Run::Ended { output, rest, phase } => Run::Ended { output: out + output, rest, phase },
        _ => r,
    }
}

/// A decoder in state `p` working through `input`, for at most `fuel` steps, when the
/// inner reader offers every byte not yet consumed and each piece of a chunk handed out
/// is consumed in full. It stops when the body's framing ends.
pub open spec fn run(p: Phase, input: Seq<u8>, fuel: nat) -> Run
    decreases fuel,
{
    if fuel == 0 {
        Run::OutOfFuel
    } else {
        match settle(p) {
            Phase::PassThrough { offset, size } => {
                let amt = if size - offset < input.len() {
                    size - offset
                } else {
                    input.len() as int
                };
                if amt == 0 {
                    Run::Failed(DecodeError::UnexpectedEof)
                } else {
                    after_output(
                        input.take(amt),
                        run(
                            Phase::PassThrough { offset: (offset + amt) as u64, size },
                            input.skip(amt),
                            (fuel - 1) as nat,
                        ),
                    )
                }
            },
            Phase::Read(rs) => if input.len() == 0 {
                if rs == (ReadPhase::MaybeTrailer { new_line: false }) {
                    Run::Ended { output: Seq::empty(), rest: input, phase: Phase::TrailerDone(Seq::empty()) }
                } else {
                    Run::Failed(DecodeError::UnexpectedEof)
                }
            } else {
                match feed(rs, input, 0) {
                    Feed::Fail(e, _) => Run::Failed(e),
                    Feed::Moved(n, p2) => run(
                        p2,
                        input.skip(
                            if n < input.len() {
                                n as int
                            } else {
                                input.len() as int
                            },
                        ),
                        (fuel - 1) as nat,
                    ),
                }
            },
            q => Run::Ended { output: Seq::empty(), rest: input, phase: q },
        }
    }
}

/// A body sent chunk after chunk, ended by the empty chunk.
pub open spec fn chunked_body(chunks: Seq<Seq<u8>>) -> Seq<u8>
    decreases chunks.len(),
{
    if chunks.len() == 0 {
        chunk_frame(Seq::empty())
    } else {
        chunk_frame(chunks[0]) + chunked_body(chunks.drop_first())
    }
}

/// The chunks' bytes one after another.
pub open spec fn joined(chunks: Seq<Seq<u8>>) -> Seq<u8>
    decreases chunks.len(),
{
    if chunks.len() == 0 {
        Seq::empty()
    } else {
        chunks[0] + joined(chunks.drop_first())
    }
}

/// Chunks the decoder accepts: none is empty, none is larger than `MAX_CHUNK_SIZE`.
pub open spec fn sendable(chunks: Seq<Seq<u8>>) -> bool {
    forall|i: int| 0 <= i < chunks.len() ==> 0 < (#[trigger] chunks[i]).len() <= MAX_CHUNK_SIZE
}

/// A feed outcome with `k` more bytes before it.
pub open spec fn feed_after(f: Feed, k: nat) -> Feed {
    match f {
        Feed::Moved(n, q) => Feed::Moved(n + k, q),
        _ => f,
    }
}

proof fn lemma_shift_is_mul(s: u64)
    requires
        s <= MAX_CHUNK_SIZE,
    ensures
        (s << 4u64) == s * 16,
{
    assert(s <= 0x0FFF_FFFF_FFFF_FFFFu64 ==> (s << 4u64) == s * 16) by (bit_vector);
}

proof fn lemma_all_hex_tail(digits: Seq<u8>)
    requires
        all_hex(digits),
        digits.len() > 0,
    ensures
        all_hex(digits.drop_first()),
        hex_value(digits[0]) is Some,
{
    assert forall|i: int| 0 <= i < digits.drop_first().len() implies (#[trigger] hex_value(
        digits.drop_first()[i],
    )) is Some by {
        assert(digits.drop_first()[i] == digits[i + 1]);
    }
}

/// Reading hexadecimal digits and CRLF gives their value.
proof fn lemma_scan_digits(digits: Seq<u8>, s: u64, z: Seq<u8>)
    requires
        all_hex(digits),
        hex_value_from(s as int, digits) <= MAX_CHUNK_SIZE,
    ensures
        scan_chunk_size(digits + seq![13u8, 10u8] + z, s, ChunkSizeState::ChunkSize)
            == (SizeScan::Finished {
            used: digits.len() + 2,
            size: hex_value_from(s as int, digits) as u64,
        }),
    decreases digits.len(),
{
    let buf = digits + seq![13u8, 10u8] + z;
    lemma_hex_value_from_grows(s as int, digits);
    if digits.len() == 0 {
        assert(buf[0] == 13u8);
        assert(buf.drop_first()[0] == 10u8);
        assert(size_byte(s, ChunkSizeState::ChunkSize, 13u8) == SizeByte::Next(
            s,
            ChunkSizeState::NewLine,
        ));
        assert(scan_chunk_size(buf.drop_first(), s, ChunkSizeState::NewLine) == (SizeScan::Finished {
            used: 1,
            size: s,
        }));
    } else {
        lemma_all_hex_tail(digits);
        let d = hex_value(digits[0]).unwrap();
        let rest = digits.drop_first();
        lemma_hex_value_from_grows(s * 16 + d, rest);
        lemma_shift_is_mul(s);
        let s2 = shifted_size(s, d);
        assert(s2 == s * 16 + d);
        assert(buf[0] == digits[0]);
        assert(buf.drop_first() =~= rest + seq![13u8, 10u8] + z);
        lemma_scan_digits(rest, s2, z);
    }
}

/// The bytes of `s`, ASCII letters in lower case.
pub open spec fn lower_case(s: Seq<u8>) -> Seq<u8> {
    Seq::new(s.len(), |i: int| ascii_lower(s[i]))
}

/// A hexadecimal digit has the same value in either case, and nothing that is not a
/// digit becomes one in lower case.
pub proof fn lemma_hex_value_any_case(c: u8)
    ensures
        hex_value(ascii_lower(c)) == hex_value(c),
{
}

/// Every digit that the size of a chunk is written with reads back as its value, in upper
/// case and in lower case.
pub proof fn lemma_hex_digit_any_case(d: nat)
    requires
        d < 16,
    ensures
        hex_value(hex_digit(d)) == Some(d as u8),
        hex_value(ascii_lower(hex_digit(d))) == Some(d as u8),
{
    lemma_hex_digit_value(d);
    lemma_hex_value_any_case(hex_digit(d));
}

/// Hexadecimal digits in lower case are digits with the same value.
proof fn lemma_hex_value_from_lower(s: int, digits: Seq<u8>)
    requires
        all_hex(digits),
    ensures
        all_hex(lower_case(digits)),
        hex_value_from(s, lower_case(digits)) == hex_value_from(s, digits),
    decreases digits.len(),
{
    let l = lower_case(digits);
    assert forall|i: int| 0 <= i < l.len() implies (#[trigger] hex_value(l[i])) is Some by {
        lemma_hex_value_any_case(digits[i]);
        assert(hex_value(digits[i]) is Some);
    }
    if digits.len() > 0 {
        lemma_all_hex_tail(digits);
        lemma_hex_value_any_case(digits[0]);
        assert(l.drop_first() =~= lower_case(digits.drop_first()));
        let d = hex_value(digits[0]).unwrap();
        lemma_hex_value_from_lower(s * 16 + d, digits.drop_first());
    }
}

/// A chunk-size line reads back as the size it was written with, its digits in upper or
/// in lower case alike: the line, CRLF included, is used and nothing after it.
pub proof fn lemma_chunk_size_line_any_case(n: nat, rest: Seq<u8>)
    requires
        n <= MAX_CHUNK_SIZE,
    ensures
        scan_chunk_size(hex(n) + seq![13u8, 10u8] + rest, 0, ChunkSizeState::ChunkSize) == (
        SizeScan::Finished { used: hex(n).len() + 2, size: n as u64 }),
        scan_chunk_size(lower_case(hex(n)) + seq![13u8, 10u8] + rest, 0, ChunkSizeState::ChunkSize)
            == (SizeScan::Finished { used: hex(n).len() + 2, size: n as u64 }),
{
    lemma_hex_value(n);
    lemma_hex_all_digits(n);
    lemma_scan_digits(hex(n), 0, rest);
    lemma_hex_value_from_lower(0, hex(n));
    lemma_scan_digits(lower_case(hex(n)), 0, rest);
}

proof fn lemma_feed_skip(rs: ReadPhase, p: Seq<u8>, x: Seq<u8>, r: nat)
    ensures
        feed(rs, p + x, p.len() + r) == feed_after(feed(rs, x, r), p.len()),
    decreases left(x.len(), r), read_rank(rs),
{
    if r < x.len() {
        let rest = x.subrange(r as int, x.len() as int);
        assert((p + x).subrange((p.len() + r) as int, (p + x).len() as int) =~= rest);
        lemma_advance_progress(rs, rest);
        match advance_spec(rs, rest) {
            Advance::Step(n, rs2, None) => {
                lemma_feed_skip(rs2, p, x, r + n);
            },
            _ => {},
        }
    }
}

/// A frame of a non-empty chunk reads as its size line, then hands out the chunk.
proof fn lemma_feed_frame(c: Seq<u8>, y: Seq<u8>)
    requires
        0 < c.len() <= MAX_CHUNK_SIZE,
    ensures
        feed(
            ReadPhase::BeforeChunk { size: 0, inner: ChunkSizeState::ChunkSize },
            chunk_frame(c) + y,
            0,
        ) == Feed::Moved(hex(c.len()).len() + 2, Phase::PassThrough { offset: 0, size: c.len() as u64 }),
{
    let buf = chunk_frame(c) + y;
    lemma_hex_all_digits(c.len());
    lemma_hex_value(c.len());
    assert(buf =~= hex(c.len()) + seq![13u8, 10u8] + (c + seq![13u8, 10u8] + y));
    lemma_scan_digits(hex(c.len()), 0, c + seq![13u8, 10u8] + y);
    assert(buf.subrange(0, buf.len() as int) =~= buf);
}

/// The frame of the empty chunk ends the body with an empty trailer.
proof fn lemma_feed_last(y: Seq<u8>)
    ensures
        feed(
            ReadPhase::BeforeChunk { size: 0, inner: ChunkSizeState::ChunkSize },
            chunk_frame(Seq::empty()) + y,
            0,
        ) == Feed::Moved(5, Phase::TrailerDone(Seq::empty())),
{
    let buf = chunk_frame(Seq::empty()) + y;
    lemma_hex_all_digits(0);
    lemma_hex_value(0);
    assert(hex(0) == seq![48u8]);
    assert(buf =~= hex(0) + seq![13u8, 10u8] + (seq![13u8, 10u8] + y));
    lemma_scan_digits(hex(0), 0, seq![13u8, 10u8] + y);
    assert(buf.subrange(0, buf.len() as int) =~= buf);
    let r3 = buf.subrange(3, buf.len() as int);
    assert(r3[0] == 13u8);
    let r4 = buf.subrange(4, buf.len() as int);
    assert(r4[0] == 10u8);
    assert(feed(ReadPhase::MaybeTrailer { new_line: true }, buf, 4) == Feed::Moved(
        5,
        Phase::TrailerDone(Seq::empty()),
    ));
    assert(feed(ReadPhase::MaybeTrailer { new_line: false }, buf, 3) == Feed::Moved(
        5,
        Phase::TrailerDone(Seq::empty()),
    ));
}

/// The CRLF after a chunk is read, then the next size line.
proof fn lemma_feed_after_chunk(x: Seq<u8>)
    ensures
        feed(ReadPhase::AfterChunk { new_line: false }, seq![13u8, 10u8] + x, 0) == feed_after(
            feed(ReadPhase::BeforeChunk { size: 0, inner: ChunkSizeState::ChunkSize }, x, 0),
            2,
        ),
{
    let crlf = seq![13u8, 10u8];
    let buf = crlf + x;
    assert(buf.subrange(0, buf.len() as int)[0] == 13u8);
    assert(buf.subrange(1, buf.len() as int)[0] == 10u8);
    lemma_feed_skip(
        ReadPhase::BeforeChunk { size: 0, inner: ChunkSizeState::ChunkSize },
        crlf,
        x,
        0,
    );
    assert(feed(ReadPhase::AfterChunk { new_line: true }, buf, 1) == feed(
        ReadPhase::BeforeChunk { size: 0, inner: ChunkSizeState::ChunkSize },
        buf,
        2,
    ));
}

/// A decoder that has handed out a chunk in full reads the rest of the body.
proof fn lemma_run_after_chunk(s: u64, chunks: Seq<Seq<u8>>, rest: Seq<u8>)
    requires
        sendable(chunks),
    ensures
        run(
            Phase::PassThrough { offset: s, size: s },
            seq![13u8, 10u8] + chunked_body(chunks) + rest,
            2 * chunks.len() + 2,
        ) == (Run::Ended { output: joined(chunks), rest, phase: Phase::TrailerDone(Seq::empty()) }),
    decreases chunks.len(),
{
    let crlf = seq![13u8, 10u8];
    let input = crlf + chunked_body(chunks) + rest;
    assert(input =~= crlf + (chunked_body(chunks) + rest));
    lemma_feed_after_chunk(chunked_body(chunks) + rest);
    if chunks.len() == 0 {
        lemma_feed_last(rest);
        assert(input.skip(7) =~= rest);
        assert(joined(chunks) =~= Seq::<u8>::empty());
        assert(run(Phase::TrailerDone(Seq::empty()), rest, 1) == (Run::Ended {
            output: Seq::empty(),
            rest,
            phase: Phase::TrailerDone(Seq::empty()),
        }));
    } else {
        let c = chunks[0];
        let more = chunks.drop_first();
        assert(0 < c.len() <= MAX_CHUNK_SIZE);
        assert(sendable(more)) by {
            assert forall|i: int| 0 <= i < more.len() implies 0 < (#[trigger] more[i]).len()
                <= MAX_CHUNK_SIZE by {
                assert(more[i] == chunks[i + 1]);
            }
        }
        let y = chunked_body(more) + rest;
        assert(chunked_body(chunks) + rest =~= chunk_frame(c) + y);
        lemma_feed_frame(c, y);
        let h = hex(c.len()).len();
        let after = input.skip(h + 4int);
        assert(after =~= c + (crlf + chunked_body(more) + rest));
        let fuel = (2 * chunks.len() + 2) as nat;
        assert(after.take(c.len() as int) =~= c);
        assert(after.skip(c.len() as int) =~= crlf + chunked_body(more) + rest);
        lemma_run_after_chunk(c.len() as u64, more, rest);
        assert(run(
            Phase::PassThrough { offset: 0, size: c.len() as u64 },
            after,
            (fuel - 1) as nat,
        ) == after_output(
            c,
            run(
                Phase::PassThrough { offset: c.len() as u64, size: c.len() as u64 },
                crlf + chunked_body(more) + rest,
                (fuel - 2) as nat,
            ),
        ));
        assert(joined(chunks) == c + joined(more));
    }
}

/// What the reads of a chunked encoder hand out, `finished` saying whether the empty chunk
/// was sent already, its reader giving `pieces`, one per read, while it is not finished:
/// each piece framed, an empty one being the empty chunk that ends the body, after which
/// reads hand out nothing and take nothing from the reader. The output, and how many
/// pieces were taken.
pub open spec fn encoder_output(finished: bool, pieces: Seq<Seq<u8>>) -> (Seq<u8>, nat)
    decreases pieces.len(),
{
    if finished || pieces.len() == 0 {
        (Seq::empty(), 0)
    } else {
        let (o, n) = encoder_output(pieces[0].len() == 0, pieces.drop_first());
        (chunk_frame(pieces[0]) + o, n + 1)
    }
}

/// A chunked encoder whose reader gives non-empty pieces and then nothing: its reads hand
/// out the pieces framed, then the empty chunk, then nothing more, however many reads
/// follow, and take no piece after the one that gave nothing. Where no piece is larger
/// than `MAX_CHUNK_SIZE`, a chunked decoder gives back exactly the pieces' bytes.
pub proof fn lemma_encoder_roundtrip(pieces: Seq<Seq<u8>>, k: nat)
    requires
        k < pieces.len(),
        forall|i: int| 0 <= i < k ==> 0 < (#[trigger] pieces[i]).len(),
        pieces[k as int].len() == 0,
    ensures
        encoder_output(false, pieces) == (chunked_body(pieces.take(k as int)), k + 1),
        sendable(pieces.take(k as int)) ==> run(
            initial_phase(),
            chunked_body(pieces.take(k as int)),
            2 * k + 2,
        ) == (Run::Ended {
            output: joined(pieces.take(k as int)),
            rest: Seq::empty(),
            phase: Phase::TrailerDone(Seq::empty()),
        }),
    decreases k,
{
    let more = pieces.drop_first();
    if k == 0 {
        assert(pieces.take(0) =~= Seq::<Seq<u8>>::empty());
        assert(pieces[0] =~= Seq::<u8>::empty());
        assert(encoder_output(true, more) == (Seq::<u8>::empty(), 0nat));
        assert(chunk_frame(pieces[0]) + Seq::<u8>::empty() =~= chunk_frame(Seq::empty()));
        assert(chunked_body(pieces.take(0)) == chunk_frame(Seq::empty()));
    } else {
        assert(pieces[0].len() > 0);
        assert forall|i: int| 0 <= i < k - 1 implies 0 < (#[trigger] more[i]).len() by {
            assert(more[i] == pieces[i + 1]);
        }
        assert(more[k - 1] == pieces[k as int]);
        lemma_encoder_roundtrip(more, (k - 1) as nat);
        let t = pieces.take(k as int);
        assert(t[0] == pieces[0]);
        assert(t.drop_first() =~= more.take(k - 1));
        assert(chunked_body(t) == chunk_frame(pieces[0]) + chunked_body(more.take(k - 1)));
        assert(encoder_output(false, pieces) == (
            chunk_frame(pieces[0]) + encoder_output(false, more).0,
            encoder_output(false, more).1 + 1,
        ));
    }
    if sendable(pieces.take(k as int)) {
        lemma_chunked_roundtrip(pieces.take(k as int), Seq::empty());
        assert(chunked_body(pieces.take(k as int)) + Seq::<u8>::empty() =~= chunked_body(
            pieces.take(k as int),
        ));
    }
}

/// Chunked encoding round trip: a decoder at the start of a body, reading a body sent as
/// non-empty chunks no larger than `MAX_CHUNK_SIZE` and ended by the empty chunk, hands
/// out exactly the chunks' bytes in order, stops right after the body, leaving what
/// follows it unread, and holds an empty trailer.
pub proof fn lemma_chunked_roundtrip(chunks: Seq<Seq<u8>>, rest: Seq<u8>)
    requires
        sendable(chunks),
    ensures
        run(initial_phase(), chunked_body(chunks) + rest, 2 * chunks.len() + 2) == (Run::Ended {
            output: joined(chunks),
            rest,
            phase: Phase::TrailerDone(Seq::empty()),
        }),
{
    let input = chunked_body(chunks) + rest;
    let crlf = seq![13u8, 10u8];
    if chunks.len() == 0 {
        lemma_feed_last(rest);
        assert(input.skip(5) =~= rest);
        assert(joined(chunks) =~= Seq::<u8>::empty());
        assert(run(Phase::TrailerDone(Seq::empty()), rest, 1) == (Run::Ended {
            output: Seq::empty(),
            rest,
            phase: Phase::TrailerDone(Seq::empty()),
        }));
    } else {
        let c = chunks[0];
        let more = chunks.drop_first();
        assert(0 < c.len() <= MAX_CHUNK_SIZE);
        assert(sendable(more)) by {
            assert forall|i: int| 0 <= i < more.len() implies 0 < (#[trigger] more[i]).len()
                <= MAX_CHUNK_SIZE by {
                assert(more[i] == chunks[i + 1]);
            }
        }
        let y = chunked_body(more) + rest;
        assert(input =~= chunk_frame(c) + y);
        lemma_feed_frame(c, y);
        let h = hex(c.len()).len();
        let after = input.skip(h + 2int);
        assert(after =~= c + (crlf + chunked_body(more) + rest));
        let fuel = (2 * chunks.len() + 2) as nat;
        assert(after.take(c.len() as int) =~= c);
        assert(after.skip(c.len() as int) =~= crlf + chunked_body(more) + rest);
        lemma_run_after_chunk(c.len() as u64, more, rest);
        assert(run(
            Phase::PassThrough { offset: 0, size: c.len() as u64 },
            after,
            (fuel - 1) as nat,
        ) == after_output(
            c,
            run(
                Phase::PassThrough { offset: c.len() as u64, size: c.len() as u64 },
                crlf + chunked_body(more) + rest,
                (fuel - 2) as nat,
            ),
        ));
        assert(joined(chunks) == c + joined(more));
    }
}

/// A semantically explicit slice of a buffer.
#[derive(Eq, PartialEq, Debug, Copy, Clone, Default, Structural)]
pub struct Position {
    pub start: usize,
    pub end: usize,
}

impl Position {
    /// The slice from `start` to `end`.
    pub fn new(start: usize, end: usize) -> (p: Position)
        ensures
            p == (Position { start, end }),
    {
        Position { start, end }
    }

    /// The length of the slice.
    pub fn len(&self) -> (n: usize)
        requires
            self.start <= self.end,
        ensures
            n == self.end - self.start,
    {
        self.end - self.start
    }

    /// Whether both ends are at the start of the buffer.
    pub fn is_zero(&self) -> (b: bool)
        ensures
            b == (self.start == 0 && self.end == 0),
    {
        self.start == 0 && self.end == 0
    }
}

/// Where a decoder of a buffered chunked body stands.
#[derive(Debug)]
pub enum State {
    Init,
    /// Inside a chunk: `current` of its `len` bytes are read.
    Chunk(u64, u64),
    ChunkEnd,
    Trailer,
    TrailerDone(Vec<RawHeader>),
    Done,
}

/// The view of [`State`].
pub enum StateView {
    Init,
    Chunk(u64, u64),
    ChunkEnd,
    Trailer,
    TrailerDone(Seq<(Seq<u8>, Seq<u8>)>),
    Done,
}

impl View for State {
    type V = StateView;

    open spec fn view(&self) -> StateView {
        match self {
            State::Init => StateView::Init,
            State::Chunk(c, l) => StateView::Chunk(*c, *l),
            State::ChunkEnd => StateView::ChunkEnd,
            State::Trailer => StateView::Trailer,
            State::TrailerDone(h) => StateView::TrailerDone(raw_headers_view(h@)),
            State::Done => StateView::Done,
        }
    }
}

/// The outcome of decoding from a buffer.
#[derive(Debug)]
pub enum DecodeResult {
    /// `read` bytes were decoded into the output; the buffer's unread part and the state
    /// are now these.
    Decoded { read: usize, new_pos: Position, new_state: State },
    /// The buffer holds too little to decode anything.
    NeedMore,
}

/// The view of [`DecodeResult`].
pub enum DecodeResultView {
    Decoded { read: nat, new_pos: Position, new_state: StateView },
    NeedMore,
}

impl View for DecodeResult {
    type V = DecodeResultView;

    open spec fn view(&self) -> DecodeResultView {
        match self {
            DecodeResult::Decoded { read, new_pos, new_state } => DecodeResultView::Decoded {
                read: *read as nat,
                new_pos: *new_pos,
                new_state: new_state@,
            },
            DecodeResult::NeedMore => DecodeResultView::NeedMore,
        }
    }
}

/// Why a buffered chunked body could not be decoded.
#[derive(Debug, Clone, Copy, PartialEq, Eq, Structural)]
pub enum BufferError {
    /// The chunk-size line is invalid.
    InvalidChunkSize,
    /// The line end after a chunk is not CRLF.
    InvalidData,
    /// The trailer is not a valid block of header lines.
    Header(crate::head::HeadError),
    /// A trailer value is not UTF-8 text, or not ASCII.
    TrailerValue,
    /// The buffer is full and may not grow further.
    TooLarge,
    /// The stream ended in the middle of the body.
    UnexpectedEof,
}

/// What `httparse::parse_chunk_size` makes of a buffer.
pub enum ChunkSizeLine {
    /// The line used this many bytes and gave this size.
    Complete(nat, u64),
    Partial,
    Invalid,
}

/// What `httparse::parse_chunk_size` makes of `buf`.
pub uninterp spec fn chunk_size_line(buf: Seq<u8>) -> ChunkSizeLine;

/// Calls `httparse::parse_chunk_size`; its result is named by `chunk_size_line`. The
/// source shows that a complete line used at most the bytes it was given.
#[verifier::external_body]
fn parse_chunk_size(buf: &[u8]) -> (r: Option<Option<(usize, u64)>>)
    ensures
        match chunk_size_line(buf@) {
            ChunkSizeLine::Complete(used, size) => r == Some(Some((used as usize, size))) && used
                <= buf@.len(),
            ChunkSizeLine::Partial => r == Some(None::<(usize, u64)>),
            ChunkSizeLine::Invalid => r is None,
        },
{
    match httparse::parse_chunk_size(buf) {
        Ok(httparse::Status::Complete(x)) => Some(Some(x)),
        Ok(httparse::Status::Partial) => Some(None),
        Err(_) => None,
    }
}

pub open spec fn result_view(r: Result<DecodeResult, BufferError>) -> Result<DecodeResultView, BufferError> {
    match r {
        Ok(d) => Ok(d@),
        Err(e) => Err(e),
    }
}

/// A decoded result leaves its unread part inside `pos`, ending where `pos` ended, and
/// a chunk state with no more bytes read than the chunk holds.
pub open spec fn stays_within(r: Result<DecodeResultView, BufferError>, pos: Position) -> bool {
    r matches Ok(DecodeResultView::Decoded { new_pos, new_state, .. }) ==> pos.start
        <= new_pos.start <= new_pos.end == pos.end && (new_state matches StateView::Chunk(c, l)
        ==> c <= l)
}

/// Every trailer value is UTF-8 and ASCII.
pub open spec fn trailer_values_ok(hs: Seq<(Seq<u8>, Seq<u8>)>) -> bool {
    forall|i: int| 0 <= i < hs.len() ==> valid_utf8(#[trigger] hs[i].1) && all_ascii(hs[i].1)
}

/// Decoding the trailer from `buffer[pos.start..pos.end]`.
pub open spec fn decode_trailer_spec(buffer: Seq<u8>, pos: Position) -> Result<DecodeResultView, BufferError> {
    match header_block_of(buffer.subrange(pos.start as int, pos.end as int)) {
        HeaderBlockView::Complete { used, headers } => if trailer_values_ok(headers) {
            Ok(
                DecodeResultView::Decoded {
                    read: 0,
                    new_state: StateView::TrailerDone(headers),
                    new_pos: Position { start: (pos.start + used) as usize, end: pos.end },
                },
            )
        } else {
            Err(BufferError::TrailerValue)
        },
        HeaderBlockView::Partial => Ok(DecodeResultView::NeedMore),
        HeaderBlockView::Invalid(e) => Err(BufferError::Header(e)),
    }
}

/// Decodes the trailer from `buffer[pos.start..pos.end]`.
fn decode_trailer(buffer: &[u8], pos: &Position) -> (r: Result<DecodeResult, BufferError>)
    requires
        pos.start <= pos.end <= buffer@.len(),
    ensures
        result_view(r) == decode_trailer_spec(buffer@, *pos),
        stays_within(result_view(r), *pos),
{
    let slice = slice_subrange(buffer, pos.start, pos.end);
    let block = parse_header_block(slice);
    assert(block@ == header_block_of(buffer@.subrange(pos.start as int, pos.end as int)));
    match block {
        HeaderBlock::Complete { used, headers } => {
            assert(header_block_of(buffer@.subrange(pos.start as int, pos.end as int)) == (
            HeaderBlockView::Complete { used: used as nat, headers: raw_headers_view(headers@) }));
            let n = headers.len();
            let mut i: usize = 0;
            while i < n
                invariant
                    0 <= i <= n,
                    n == headers@.len(),
                    header_block_of(buffer@.subrange(pos.start as int, pos.end as int)) == (
                    HeaderBlockView::Complete { used: used as nat, headers: raw_headers_view(headers@) }),
                    forall|k: int| 0 <= k < i ==> valid_utf8(#[trigger] raw_headers_view(headers@)[k].1)
                        && all_ascii(raw_headers_view(headers@)[k].1),
                decreases n - i,
            {
                let value = headers[i].value.as_slice();
                assert(value@ == raw_headers_view(headers@)[i as int].1);
                if !is_utf8(value) || !is_ascii_bytes(value) {
                    assert(!trailer_values_ok(raw_headers_view(headers@)));
                    return Err(BufferError::TrailerValue);
                }
                i = i + 1;
            }
            Ok(DecodeResult::Decoded {
                read: 0,
                new_state: State::TrailerDone(headers),
                new_pos: Position { start: pos.start + used, end: pos.end },
            })
        },
        HeaderBlock::Partial => Ok(DecodeResult::NeedMore),
        HeaderBlock::Invalid(e) => Err(BufferError::Header(e)),
    }
}

/// Decoding part of a chunk of `len` bytes, of which `current` are read, into `out`.
pub open spec fn decode_chunk_spec(
    buffer: Seq<u8>,
    pos: Position,
    out: Seq<u8>,
    current: u64,
    len: u64,
) -> (Seq<u8>, DecodeResultView) {
    let left_to_read = (len - current) as usize;
    let available = if pos.end - pos.start < out.len() {
        pos.end - pos.start
    } else {
        out.len() as int
    };
    let to_read = if left_to_read < available {
        left_to_read as int
    } else {
        available
    };
    (
        buffer.subrange(pos.start as int, pos.start + to_read) + out.skip(to_read),
        DecodeResultView::Decoded {
            read: to_read as nat,
            new_pos: Position { start: (pos.start + to_read) as usize, end: pos.end },
            new_state: if left_to_read - to_read > 0 {
                StateView::Chunk((current + to_read) as u64, len)
            } else {
                StateView::ChunkEnd
            },
        },
    )
}

/// One read of a chunk, with `current` of its `len` bytes handed out before: it hands out
/// the next bytes of the chunk, as many as the chunk still has, the buffer holds and the
/// output has room for, leaving the rest of the output as it was; and the chunk counts as
/// ended exactly when all its bytes are handed out.
pub proof fn lemma_decode_chunk(buffer: Seq<u8>, pos: Position, out: Seq<u8>, current: u64, len: u64)
    requires
        pos.start <= pos.end <= buffer.len(),
        current <= len,
        len - current <= usize::MAX,
    ensures
        ({
            let (o, d) = decode_chunk_spec(buffer, pos, out, current, len);
            d matches DecodeResultView::Decoded { read, new_pos, new_state } && {
                &&& read <= len - current && read <= pos.end - pos.start && read <= out.len()
                &&& read == len - current || read == pos.end - pos.start || read == out.len()
                &&& o.len() == out.len()
                &&& o.take(read as int) == buffer.subrange(pos.start as int, pos.start + read)
                &&& o.skip(read as int) == out.skip(read as int)
                &&& new_pos.start == pos.start + read && new_pos.end == pos.end
                &&& (new_state is ChunkEnd) == (current + read == len)
                &&& new_state is ChunkEnd || new_state == StateView::Chunk((current + read) as u64, len)
            }
        }),
{
    let (o, d) = decode_chunk_spec(buffer, pos, out, current, len);
    let read = d->Decoded_read;
    assert(o.take(read as int) =~= buffer.subrange(pos.start as int, pos.start + read));
    assert(o.skip(read as int) =~= out.skip(read as int));
}

/// Reads of a chunk through fresh outputs of the lengths `lens`, one after another, until
/// the chunk ends: the bytes they handed out, joined, where the unread part of the buffer
/// then starts, and the state they left.
pub open spec fn chunk_reads(buffer: Seq<u8>, pos: Position, current: u64, len: u64, lens: Seq<nat>) -> (
    Seq<u8>,
    Position,
    StateView,
)
    decreases lens.len(),
{
    if lens.len() == 0 {
        (Seq::empty(), pos, StateView::Chunk(current, len))
    } else {
        let (o, d) = decode_chunk_spec(buffer, pos, Seq::new(lens[0], |i: int| 0u8), current, len);
        match d {
            DecodeResultView::Decoded { read, new_pos, new_state } => match new_state {
                StateView::Chunk(c, l) => {
                    let (rest, p2, s2) = chunk_reads(buffer, new_pos, c, l, lens.drop_first());
                    (o.take(read as int) + rest, p2, s2)
                },
                _ => (o.take(read as int), new_pos, new_state),
            },
            DecodeResultView::NeedMore => (Seq::empty(), pos, StateView::Chunk(current, len)),
        }
    }
}

/// A chunk whose bytes the buffer holds, read through outputs of any non-zero lengths,
/// enough of them: the reads hand out exactly the chunk's bytes that were still to come,
/// in order, and the chunk then counts as ended, the unread part of the buffer starting
/// right after it.
pub proof fn lemma_chunk_reads(buffer: Seq<u8>, pos: Position, current: u64, len: u64, lens: Seq<nat>)
    requires
        pos.start <= pos.end <= buffer.len(),
        current <= len,
        len - current <= usize::MAX,
        len - current <= pos.end - pos.start,
        forall|i: int| 0 <= i < lens.len() ==> #[trigger] lens[i] >= 1,
        lens.len() >= len - current,
        lens.len() >= 1,
    ensures
        chunk_reads(buffer, pos, current, len, lens) == (
            buffer.subrange(pos.start as int, pos.start + (len - current)),
            Position { start: (pos.start + (len - current)) as usize, end: pos.end },
            StateView::ChunkEnd,
        ),
    decreases lens.len(),
{
    let out = Seq::new(lens[0], |i: int| 0u8);
    lemma_decode_chunk(buffer, pos, out, current, len);
    let (o, d) = decode_chunk_spec(buffer, pos, out, current, len);
    let read = d->Decoded_read;
    let new_pos = d->Decoded_new_pos;
    if current + read == len {
    } else {
        assert(read >= 1);
        let more = lens.drop_first();
        assert forall|i: int| 0 <= i < more.len() implies #[trigger] more[i] >= 1 by {
            assert(more[i] == lens[i + 1]);
        }
        let c2 = (current + read) as u64;
        lemma_chunk_reads(buffer, new_pos, c2, len, more);
        assert(o.take(read as int) + buffer.subrange(new_pos.start as int, new_pos.start + (len - c2))
            =~= buffer.subrange(pos.start as int, pos.start + (len - current)));
    }
}

/// Copies as much of the current chunk as `buffer[pos.start..pos.end]` holds and `out`
/// has room for into `out`.
fn decode_chunk(buffer: &[u8], pos: &Position, out: &mut Vec<u8>, current: u64, len: u64) -> (r:
    Result<DecodeResult, BufferError>)
    requires
        pos.start <= pos.end <= buffer@.len(),
        current <= len,
    ensures
        r matches Ok(d) && (final(out)@, d@) == decode_chunk_spec(buffer@, *pos, old(out)@, current, len),
        stays_within(result_view(r), *pos),
        final(out)@.len() == old(out)@.len(),
{
    let left_to_read = (len - current) as usize;
    let pos_len = pos.end - pos.start;
    let available = if pos_len < out.len() {
        pos_len
    } else {
        out.len()
    };
    let to_read = if left_to_read < available {
        left_to_read
    } else {
        available
    };
    write_at(out, 0, slice_subrange(buffer, pos.start, pos.start + to_read));
    let new_pos = Position { start: pos.start + to_read, end: pos.end };
    let new_state = if left_to_read - to_read > 0 {
        State::Chunk(current + to_read as u64, len)
    } else {
        State::ChunkEnd
    };
    Ok(DecodeResult::Decoded { read: to_read, new_pos, new_state })
}


/// Decoding a chunk-size line at `buffer[pos.start..pos.end]`, then what follows it: the
/// trailer after the last chunk, or the start of the chunk's data.
pub open spec fn decode_init_spec(buffer: Seq<u8>, pos: Position, out: Seq<u8>) -> (
    Seq<u8>,
    Result<DecodeResultView, BufferError>,
) {
    match chunk_size_line(buffer.subrange(pos.start as int, pos.end as int)) {
        ChunkSizeLine::Complete(used, size) => {
            let new_pos = Position { start: (pos.start + used) as usize, end: pos.end };
            if size == 0 {
                (out, decode_trailer_spec(buffer, new_pos))
            } else {
                let (o, d) = decode_chunk_spec(buffer, new_pos, out, 0, size);
                (o, Ok(d))
            }
        },
        ChunkSizeLine::Partial => (out, Ok(DecodeResultView::NeedMore)),
        ChunkSizeLine::Invalid => (out, Err(BufferError::InvalidChunkSize)),
    }
}

/// Reads a chunk-size line from `buffer[pos.start..pos.end]` and decodes what follows it.
fn decode_init(buffer: &[u8], pos: &Position, out: &mut Vec<u8>) -> (r: Result<
    DecodeResult,
    BufferError,
>)
    requires
        pos.start <= pos.end <= buffer@.len(),
    ensures
        (final(out)@, result_view(r)) == decode_init_spec(buffer@, *pos, old(out)@),
        stays_within(result_view(r), *pos),
        final(out)@.len() == old(out)@.len(),
{
    let line = parse_chunk_size(slice_subrange(buffer, pos.start, pos.end));
    match line {
        Some(Some((used, size))) => {
            let new_pos = Position { start: pos.start + used, end: pos.end };
            if size == 0 {
                decode_trailer(buffer, &new_pos)
            } else {
                decode_chunk(buffer, &new_pos, out, 0, size)
            }
        },
        Some(None) => Ok(DecodeResult::NeedMore),
        None => Err(BufferError::InvalidChunkSize),
    }
}

/// Decoding the CRLF that ends a chunk at `buffer[pos.start..pos.end]`, then the next
/// chunk-size line.
pub open spec fn decode_chunk_end_spec(buffer: Seq<u8>, pos: Position, out: Seq<u8>) -> (
    Seq<u8>,
    Result<DecodeResultView, BufferError>,
) {
    if pos.end - pos.start < 2 {
        (out, Ok(DecodeResultView::NeedMore))
    } else if buffer[pos.start as int] == 13 && buffer[pos.start + 1] == 10 {
        decode_init_spec(buffer, Position { start: (pos.start + 2) as usize, end: pos.end }, out)
    } else {
        (out, Err(BufferError::InvalidData))
    }
}

/// Reads the CRLF that ends a chunk from `buffer[pos.start..pos.end]`, then the next
/// chunk-size line.
fn decode_chunk_end(buffer: &[u8], pos: &Position, out: &mut Vec<u8>) -> (r: Result<
    DecodeResult,
    BufferError,
>)
    requires
        pos.start <= pos.end <= buffer@.len(),
    ensures
        (final(out)@, result_view(r)) == decode_chunk_end_spec(buffer@, *pos, old(out)@),
        stays_within(result_view(r), *pos),
        final(out)@.len() == old(out)@.len(),
{
    if pos.end - pos.start < 2 {
        return Ok(DecodeResult::NeedMore);
    }
    if buffer[pos.start] == 13 && buffer[pos.start + 1] == 10 {
        return decode_init(buffer, &Position { start: pos.start + 2, end: pos.end }, out);
    }
    Err(BufferError::InvalidData)
}


/// The size of a decoder's buffer.
pub const INITIAL_CAPACITY: usize = 4096;

/// The size past which a decoder's buffer may not grow.
pub const MAX_CAPACITY: usize = 536870912;

/// The decoding step that a read works with, fixed by the state the read began in.
#[derive(Clone, Copy, Debug, PartialEq, Eq, Structural)]
pub enum Stage {
    Init,
    Chunk(u64, u64),
    ChunkEnd,
    Trailer,
}

/// Decoding at `buffer[pos.start..pos.end]` with the step `stage`.
pub open spec fn decode_stage(stage: Stage, buffer: Seq<u8>, pos: Position, out: Seq<u8>) -> (
    Seq<u8>,
    Result<DecodeResultView, BufferError>,
) {
    match stage {
        Stage::Init => decode_init_spec(buffer, pos, out),
        Stage::Chunk(c, l) => {
            let (o, d) = decode_chunk_spec(buffer, pos, out, c, l);
            (o, Ok(d))
        },
        Stage::ChunkEnd => decode_chunk_end_spec(buffer, pos, out),
        Stage::Trailer => (out, decode_trailer_spec(buffer, pos)),
    }
}

/// Decodes at `buffer[pos.start..pos.end]` with the step `stage`.
fn decode_with(stage: Stage, buffer: &[u8], pos: &Position, out: &mut Vec<u8>) -> (r: Result<
    DecodeResult,
    BufferError,
>)
    requires
        pos.start <= pos.end <= buffer@.len(),
        stage matches Stage::Chunk(c, l) ==> c <= l,
    ensures
        (final(out)@, result_view(r)) == decode_stage(stage, buffer@, *pos, old(out)@),
        stays_within(result_view(r), *pos),
        final(out)@.len() == old(out)@.len(),
{
    match stage {
        Stage::Init => decode_init(buffer, pos, out),
        Stage::Chunk(c, l) => decode_chunk(buffer, pos, out, c, l),
        Stage::ChunkEnd => decode_chunk_end(buffer, pos, out),
        Stage::Trailer => decode_trailer(buffer, pos),
    }
}

/// The step a read begun in state `s` works with.
pub open spec fn stage_of(s: StateView) -> Stage {
    match s {
        StateView::Chunk(c, l) => Stage::Chunk(c, l),
        StateView::ChunkEnd => Stage::ChunkEnd,
        StateView::Trailer => Stage::Trailer,
        _ => Stage::Init,
    }
}

/// What a buffered decoder asks of its caller.
#[derive(Debug)]
pub enum ReadStep {
    /// This many decoded bytes are at the front of the output.
    Ready(usize),
    /// Nothing to hand out now.
    Pending,
    /// Read up to `room` bytes from the inner stream and hand them to `filled`; they go
    /// into the buffer from `start` on.
    Fill { start: usize, room: usize },
    /// Hand these trailer fields on, then call `trailers_sent`.
    Trailers(Vec<RawHeader>),
}

/// The view of [`ReadStep`].
pub enum ReadStepView {
    Ready(nat),
    Pending,
    Fill { start: nat, room: nat },
    Trailers(Seq<(Seq<u8>, Seq<u8>)>),
}

impl View for ReadStep {
    type V = ReadStepView;

    open spec fn view(&self) -> ReadStepView {
        match self {
            ReadStep::Ready(n) => ReadStepView::Ready(*n as nat),
            ReadStep::Pending => ReadStepView::Pending,
            ReadStep::Fill { start, room } => ReadStepView::Fill {
                start: *start as nat,
                room: *room as nat,
            },
            ReadStep::Trailers(h) => ReadStepView::Trailers(raw_headers_view(h@)),
        }
    }
}

pub open spec fn step_view(r: Result<ReadStep, BufferError>) -> Result<ReadStepView, BufferError> {
    match r {
        Ok(s) => Ok(s@),
        Err(e) => Err(e),
    }
}

/// The view of a buffered [`ChunkedDecoder`].
pub struct BufferedView {
    /// The buffer's bytes.
    pub buffer: Seq<u8>,
    /// The unread part of the buffer that the next read starts from.
    pub current: Position,
    /// The part of the buffer that the read under way works on.
    pub cursor: Position,
    /// Whether the unread part may hold something to decode.
    pub initial_decode: bool,
    pub state: StateView,
    /// The step the read under way works with.
    pub stage: Stage,
}

/// Decodes a chunked body held in a buffer that the caller fills from the inner stream.
#[derive(Debug)]
pub struct ChunkedDecoder {
    buffer: Vec<u8>,
    current: Position,
    cursor: Position,
    initial_decode: bool,
    state: State,
    stage: Stage,
}

impl View for ChunkedDecoder {
    type V = BufferedView;

    closed spec fn view(&self) -> BufferedView {
        BufferedView {
            buffer: self.buffer@,
            current: self.current,
            cursor: self.cursor,
            initial_decode: self.initial_decode,
            state: self.state@,
            stage: self.stage,
        }
    }
}

/// Both positions lie in the buffer and no chunk has more bytes read than it holds.
pub open spec fn buffered_wf(d: BufferedView) -> bool {
    &&& d.current.start <= d.current.end <= d.buffer.len()
    &&& d.cursor.start <= d.cursor.end <= d.buffer.len()
    &&& d.state matches StateView::Chunk(c, l) ==> c <= l
    &&& d.stage matches Stage::Chunk(c, l) ==> c <= l
}

/// Asking for more input: refused when the buffer is full and at its size limit.
pub open spec fn fill_spec(d: BufferedView) -> (BufferedView, Result<ReadStepView, BufferError>) {
    if d.cursor.end - d.cursor.start >= d.buffer.len() && d.buffer.len() >= MAX_CAPACITY {
        (BufferedView { current: d.cursor, ..d }, Err(BufferError::TooLarge))
    } else {
        (d, Ok(ReadStepView::Fill { start: d.cursor.end as nat, room: (d.buffer.len() - d.cursor.end) as nat }))
    }
}

/// Whether a read that decoded `read` bytes into state `s` hands them out now.
pub open spec fn hands_out(s: StateView, read: nat) -> bool {
    s is Done || read > 0
}

/// A read on a decoder in view `d` with output `out`.
pub open spec fn read_spec(d: BufferedView, out: Seq<u8>) -> (BufferedView, Seq<u8>, Result<
    ReadStepView,
    BufferError,
>) {
    match d.state {
        StateView::TrailerDone(hs) => (
            BufferedView { state: StateView::TrailerDone(Seq::empty()), ..d },
            out,
            Ok(ReadStepView::Trailers(hs)),
        ),
        StateView::Done => (d, out, Ok(ReadStepView::Ready(0))),
        _ => {
            let stage = stage_of(d.state);
            let n = d.current;
            let e = BufferedView { current: Position { start: 0, end: 0 }, cursor: n, stage, ..d };
            if n.end - n.start > 0 && d.initial_decode {
                let (o, r) = decode_stage(stage, d.buffer, n, out);
                match r {
                    Err(err) => (e, o, Err(err)),
                    Ok(DecodeResultView::Decoded { read, new_pos, new_state }) => (
                        BufferedView { current: new_pos, state: new_state, ..e },
                        o,
                        Ok(
                            if hands_out(new_state, read) {
                                ReadStepView::Ready(read)
                            } else {
                                ReadStepView::Pending
                            },
                        ),
                    ),
                    Ok(DecodeResultView::NeedMore) => {
                        let (f, s) = fill_spec(e);
                        (f, o, s)
                    },
                }
            } else {
                let (f, s) = fill_spec(e);
                (f, out, s)
            }
        },
    }
}

/// Handing `data`, read from the inner stream, to a decoder in view `d` with output `out`.
pub open spec fn filled_spec(d: BufferedView, data: Seq<u8>, out: Seq<u8>) -> (BufferedView, Seq<
    u8,
>, Result<ReadStepView, BufferError>) {
    let at = d.cursor.end;
    let buffer = d.buffer.take(at as int) + data + d.buffer.skip(at + data.len());
    let n = Position { start: d.cursor.start, end: (at + data.len()) as usize };
    let e = BufferedView { buffer, cursor: n, ..d };
    let (o, r) = decode_stage(d.stage, buffer, n, out);
    match r {
        Err(err) => (e, o, Err(err)),
        Ok(DecodeResultView::Decoded { read, new_pos, new_state }) => {
            let g = BufferedView { initial_decode: true, current: new_pos, state: new_state, ..e };
            if hands_out(new_state, read) {
                (g, o, Ok(ReadStepView::Ready(read)))
            } else {
                let (f, s) = fill_spec(g);
                (f, o, s)
            }
        },
        Ok(DecodeResultView::NeedMore) => if n.start == 0 && n.end == 0 {
            (BufferedView { initial_decode: false, current: n, ..e }, o, Ok(ReadStepView::Ready(0)))
        } else if n.end - n.start == 0 {
            (
                BufferedView { initial_decode: false, current: n, ..e },
                o,
                Err(BufferError::UnexpectedEof),
            )
        } else {
            let (f, s) = fill_spec(e);
            (f, o, s)
        },
    }
}

impl ChunkedDecoder {
    /// The decoder's view is well formed.
    pub closed spec fn wf(&self) -> bool {
        buffered_wf(self@)
    }

    /// A decoder at the start of a body, with an empty buffer of `INITIAL_CAPACITY` bytes.
    pub fn new() -> (d: Self)
        ensures
            d@.buffer.len() == INITIAL_CAPACITY,
            d@.current == (Position { start: 0, end: 0 }),
            d@.cursor == (Position { start: 0, end: 0 }),
            !d@.initial_decode,
            d@.state is Init,
            d@.stage is Init,
            d.wf(),
    {
        ChunkedDecoder {
            buffer: vec![0u8; INITIAL_CAPACITY],
            current: Position { start: 0, end: 0 },
            cursor: Position { start: 0, end: 0 },
            initial_decode: false,
            state: State::Init,
            stage: Stage::Init,
        }
    }

    /// Asks for more input, or refuses when the buffer is full and at its size limit.
    fn fill(&mut self) -> (r: Result<ReadStep, BufferError>)
        requires
            old(self).wf(),
        ensures
            (final(self)@, step_view(r)) == fill_spec(old(self)@),
            final(self).wf(),
    {
        let n = self.cursor;
        let cap = self.buffer.len();
        if n.end - n.start >= cap && cap >= MAX_CAPACITY {
            self.current = n;
            return Err(BufferError::TooLarge);
        }
        Ok(ReadStep::Fill { start: n.end, room: cap - n.end })
    }

    /// Starts a read into `out`: hands out what the buffer already holds, the trailer
    /// once the body is over, or asks for more input.
    pub fn read(&mut self, out: &mut Vec<u8>) -> (r: Result<ReadStep, BufferError>)
        requires
            old(self).wf(),
        ensures
            (final(self)@, final(out)@, step_view(r)) == read_spec(old(self)@, old(out)@),
            final(self).wf(),
    {
        let stage = match &self.state {
            State::Init => Stage::Init,
            State::Chunk(c, l) => Stage::Chunk(*c, *l),
            State::ChunkEnd => Stage::ChunkEnd,
            State::Trailer => Stage::Trailer,
            State::Done => {
                return Ok(ReadStep::Ready(0));
            },
            State::TrailerDone(_) => {
                let mut taken = State::TrailerDone(Vec::new());
                assert(raw_headers_view(Seq::<RawHeader>::empty()) =~= Seq::empty());
                core::mem::swap(&mut self.state, &mut taken);
                match taken {
                    State::TrailerDone(hs) => {
                        return Ok(ReadStep::Trailers(hs));
                    },
                    _ => {
                        return Ok(ReadStep::Pending);
                    },
                }
            },
        };
        let n = self.current;
        self.stage = stage;
        self.cursor = n;
        self.current = Position { start: 0, end: 0 };
        if n.end - n.start > 0 && self.initial_decode {
            let r = decode_with(stage, self.buffer.as_slice(), &n, out);
            match r {
                Err(e) => {
                    return Err(e);
                },
                Ok(DecodeResult::Decoded { read, new_pos, new_state }) => {
                    let done = match new_state {
                        State::Done => true,
                        _ => false,
                    };
                    self.current = new_pos;
                    self.state = new_state;
                    if done || read > 0 {
                        return Ok(ReadStep::Ready(read));
                    }
                    return Ok(ReadStep::Pending);
                },
                Ok(DecodeResult::NeedMore) => {},
            }
        }
        self.fill()
    }

    /// The inner stream had nothing to read: the buffer holds nothing new to decode.
    pub fn pending(&mut self)
        requires
            old(self).wf(),
        ensures
            final(self)@ == (BufferedView {
                initial_decode: false,
                current: old(self)@.cursor,
                ..old(self)@
            }),
            final(self).wf(),
    {
        self.initial_decode = false;
        self.current = self.cursor;
    }

    /// Takes `data`, read from the inner stream as a `Fill` asked, into the buffer and
    /// decodes into `out`.
    pub fn filled(&mut self, data: &[u8], out: &mut Vec<u8>) -> (r: Result<ReadStep, BufferError>)
        requires
            old(self).wf(),
            old(self)@.cursor.end + data@.len() <= old(self)@.buffer.len(),
        ensures
            (final(self)@, final(out)@, step_view(r)) == filled_spec(old(self)@, data@, old(out)@),
            final(self).wf(),
    {
        let at = self.cursor.end;
        let cap = self.buffer.len();
        assert(at + data@.len() <= cap);
        let end = at + data.len();
        write_at(&mut self.buffer, at, data);
        let n = Position { start: self.cursor.start, end };
        self.cursor = n;
        let r = decode_with(self.stage, self.buffer.as_slice(), &n, out);
        match r {
            Err(e) => Err(e),
            Ok(DecodeResult::Decoded { read, new_pos, new_state }) => {
                let done = match new_state {
                    State::Done => true,
                    _ => false,
                };
                self.initial_decode = true;
                self.current = new_pos;
                self.state = new_state;
                if done || read > 0 {
                    Ok(ReadStep::Ready(read))
                } else {
                    self.fill()
                }
            },
            Ok(DecodeResult::NeedMore) => {
                if n.start == 0 && n.end == 0 {
                    self.initial_decode = false;
                    self.current = n;
                    Ok(ReadStep::Ready(0))
                } else if n.end - n.start == 0 {
                    self.initial_decode = false;
                    self.current = n;
                    Err(BufferError::UnexpectedEof)
                } else {
                    self.fill()
                }
            },
        }
    }

    /// The trailer fields were handed on: the body is over.
    pub fn trailers_sent(&mut self)
        requires
            old(self).wf(),
        ensures
            final(self)@ == (BufferedView { state: StateView::Done, ..old(self)@ }),
            final(self).wf(),
    {
        self.state = State::Done;
    }
}

} // verus!
