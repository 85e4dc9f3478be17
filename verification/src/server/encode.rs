//! Encodes HTTP responses on the server.
use vstd::prelude::*;
use crate::bytes::{push_bytes, push_text, text, write_at};
use crate::digits::{decimal, decimal_digits, hex, hex_upper};
use crate::chunked::encoder::chunk_frame;
use crate::chunked::{Run, chunked_body, joined, lemma_chunked_roundtrip, run, sendable};
use crate::chunked::decoder::{MAX_CHUNK_SIZE, Phase, initial_phase};
use vstd::slice::slice_subrange;

verus! {

/// A line end.
pub open spec fn crlf() -> Seq<u8> {
    seq![13u8, 10u8]
}

/// One header of a message: its name and each of its values, as text.
#[derive(Debug)]
pub struct HeaderEntry {
    pub name: Vec<u8>,
    pub values: Vec<Vec<u8>>,
}

/// The values' views.
pub open spec fn values_view(values: Seq<Vec<u8>>) -> Seq<Seq<u8>> {
    values.map_values(|v: Vec<u8>| v@)
}

impl View for HeaderEntry {
    type V = (Seq<u8>, Seq<Seq<u8>>);

    open spec fn view(&self) -> (Seq<u8>, Seq<Seq<u8>>) {
        (self.name@, values_view(self.values@))
    }
}

/// The headers' views.
pub open spec fn entries_view(headers: Seq<HeaderEntry>) -> Seq<(Seq<u8>, Seq<Seq<u8>>)> {
    headers.map_values(|h: HeaderEntry| h@)
}

/// What the encoder needs of a response to write its head: the status code, its
/// canonical reason phrase, the body length when it is known, and the headers.
#[derive(Debug)]
pub struct ResponseHead {
    pub status: u16,
    pub reason: Vec<u8>,
    pub len: Option<usize>,
    pub headers: Vec<HeaderEntry>,
}

/// The view of [`ResponseHead`].
pub struct ResponseView {
    pub status: u16,
    pub reason: Seq<u8>,
    pub len: Option<usize>,
    pub headers: Seq<(Seq<u8>, Seq<Seq<u8>>)>,
}

impl View for ResponseHead {
    type V = ResponseView;

    open spec fn view(&self) -> ResponseView {
        ResponseView {
            status: self.status,
            reason: self.reason@,
            len: self.len,
            headers: entries_view(self.headers@),
        }
    }
}

/// One line per value: `name: value`.
pub open spec fn value_lines(name: Seq<u8>, values: Seq<Seq<u8>>) -> Seq<u8>
    decreases values.len(),
{
    if values.len() == 0 {
        Seq::empty()
    } else {
        value_lines(name, values.drop_last()) + name + text(": ") + values.last() + crlf()
    }
}

/// One header line: `name: value` and CRLF.
pub open spec fn header_line(name: Seq<u8>, value: Seq<u8>) -> Seq<u8> {
    name + text(": ") + value + crlf()
}

/// Each value of a header gets a line of its own, after the lines of the values before
/// it: a further value adds exactly its line at the end.
pub proof fn lemma_value_lines_push(name: Seq<u8>, values: Seq<Seq<u8>>, v: Seq<u8>)
    ensures
        value_lines(name, values.push(v)) == value_lines(name, values) + header_line(name, v),
{
    assert(values.push(v).drop_last() =~= values);
    assert(value_lines(name, values) + name + text(": ") + v + crlf() =~= value_lines(name, values)
        + header_line(name, v));
}

/// The lines of two runs of values are those of the first run, then those of the second.
pub proof fn lemma_value_lines_concat(name: Seq<u8>, a: Seq<Seq<u8>>, b: Seq<Seq<u8>>)
    ensures
        value_lines(name, a + b) == value_lines(name, a) + value_lines(name, b),
    decreases b.len(),
{
    if b.len() == 0 {
        assert(a + b =~= a);
        assert(value_lines(name, a) + Seq::<u8>::empty() =~= value_lines(name, a));
    } else {
        let b1 = b.drop_last();
        assert(a + b =~= (a + b1).push(b.last()));
        assert(b =~= b1.push(b.last()));
        lemma_value_lines_concat(name, a, b1);
        lemma_value_lines_push(name, a + b1, b.last());
        lemma_value_lines_push(name, b1, b.last());
        assert(value_lines(name, a) + value_lines(name, b1) + header_line(name, b.last())
            =~= value_lines(name, a) + (value_lines(name, b1) + header_line(name, b.last())));
    }
}

/// How long the lines of a header's values are: each value `v` takes its name, `: `, `v`
/// and CRLF.
pub open spec fn value_lines_len(name: Seq<u8>, values: Seq<Seq<u8>>) -> nat
    decreases values.len(),
{
    if values.len() == 0 {
        0
    } else {
        name.len() + values[0].len() + 4 + value_lines_len(name, values.drop_first())
    }
}

/// Every value of a header is sent, none dropped: the lines are as long as the name, `: `,
/// the value and CRLF of every value together, and the lines of each value stand, in
/// order, one after another.
pub proof fn lemma_value_lines_each(name: Seq<u8>, values: Seq<Seq<u8>>)
    ensures
        value_lines(name, values).len() == value_lines_len(name, values),
        values.len() > 0 ==> value_lines(name, values) == header_line(name, values[0])
            + value_lines(name, values.drop_first()),
    decreases values.len(),
{
    if values.len() > 0 {
        let first = seq![values[0]];
        let rest = values.drop_first();
        assert(values =~= first + rest);
        lemma_value_lines_concat(name, first, rest);
        lemma_value_lines_push(name, Seq::empty(), values[0]);
        assert(Seq::<Seq<u8>>::empty().push(values[0]) =~= first);
        assert(value_lines(name, Seq::<Seq<u8>>::empty()) =~= Seq::<u8>::empty());
        assert(Seq::<u8>::empty() + header_line(name, values[0]) =~= header_line(name, values[0]));
        lemma_value_lines_each(name, rest);
        assert(text(": ").len() == 2) by {
            reveal_strlit(": ");
            assert(vstd::string::is_ascii(": "));
            vstd::string::is_ascii_spec_bytes(": ");
        }
    }
}

/// The lines of all headers, in order.
pub open spec fn header_lines(headers: Seq<(Seq<u8>, Seq<Seq<u8>>)>) -> Seq<u8>
    decreases headers.len(),
{
    if headers.len() == 0 {
        Seq::empty()
    } else {
        header_lines(headers.drop_last()) + value_lines(
            headers.last().0,
            headers.last().1,
        )
    }
}

/// Every header is sent, in order: the lines of two runs of headers are those of the
/// first run, then those of the second, and a single header gives the lines of its values.
pub proof fn lemma_header_lines_concat(
    a: Seq<(Seq<u8>, Seq<Seq<u8>>)>,
    b: Seq<(Seq<u8>, Seq<Seq<u8>>)>,
)
    ensures
        header_lines(a + b) == header_lines(a) + header_lines(b),
        b.len() == 1 ==> header_lines(b) == value_lines(b[0].0, b[0].1),
    decreases b.len(),
{
    if b.len() == 0 {
        assert(a + b =~= a);
        assert(header_lines(a) + Seq::<u8>::empty() =~= header_lines(a));
    } else {
        let b1 = b.drop_last();
        assert((a + b).drop_last() =~= a + b1);
        assert((a + b).last() == b.last());
        lemma_header_lines_concat(a, b1);
        assert(header_lines(a) + header_lines(b1) + value_lines(b.last().0, b.last().1)
            =~= header_lines(a) + (header_lines(b1) + value_lines(b.last().0, b.last().1)));
        if b.len() == 1 {
            assert(b1.len() == 0);
            assert(Seq::<u8>::empty() + value_lines(b[0].0, b[0].1) =~= value_lines(b[0].0, b[0].1));
        }
    }
}

/// The line that frames the body: its length when known, else chunked coding.
pub open spec fn length_line(len: Option<usize>) -> Seq<u8> {
    match len {
        Some(n) => text("content-length: ") + decimal(n as nat) + crlf(),
        None => text("transfer-encoding: chunked") + crlf(),
    }
}

/// The head of a response sent on `date`.
pub open spec fn response_head(r: ResponseView, date: Seq<u8>) -> Seq<u8> {
    text("HTTP/1.1 ") + decimal(r.status as nat) + text(" ") + r.reason + crlf() + length_line(
        r.len,
    ) + text("date: ") + date + crlf() + header_lines(r.headers) + crlf()
}

/// Writes the lines of one header.
fn push_value_lines(out: &mut Vec<u8>, entry: &HeaderEntry)
    ensures
        final(out)@ == old(out)@ + value_lines(entry@.0, entry@.1),
{
    let n = entry.values.len();
    let mut i: usize = 0;
    while i < n
        invariant
            0 <= i <= n,
            n == entry.values@.len(),
            out@ == old(out)@ + value_lines(entry@.0, values_view(entry.values@).take(i as int)),
        decreases n - i,
    {
        let ghost before = out@;
        push_bytes(out, entry.name.as_slice());
        push_text(out, ": ");
        push_bytes(out, entry.values[i].as_slice());
        out.push(13u8);
        out.push(10u8);
        let ghost vs = values_view(entry.values@);
        assert(vs.take(i + 1).drop_last() =~= vs.take(i as int));
        assert(vs.take(i + 1).last() == entry.values@[i as int]@);
        i = i + 1;
        assert(out@ =~= before + entry@.0 + text(": ") + entry.values@[i - 1]@ + crlf());
    }
    assert(values_view(entry.values@).take(n as int) =~= entry@.1);
}

/// Writes the lines of all headers.
pub fn push_header_lines(out: &mut Vec<u8>, headers: &Vec<HeaderEntry>)
    ensures
        final(out)@ == old(out)@ + header_lines(entries_view(headers@)),
{
    let n = headers.len();
    let mut i: usize = 0;
    assert(entries_view(headers@).take(0) =~= Seq::<(Seq<u8>, Seq<Seq<u8>>)>::empty());
    while i < n
        invariant
            0 <= i <= n,
            n == headers@.len(),
            out@ == old(out)@ + header_lines(entries_view(headers@).take(i as int)),
        decreases n - i,
    {
        push_value_lines(out, &headers[i]);
        let ghost es = entries_view(headers@);
        assert(es.take(i + 1).drop_last() =~= es.take(i as int));
        assert(es.take(i + 1).last() == headers@[i as int]@);
        i = i + 1;
    }
    assert(entries_view(headers@).take(n as int) =~= entries_view(headers@));
}

/// Writes the head of `res` sent on `date`.
pub fn encode_head_bytes(res: &ResponseHead, date: &[u8]) -> (head: Vec<u8>)
    ensures
        head@ == response_head(res@, date@),
{
    let mut out: Vec<u8> = Vec::new();
    push_text(&mut out, "HTTP/1.1 ");
    let status = decimal_digits(res.status as u64);
    push_bytes(&mut out, status.as_slice());
    push_text(&mut out, " ");
    push_bytes(&mut out, res.reason.as_slice());
    out.push(13u8);
    out.push(10u8);
    let ghost line1 = out@;
    match res.len {
        Some(len) => {
            push_text(&mut out, "content-length: ");
            let digits = decimal_digits(len as u64);
            push_bytes(&mut out, digits.as_slice());
        },
        None => {
            push_text(&mut out, "transfer-encoding: chunked");
        },
    }
    out.push(13u8);
    out.push(10u8);
    assert(out@ =~= line1 + length_line(res.len));
    push_text(&mut out, "date: ");
    push_bytes(&mut out, date);
    out.push(13u8);
    out.push(10u8);
    push_header_lines(&mut out, &res.headers);
    out.push(13u8);
    out.push(10u8);
    assert(out@ =~= response_head(res@, date@));
    out
}


/// The state of the encoding process.
#[derive(Debug)]
pub enum EncoderState {
    Start,
    Head,
    Body { body_bytes_read: usize, body_len: usize },
    UncomputedChunked,
    ComputedChunked { chunk: Vec<u8>, pos: usize, is_last: bool },
    Done,
}

/// The view of [`EncoderState`].
pub enum EncodePhase {
    Start,
    Head,
    Body { body_bytes_read: nat, body_len: nat },
    UncomputedChunked,
    ComputedChunked { chunk: Seq<u8>, pos: nat, is_last: bool },
    Done,
}

impl View for EncoderState {
    type V = EncodePhase;

    open spec fn view(&self) -> EncodePhase {
        match self {
            EncoderState::Start => EncodePhase::Start,
            EncoderState::Head => EncodePhase::Head,
            EncoderState::Body { body_bytes_read, body_len } => EncodePhase::Body {
                body_bytes_read: *body_bytes_read as nat,
                body_len: *body_len as nat,
            },
            EncoderState::UncomputedChunked => EncodePhase::UncomputedChunked,
            EncoderState::ComputedChunked { chunk, pos, is_last } => EncodePhase::ComputedChunked {
                chunk: chunk@,
                pos: *pos as nat,
                is_last: *is_last,
            },
            EncoderState::Done => EncodePhase::Done,
        }
    }
}

/// A streaming HTTP response encoder: writes the head, then the body as it is read,
/// framed by its length or in chunks.
#[derive(Debug)]
pub struct Encoder {
    res: ResponseHead,
    state: EncoderState,
    bytes_read: usize,
    head: Vec<u8>,
    head_bytes_read: usize,
}

/// The view of [`Encoder`].
pub struct EncoderView {
    pub res: ResponseView,
    pub state: EncodePhase,
    pub bytes_read: nat,
    pub head: Seq<u8>,
    pub head_bytes_read: nat,
}

impl View for Encoder {
    type V = EncoderView;

    closed spec fn view(&self) -> EncoderView {
        EncoderView {
            res: self.res@,
            state: self.state@,
            bytes_read: self.bytes_read as nat,
            head: self.head@,
            head_bytes_read: self.head_bytes_read as nat,
        }
    }
}

/// What the caller of a read is to do next.
#[derive(Debug, Clone, Copy, PartialEq, Eq, Structural)]
pub enum EncodeStep {
    /// Write the head: call `start` with the date.
    Start,
    /// Take the next step.
    Continue,
    /// Read body bytes into `buf[start..end]`, then call `body_read`.
    ReadBody { start: usize, end: usize },
    /// Read up to `len` body bytes into a fresh buffer, then call `chunk_read`.
    ReadChunk { len: usize },
    /// This read is over: it produced this many bytes.
    Return(usize),
}

/// The bounds an encoder keeps.
pub open spec fn encoder_wf(v: EncoderView) -> bool {
    &&& v.head_bytes_read <= v.head.len()
    &&& match v.state {
        EncodePhase::Body { body_bytes_read, body_len } => body_bytes_read <= body_len
            <= usize::MAX,
        EncodePhase::ComputedChunked { chunk, pos, .. } => pos <= chunk.len() <= usize::MAX,
        _ => true,
    }
}

/// An encoder ready for a step of a read into a buffer of length `len`.
pub open spec fn step_ready(v: EncoderView, len: nat) -> bool {
    &&& encoder_wf(v)
    &&& len <= usize::MAX / 2
    &&& match v.state {
        EncodePhase::Start | EncodePhase::Head => v.bytes_read == 0,
        _ => v.bytes_read <= len,
    }
}

/// Where the body goes once the head is written.
pub open spec fn body_phase(len: Option<usize>) -> EncodePhase {
    match len {
        Some(n) => EncodePhase::Body { body_bytes_read: 0, body_len: n as nat },
        None => EncodePhase::UncomputedChunked,
    }
}

pub open spec fn min(a: int, b: int) -> int {
    if a < b {
        a
    } else {
        b
    }
}

/// One step of a read into `buf` that needs nothing from the body.
pub open spec fn step_spec(v: EncoderView, buf: Seq<u8>) -> (EncoderView, Seq<u8>, EncodeStep) {
    let b = v.bytes_read;
    match v.state {
        EncodePhase::Start => (v, buf, EncodeStep::Start),
        EncodePhase::Head => {
            let len = min(v.head.len() - v.head_bytes_read, buf.len() as int);
            let buf2 = v.head.subrange(
                v.head_bytes_read as int,
                v.head_bytes_read + len,
            ) + buf.skip(len);
            let hbr = (v.head_bytes_read + len) as nat;
            let b2 = (b + len) as nat;
            if hbr == v.head.len() {
                (
                    EncoderView {
                        bytes_read: b2,
                        head_bytes_read: hbr,
                        state: body_phase(v.res.len),
                        ..v
                    },
                    buf2,
                    EncodeStep::Continue,
                )
            } else {
                (
                    EncoderView { bytes_read: b2, head_bytes_read: hbr, ..v },
                    buf2,
                    EncodeStep::Return(b2 as usize),
                )
            }
        },
        EncodePhase::Body { body_bytes_read, body_len } => if b == buf.len() {
            (v, buf, EncodeStep::Return(b as usize))
        } else {
            (
                v,
                buf,
                EncodeStep::ReadBody {
                    start: b as usize,
                    end: (b + min(body_len - body_bytes_read, buf.len() - b)) as usize,
                },
            )
        },
        EncodePhase::UncomputedChunked => if b == buf.len() {
            (v, buf, EncodeStep::Return(b as usize))
        } else {
            (v, buf, EncodeStep::ReadChunk { len: (buf.len() - b) as usize })
        },
        EncodePhase::ComputedChunked { chunk, pos, is_last } => {
            let n = min(chunk.len() - pos, buf.len() - b);
            let buf2 = buf.take(b as int) + chunk.subrange(pos as int, pos + n) + buf.skip(b + n);
            let b2 = (b + n) as nat;
            let state2 = if pos + n == chunk.len() {
                if is_last {
                    EncodePhase::Done
                } else {
                    EncodePhase::UncomputedChunked
                }
            } else {
                EncodePhase::ComputedChunked { chunk, pos: (pos + n) as nat, is_last }
            };
            (EncoderView { bytes_read: b2, state: state2, ..v }, buf2, EncodeStep::Return(b2 as usize))
        },
        EncodePhase::Done => (v, buf, EncodeStep::Return(b as usize)),
    }
}

/// What `n` body bytes read into the buffer do.
pub open spec fn body_read_spec(v: EncoderView, n: nat) -> (EncoderView, EncodeStep) {
    match v.state {
        EncodePhase::Body { body_bytes_read, body_len } => {
            let bbr = body_bytes_read + n;
            let b2 = v.bytes_read + n;
            if body_len == bbr || n == 0 {
                (
                    EncoderView { bytes_read: b2, state: EncodePhase::Done, ..v },
                    EncodeStep::Return(b2 as usize),
                )
            } else {
                (
                    EncoderView {
                        bytes_read: b2,
                        state: EncodePhase::Body { body_bytes_read: bbr, body_len },
                        ..v
                    },
                    EncodeStep::Continue,
                )
            }
        },
        _ => (v, EncodeStep::Continue),
    }
}


/// What a chunk of `n` bytes read into `chunk` does to the buffer `buf`: its frame is
/// written after the bytes already produced when it fits there, else it is kept, to be
/// handed out from there on by the following steps.
pub open spec fn chunk_read_spec(v: EncoderView, buf: Seq<u8>, chunk: Seq<u8>, n: nat) -> (
    EncoderView,
    Seq<u8>,
    EncodeStep,
) {
    let b = v.bytes_read;
    let remaining = buf.len() - b;
    let framed = chunk_frame(chunk.take(n as int));
    let total = b + framed.len();
    if framed.len() <= remaining {
        let buf2 = buf.take(b as int) + framed + buf.skip(total as int);
        if n == 0 {
            (
                EncoderView { bytes_read: total as nat, state: EncodePhase::Done, ..v },
                buf2,
                EncodeStep::Return(total as usize),
            )
        } else {
            (EncoderView { bytes_read: total as nat, ..v }, buf2, EncodeStep::Continue)
        }
    } else {
        (
            EncoderView {
                state: EncodePhase::ComputedChunked { chunk: framed, pos: 0, is_last: n == 0 },
                ..v
            },
            buf,
            EncodeStep::Continue,
        )
    }
}

impl Encoder {
    /// Create a new instance.
    pub fn encode(res: ResponseHead) -> (e: Self)
        ensures
            e@ == (EncoderView {
                res: res@,
                state: EncodePhase::Start,
                bytes_read: 0,
                head: Seq::empty(),
                head_bytes_read: 0,
            }),
    {
        Encoder { res, state: EncoderState::Start, bytes_read: 0, head: Vec::new(), head_bytes_read: 0 }
    }

    /// Begins a read: no bytes are produced yet.
    pub fn begin(&mut self)
        requires
            encoder_wf(old(self)@),
        ensures
            final(self)@ == (EncoderView { bytes_read: 0, ..old(self)@ }),
            encoder_wf(final(self)@),
    {
        self.bytes_read = 0;
    }

    /// Encode the head on the first read.
    pub fn start(&mut self, date: &[u8])
        requires
            old(self)@.state is Start,
        ensures
            final(self)@ == (EncoderView {
                state: EncodePhase::Head,
                head: old(self)@.head + response_head(old(self)@.res, date@),
                ..old(self)@
            }),
    {
        self.state = EncoderState::Head;
        let head = encode_head_bytes(&self.res, date);
        push_bytes(&mut self.head, head.as_slice());
    }

    /// One step of a read into `buf` that needs nothing from the body.
    pub fn next(&mut self, buf: &mut Vec<u8>) -> (r: EncodeStep)
        requires
            step_ready(old(self)@, old(buf)@.len()),
        ensures
            (final(self)@, final(buf)@, r) == step_spec(old(self)@, old(buf)@),
            r is Continue ==> step_ready(final(self)@, final(buf)@.len()),
            encoder_wf(final(self)@),
            final(buf)@.len() == old(buf)@.len(),
    {
        let len = buf.len();
        let b = self.bytes_read;
        match &self.state {
            EncoderState::Start => EncodeStep::Start,
            EncoderState::Head => {
                let head_len = self.head.len();
                let hbr = self.head_bytes_read;
                let n = if head_len - hbr < len {
                    head_len - hbr
                } else {
                    len
                };
                write_at(buf, 0, slice_subrange(self.head.as_slice(), hbr, hbr + n));
                self.bytes_read = b + n;
                self.head_bytes_read = hbr + n;
                assert(buf@ =~= step_spec(old(self)@, old(buf)@).1);
                if self.head_bytes_read == head_len {
                    self.state = match self.res.len {
                        Some(body_len) => EncoderState::Body { body_bytes_read: 0, body_len },
                        None => EncoderState::UncomputedChunked,
                    };
                    EncodeStep::Continue
                } else {
                    EncodeStep::Return(self.bytes_read)
                }
            },
            EncoderState::Body { body_bytes_read, body_len } => {
                if b == len {
                    EncodeStep::Return(b)
                } else {
                    let left = *body_len - *body_bytes_read;
                    let end = if left < len - b {
                        b + left
                    } else {
                        len
                    };
                    EncodeStep::ReadBody { start: b, end }
                }
            },
            EncoderState::UncomputedChunked => {
                if b == len {
                    EncodeStep::Return(b)
                } else {
                    EncodeStep::ReadChunk { len: len - b }
                }
            },
            EncoderState::ComputedChunked { chunk, pos, is_last } => {
                let avail = chunk.len() - *pos;
                let n = if avail < len - b {
                    avail
                } else {
                    len - b
                };
                let p = *pos;
                let last = *is_last;
                let whole = p + n == chunk.len();
                write_at(buf, b, slice_subrange(chunk.as_slice(), p, p + n));
                assert(buf@ =~= step_spec(old(self)@, old(buf)@).1);
                self.bytes_read = b + n;
                if whole {
                    self.state = if last {
                        EncoderState::Done
                    } else {
                        EncoderState::UncomputedChunked
                    };
                } else {
                    let mut st = EncoderState::Done;
                    core::mem::swap(&mut st, &mut self.state);
                    if let EncoderState::ComputedChunked { chunk, .. } = st {
                        self.state = EncoderState::ComputedChunked { chunk, pos: p + n, is_last: last };
                    }
                }
                EncodeStep::Return(self.bytes_read)
            },
            EncoderState::Done => EncodeStep::Return(b),
        }
    }

    /// Records that `n` body bytes were read into `buf[start..end]` as `next` asked.
    pub fn body_read(&mut self, buf_len: usize, n: usize) -> (r: EncodeStep)
        requires
            step_ready(old(self)@, buf_len as nat),
            old(self)@.bytes_read < buf_len,
            old(self)@.state matches EncodePhase::Body { body_bytes_read, body_len } && n <= min(
                body_len - body_bytes_read,
                buf_len - old(self)@.bytes_read,
            ),
        ensures
            (final(self)@, r) == body_read_spec(old(self)@, n as nat),
            r is Continue ==> step_ready(final(self)@, buf_len as nat),
            encoder_wf(final(self)@),
    {
        if let EncoderState::Body { body_bytes_read, body_len } = self.state {
            let bbr = body_bytes_read + n;
            self.bytes_read = self.bytes_read + n;
            if body_len == bbr {
                self.state = EncoderState::Done;
                EncodeStep::Return(self.bytes_read)
            } else if n == 0 {
                self.state = EncoderState::Done;
                EncodeStep::Return(self.bytes_read)
            } else {
                self.state = EncoderState::Body { body_bytes_read: bbr, body_len };
                EncodeStep::Continue
            }
        } else {
            EncodeStep::Continue
        }
    }

    /// Records that `n` body bytes were read into `chunk`, whose length `next` gave, and
    /// frames them as a chunk into `buf`, or keeps the frame for the following reads.
    pub fn chunk_read(&mut self, buf: &mut Vec<u8>, chunk: &[u8], n: usize) -> (r: EncodeStep)
        requires
            step_ready(old(self)@, old(buf)@.len()),
            old(self)@.state is UncomputedChunked,
            old(self)@.bytes_read < old(buf)@.len(),
            chunk@.len() == old(buf)@.len() - old(self)@.bytes_read,
            n <= chunk@.len(),
        ensures
            (final(self)@, final(buf)@, r) == chunk_read_spec(old(self)@, old(buf)@, chunk@, n as nat),
            r is Continue ==> step_ready(final(self)@, final(buf)@.len()),
            encoder_wf(final(self)@),
            final(buf)@.len() == old(buf)@.len(),
    {
        let b = self.bytes_read;
        let remaining = buf.len() - b;
        let mut framed = hex_upper(n as u64);
        assert(framed@ == hex(n as nat));
        framed.push(13u8);
        framed.push(10u8);
        push_bytes(&mut framed, slice_subrange(chunk, 0, n));
        framed.push(13u8);
        framed.push(10u8);
        assert(framed@ =~= chunk_frame(chunk@.take(n as int)));
        proof { crate::digits::lemma_hex_len(n as nat); }
        if framed.len() <= remaining {
            let total = b + framed.len();
            write_at(buf, b, framed.as_slice());
            self.bytes_read = total;
            if n == 0 {
                self.state = EncoderState::Done;
                EncodeStep::Return(total)
            } else {
                EncodeStep::Continue
            }
        } else {
            self.state = EncoderState::ComputedChunked { chunk: framed, pos: 0, is_last: n == 0 };
            EncodeStep::Continue
        }
    }

    /// What a read returns when the body is not ready: nothing to report yet when this
    /// read has produced no bytes, else the bytes produced so far.
    pub fn pending(&self) -> (r: Option<usize>)
        ensures
            r == (if self@.bytes_read == 0 {
                None::<usize>
            } else {
                Some(self@.bytes_read as usize)
            }),
    {
        if self.bytes_read == 0 {
            None
        } else {
            Some(self.bytes_read)
        }
    }
}

/// What `start` does to the view: the head, sent on `date`, is written out, to be handed
/// out next.
pub open spec fn started(v: EncoderView, date: Seq<u8>) -> EncoderView {
    EncoderView { state: EncodePhase::Head, head: v.head + response_head(v.res, date), ..v }
}

/// The rest of a read into `buf`, the date being `date` and the body reader handing out
/// the bytes of `body` as far as asked: the view after the read, the buffer, the body
/// not yet read, and how many bytes the read produced. `None` when the read takes more
/// than `fuel` steps.
pub open spec fn read_rest(
    v: EncoderView,
    buf: Seq<u8>,
    body: Seq<u8>,
    date: Seq<u8>,
    fuel: nat,
) -> Option<(EncoderView, Seq<u8>, Seq<u8>, nat)>
    decreases fuel,
{
    if fuel == 0 {
        None
    } else {
        let (v1, buf1, step) = step_spec(v, buf);
        match step {
            EncodeStep::Start => read_rest(started(v, date), buf, body, date, (fuel - 1) as nat),
            EncodeStep::Continue => read_rest(v1, buf1, body, date, (fuel - 1) as nat),
            EncodeStep::ReadBody { start, end } => {
                let k = min(end - start, body.len() as int);
                let buf2 = buf1.take(start as int) + body.take(k) + buf1.skip(start + k);
                let (v2, step2) = body_read_spec(v1, k as nat);
                match step2 {
                    EncodeStep::Return(r) => Some((v2, buf2, body.skip(k), r as nat)),
                    _ => read_rest(v2, buf2, body.skip(k), date, (fuel - 1) as nat),
                }
            },
            EncodeStep::ReadChunk { len } => {
                let k = min(len as int, body.len() as int);
                let (v2, buf2, step2) = chunk_read_spec(v1, buf1, body.take(k), k as nat);
                match step2 {
                    EncodeStep::Return(r) => Some((v2, buf2, body.skip(k), r as nat)),
                    _ => read_rest(v2, buf2, body.skip(k), date, (fuel - 1) as nat),
                }
            },
            EncodeStep::Return(r) => Some((v1, buf1, body, r as nat)),
        }
    }
}

/// A buffer of `len` bytes handed to a read; what it held before does not matter.
pub open spec fn fresh(len: nat) -> Seq<u8> {
    Seq::new(len, |i: int| 0u8)
}

/// Reads into fresh buffers of the lengths `lens`, one after another, each taking at most
/// `fuel` steps, until one hands out nothing: the view after them, the body not yet read,
/// the bytes they handed out, joined, whether a read handed out nothing, and whether each
/// read handed out no more than its buffer holds.
pub open spec fn serve(
    v: EncoderView,
    lens: Seq<nat>,
    body: Seq<u8>,
    date: Seq<u8>,
    fuel: nat,
) -> Option<(EncoderView, Seq<u8>, Seq<u8>, bool, bool)>
    decreases lens.len(),
{
    if lens.len() == 0 {
        Some((v, body, Seq::empty(), false, true))
    } else {
        match read_rest(EncoderView { bytes_read: 0, ..v }, fresh(lens[0]), body, date, fuel) {
            None => None,
            Some((v1, buf1, body1, r)) => if r == 0 {
                Some((v1, body1, Seq::empty(), true, true))
            } else {
                match serve(v1, lens.drop_first(), body1, date, fuel) {
                    None => None,
                    Some((v2, body2, out, ended, fits)) => Some(
                        (v2, body2, buf1.take(r as int) + out, ended, fits && r <= lens[0]),
                    ),
                }
            },
        }
    }
}

/// A done encoder hands out nothing, writes nothing into the buffer, and reads nothing
/// from the body: every later read returns 0.
pub proof fn lemma_done_reads_nothing(v: EncoderView, buf: Seq<u8>, body: Seq<u8>, date: Seq<u8>, fuel: nat)
    requires
        v.state is Done,
        fuel >= 1,
    ensures
        read_rest(EncoderView { bytes_read: 0, ..v }, buf, body, date, fuel) == Some(
            (EncoderView { bytes_read: 0, ..v }, buf, body, 0nat),
        ),
{
}

/// A read that begins in the body of a response of known length: it copies as much of
/// the body as the buffer, the length and the body reader allow after the bytes already
/// produced, and then returns. The body is over once the reader has run dry.
proof fn lemma_body_read_rest(v: EncoderView, buf: Seq<u8>, body: Seq<u8>, date: Seq<u8>, fuel: nat)
    requires
        v.state matches EncodePhase::Body { body_bytes_read, body_len } && body_bytes_read
            <= body_len,
        v.bytes_read <= buf.len() <= usize::MAX / 2,
        fuel >= 2,
    ensures
        ({
            let bbr = v.state->body_bytes_read;
            let bl = v.state->body_len;
            let b = v.bytes_read;
            let m = min(bl - bbr, buf.len() - b);
            let k = min(m, body.len() as int);
            &&& read_rest(v, buf, body, date, fuel) matches Some((v2, buf2, body2, r)) && {
                &&& r == b + k
                &&& buf2.take(r as int) == buf.take(b as int) + body.take(k)
                &&& body2 == body.skip(k)
                &&& v2.res == v.res && v2.head == v.head && v2.head_bytes_read == v.head_bytes_read
                &&& v2.state == (if b == buf.len() {
                    v.state
                } else if bbr + k == bl || k < m {
                    EncodePhase::Done
                } else {
                    EncodePhase::Body { body_bytes_read: (bbr + k) as nat, body_len: bl }
                })
            }
        }),
{
    let bbr = v.state->body_bytes_read;
    let bl = v.state->body_len;
    let b = v.bytes_read;
    let m = min(bl - bbr, buf.len() - b);
    let k = min(m, body.len() as int);
    if b == buf.len() {
        assert(buf.take(b as int) + body.take(0) =~= buf.take(b as int));
        assert(body.skip(0) =~= body);
    } else {
        let (v1, buf1, step) = step_spec(v, buf);
        assert(v1 == v && buf1 == buf);
        assert(step == EncodeStep::ReadBody { start: b as usize, end: (b + m) as usize });
        let buf2 = buf.take(b as int) + body.take(k) + buf.skip(b + k);
        assert(buf2.take(b + k) =~= buf.take(b as int) + body.take(k));
        let (v2, step2) = body_read_spec(v, k as nat);
        if bl == bbr + k || k == 0 {
        } else if k < m {
            // The reader ran dry: the next read of the body gets nothing and ends it.
            let rest = body.skip(k);
            assert(rest.len() == 0);
            let (v3, buf3, step3) = step_spec(v2, buf2);
            assert(v3 == v2 && buf3 == buf2);
            let m2 = min(bl - (bbr + k), buf.len() - (b + k));
            assert(step3 == EncodeStep::ReadBody {
                start: (b + k) as usize,
                end: (b + k + m2) as usize,
            });
            assert(buf2.take(b + k) + rest.take(0) + buf2.skip(b + k) =~= buf2);
            assert(rest.skip(0) =~= rest);
            assert(read_rest(v2, buf2, rest, date, (fuel - 1) as nat) == Some(
                (
                    EncoderView { bytes_read: (b + k) as nat, state: EncodePhase::Done, ..v2 },
                    buf2,
                    rest,
                    (b + k) as nat,
                ),
            ));
        } else {
            assert(b + k == buf.len());
            let (v3, buf3, step3) = step_spec(v2, buf2);
            assert(step3 == EncodeStep::Return((b + k) as usize));
            assert(read_rest(v2, buf2, body.skip(k), date, (fuel - 1) as nat) == Some(
                (v2, buf2, body.skip(k), (b + k) as nat),
            ));
        }
    }
}

/// A read that begins in the head of a response of known length `n`: it copies as much
/// of the head as fits, then, if the head is done, as much of the body as still fits and
/// the reader holds, and returns.
proof fn lemma_head_read_rest(v: EncoderView, buf: Seq<u8>, body: Seq<u8>, date: Seq<u8>, fuel: nat)
    requires
        v.state is Head,
        v.bytes_read == 0,
        v.head_bytes_read <= v.head.len(),
        v.res.len is Some,
        1 <= buf.len() <= usize::MAX / 2,
        fuel >= 3,
    ensures
        ({
            let hbr = v.head_bytes_read;
            let h = v.head;
            let n = v.res.len->Some_0 as nat;
            let p = min(h.len() - hbr, buf.len() as int);
            let m = min(n as int, buf.len() - p);
            let k = min(m, body.len() as int);
            &&& read_rest(v, buf, body, date, fuel) matches Some((v2, buf2, body2, r)) && {
                &&& v2.head == h && v2.res == v.res
                &&& if hbr + p < h.len() {
                    &&& r == p
                    &&& buf2.take(r as int) == h.subrange(hbr as int, hbr + p)
                    &&& body2 == body
                    &&& v2.state == EncodePhase::Head
                    &&& v2.head_bytes_read == hbr + p
                } else {
                    &&& r == p + k
                    &&& buf2.take(r as int) == h.skip(hbr as int) + body.take(k)
                    &&& body2 == body.skip(k)
                    &&& v2.head_bytes_read == h.len()
                    &&& v2.state == (if p == buf.len() {
                        EncodePhase::Body { body_bytes_read: 0, body_len: n }
                    } else if k == n || k < m {
                        EncodePhase::Done
                    } else {
                        EncodePhase::Body { body_bytes_read: k as nat, body_len: n }
                    })
                }
            }
        }),
{
    let hbr = v.head_bytes_read;
    let h = v.head;
    let n = v.res.len->Some_0 as nat;
    let p = min(h.len() - hbr, buf.len() as int);
    let (v1, buf1, step) = step_spec(v, buf);
    assert(buf1 =~= h.subrange(hbr as int, hbr + p) + buf.skip(p));
    assert(buf1.take(p) =~= h.subrange(hbr as int, hbr + p));
    if hbr + p < h.len() {
    } else {
        assert(v1.state == EncodePhase::Body { body_bytes_read: 0, body_len: n });
        assert(step == EncodeStep::Continue);
        assert(h.subrange(hbr as int, hbr + p) =~= h.skip(hbr as int));
        lemma_body_read_rest(v1, buf1, body, date, (fuel - 1) as nat);
    }
}

/// How many reads an encoder of a response of known length may still take: one per
/// head and body byte left, and the ones that end the head and the body.
pub open spec fn reads_left(v: EncoderView, date: Seq<u8>) -> nat {
    let n = v.res.len->Some_0 as nat;
    match v.state {
        EncodePhase::Start => response_head(v.res, date).len() + n + 2,
        EncodePhase::Head => (v.head.len() - v.head_bytes_read + n + 2) as nat,
        EncodePhase::Body { body_bytes_read, body_len } => (body_len - body_bytes_read + 1) as nat,
        _ => 0,
    }
}

/// The bytes still to come from an encoder of a response of known length `n`, its body
/// reader holding `body`: the rest of the head, then what the reader holds of the rest
/// of the `n` body bytes.
pub open spec fn still_to_come(v: EncoderView, body: Seq<u8>, date: Seq<u8>) -> Seq<u8> {
    let n = v.res.len->Some_0 as nat;
    match v.state {
        EncodePhase::Start => response_head(v.res, date) + body.take(min(n as int, body.len() as int)),
        EncodePhase::Head => v.head.skip(v.head_bytes_read as int) + body.take(
            min(n as int, body.len() as int),
        ),
        EncodePhase::Body { body_bytes_read, body_len } => body.take(
            min(body_len - body_bytes_read, body.len() as int),
        ),
        _ => Seq::empty(),
    }
}

/// What the body reader will still hold once the encoder is done.
pub open spec fn body_left(v: EncoderView, body: Seq<u8>) -> Seq<u8> {
    let n = v.res.len->Some_0 as nat;
    match v.state {
        EncodePhase::Start | EncodePhase::Head => body.skip(min(n as int, body.len() as int)),
        EncodePhase::Body { body_bytes_read, body_len } => body.skip(
            min(body_len - body_bytes_read, body.len() as int),
        ),
        _ => body,
    }
}

/// The views an encoder of a response of known length passes through.
pub open spec fn serving_fixed(v: EncoderView) -> bool {
    &&& v.res.len is Some
    &&& match v.state {
        EncodePhase::Start => v.head.len() == 0 && v.head_bytes_read == 0,
        EncodePhase::Head => v.head_bytes_read <= v.head.len(),
        EncodePhase::Body { body_bytes_read, body_len } => body_len == v.res.len->Some_0
            && body_bytes_read <= body_len,
        EncodePhase::Done => true,
        _ => false,
    }
}

/// What one read of an encoder of a response of known length does: it hands out the
/// front of what is still to come, keeps what the reader will be left with, and leaves
/// fewer reads to take.
pub open spec fn one_read_ok(
    v: EncoderView,
    body: Seq<u8>,
    date: Seq<u8>,
    len: nat,
    res: Option<(EncoderView, Seq<u8>, Seq<u8>, nat)>,
) -> bool {
    res matches Some((v1, buf1, body1, r)) && {
        &&& r <= len
        &&& r == 0 ==> v1.state is Done
        &&& serving_fixed(v1)
        &&& v1.state is Head ==> v1.head == response_head(v1.res, date)
        &&& v1.res == v.res
        &&& reads_left(v1, date) < reads_left(v, date)
        &&& still_to_come(v, body, date) == buf1.take(r as int) + still_to_come(v1, body1, date)
        &&& body_left(v, body) == body_left(v1, body1)
    }
}

/// One read of an encoder of a response of known length.
proof fn lemma_one_read(v: EncoderView, len: nat, body: Seq<u8>, date: Seq<u8>)
    requires
        serving_fixed(v),
        v.state is Head ==> v.head == response_head(v.res, date),
        !(v.state is Done),
        1 <= len <= usize::MAX / 2,
    ensures
        one_read_ok(v, body, date, len, read_rest(EncoderView { bytes_read: 0, ..v }, fresh(len), body, date, 4)),
{
    match v.state {
        EncodePhase::Start => {
            let u = EncoderView { bytes_read: 0, ..v };
            let w = started(u, date);
            assert(w.head =~= response_head(v.res, date));
            assert(read_rest(u, fresh(len), body, date, 4) == read_rest(w, fresh(len), body, date, 3));
            lemma_head_read(w, len, body, date, 3);
            assert(w.head.skip(0) =~= w.head);
            assert(still_to_come(w, body, date) == still_to_come(v, body, date));
            assert(reads_left(w, date) == reads_left(v, date));
            assert(body_left(w, body) == body_left(v, body));
        },
        EncodePhase::Head => lemma_head_read(EncoderView { bytes_read: 0, ..v }, len, body, date, 4),
        _ => lemma_body_read(v, len, body, date),
    }
}

/// A read that begins in the head, reckoned against what was still to come before the
/// head began when `w` holds nothing of it yet.
proof fn lemma_head_read(w: EncoderView, len: nat, body: Seq<u8>, date: Seq<u8>, fuel: nat)
    requires
        serving_fixed(w),
        w.state is Head,
        w.bytes_read == 0,
        w.head == response_head(w.res, date),
        1 <= len <= usize::MAX / 2,
        fuel >= 3,
    ensures
        read_rest(w, fresh(len), body, date, fuel) matches Some((v1, buf1, body1, r)) && {
            &&& r <= len
            &&& r == 0 ==> v1.state is Done
            &&& serving_fixed(v1)
            &&& v1.state is Head ==> v1.head == response_head(v1.res, date)
            &&& v1.res == w.res
            &&& reads_left(v1, date) < reads_left(w, date)
            &&& still_to_come(w, body, date) == buf1.take(r as int) + still_to_come(v1, body1, date)
            &&& body_left(w, body) == body_left(v1, body1)
        },
{
    let n = w.res.len->Some_0 as nat;
    let buf = fresh(len);
    let h = w.head;
    let hbr = w.head_bytes_read;
    lemma_head_read_rest(w, buf, body, date, fuel);
    let p = min(h.len() - hbr, len as int);
    let m = min(n as int, len - p);
    let k = min(m, body.len() as int);
    let c = min(n as int, body.len() as int);
    if hbr + p < h.len() {
        assert(h.subrange(hbr as int, hbr + p) + (h.skip(hbr + p) + body.take(c)) =~= h.skip(
            hbr as int,
        ) + body.take(c));
    } else if p == len {
        assert(k == 0);
        assert(h.skip(hbr as int) + body.take(0) + body.take(c) =~= h.skip(hbr as int) + body.take(c));
        assert(body.skip(0) =~= body);
        assert(body.skip(0).take(min(n as int, body.len() as int)) =~= body.take(c));
    } else if k == n || k < m {
        assert(k == c);
        assert(h.skip(hbr as int) + body.take(k) + Seq::empty() =~= h.skip(hbr as int) + body.take(c));
    } else {
        let rest = body.skip(k);
        assert(h.skip(hbr as int) + body.take(k) + rest.take(min(n - k, rest.len() as int))
            =~= h.skip(hbr as int) + body.take(c));
        assert(rest.skip(min(n - k, rest.len() as int)) =~= body.skip(c));
    }
}

proof fn lemma_body_read(v: EncoderView, len: nat, body: Seq<u8>, date: Seq<u8>)
    requires
        serving_fixed(v),
        v.state is Body,
        1 <= len <= usize::MAX / 2,
    ensures
        one_read_ok(v, body, date, len, read_rest(EncoderView { bytes_read: 0, ..v }, fresh(len), body, date, 4)),
{
    let u = EncoderView { bytes_read: 0, ..v };
    let buf = fresh(len);
    let bbr = v.state->body_bytes_read;
    let bl = v.state->body_len;
    lemma_body_read_rest(u, buf, body, date, 4);
    let m = min(bl - bbr, len as int);
    let k = min(m, body.len() as int);
    let c = min(bl - bbr, body.len() as int);
    assert(buf.take(0) + body.take(k) =~= body.take(k));
    if bbr + k == bl || k < m {
        assert(k == c);
        assert(body.take(k) + Seq::empty() =~= body.take(c));
    } else {
        let rest = body.skip(k);
        assert(body.take(k) + rest.take(min(bl - bbr - k, rest.len() as int)) =~= body.take(c));
        assert(rest.skip(min(bl - bbr - k, rest.len() as int)) =~= body.skip(c));
    }
}

/// Every length is that of a buffer a read may be handed.
pub open spec fn read_lengths(lens: Seq<nat>) -> bool {
    forall|i: int| 0 <= i < lens.len() ==> 1 <= #[trigger] lens[i] <= usize::MAX / 2
}

proof fn lemma_serve_fixed(v: EncoderView, lens: Seq<nat>, body: Seq<u8>, date: Seq<u8>)
    requires
        serving_fixed(v),
        v.state is Head ==> v.head == response_head(v.res, date),
        read_lengths(lens),
        lens.len() > reads_left(v, date),
    ensures
        serve(v, lens, body, date, 4) matches Some((v2, body2, out, ended, fits)) && {
            &&& ended && fits
            &&& out == still_to_come(v, body, date)
            &&& v2.state is Done
            &&& body2 == body_left(v, body)
        },
    decreases lens.len(),
{
    assert(lens[0] >= 1);
    let u = EncoderView { bytes_read: 0, ..v };
    if v.state is Done {
        lemma_done_reads_nothing(v, fresh(lens[0]), body, date, 4);
    } else {
        lemma_one_read(v, lens[0], body, date);
        let (v1, buf1, body1, r) = read_rest(u, fresh(lens[0]), body, date, 4)->Some_0;
        if r == 0 {
            assert(buf1.take(0) + still_to_come(v1, body1, date) =~= still_to_come(v1, body1, date));
        } else {
            let rest = lens.drop_first();
            assert forall|i: int| 0 <= i < rest.len() implies 1 <= #[trigger] rest[i] <= usize::MAX
                / 2 by {
                assert(rest[i] == lens[i + 1]);
            }
            lemma_serve_fixed(v1, rest, body1, date);
        }
    }
}

/// A response of known length `n`, read through buffers of any non-empty lengths until a
/// read hands out nothing, its body reader holding `body`: the reads hand out the head,
/// sent on `date`, then the first `n` bytes of the body, or the whole body where it is
/// shorter; no read hands out more than its buffer holds, the first read that hands out
/// nothing comes only then, and no more of the body is read than that; the encoder is
/// then done. The reads end within one per byte of the head and of the body, and three
/// more.
pub proof fn lemma_fixed_length_response(res: ResponseView, body: Seq<u8>, date: Seq<u8>, lens: Seq<nat>)
    requires
        res.len is Some,
        read_lengths(lens),
        lens.len() >= response_head(res, date).len() + res.len->Some_0 + 3,
    ensures
        ({
            let v = EncoderView {
                res,
                state: EncodePhase::Start,
                bytes_read: 0,
                head: Seq::empty(),
                head_bytes_read: 0,
            };
            let n = res.len->Some_0 as nat;
            let c = min(n as int, body.len() as int);
            let h = response_head(res, date);
            serve(v, lens, body, date, 4) matches Some((v2, rest, out, ended, fits)) && {
                &&& ended && fits
                &&& out == h + body.take(c)
                &&& rest == body.skip(c)
                &&& v2.state is Done
            }
        }),
{
    let v = EncoderView {
        res,
        state: EncodePhase::Start,
        bytes_read: 0,
        head: Seq::empty(),
        head_bytes_read: 0,
    };
    lemma_serve_fixed(v, lens, body, date);
}

/// The hexadecimal digits of a positive number are no more than the number.
proof fn lemma_hex_len(n: nat)
    requires
        n >= 1,
    ensures
        hex(n).len() <= n,
    decreases n,
{
    if n >= 16 {
        lemma_hex_len(n / 16);
    }
}

/// The bytes of two runs of chunks are those of the first, then those of the second.
proof fn lemma_joined_concat(a: Seq<Seq<u8>>, b: Seq<Seq<u8>>)
    ensures
        joined(a + b) == joined(a) + joined(b),
    decreases a.len(),
{
    if a.len() == 0 {
        assert(a + b =~= b);
        assert(Seq::<u8>::empty() + joined(b) =~= joined(b));
    } else {
        assert((a + b)[0] == a[0]);
        assert((a + b).drop_first() =~= a.drop_first() + b);
        lemma_joined_concat(a.drop_first(), b);
        assert(a[0] + (joined(a.drop_first()) + joined(b)) =~= a[0] + joined(a.drop_first())
            + joined(b));
    }
}

/// The frames of a first chunk and of the chunks after it.
proof fn lemma_chunked_body_cons(d: Seq<u8>, c: Seq<Seq<u8>>)
    ensures
        chunked_body(seq![d] + c) == chunk_frame(d) + chunked_body(c),
        joined(seq![d] + c) == d + joined(c),
{
    let s = seq![d] + c;
    assert(s[0] == d);
    assert(s.drop_first() =~= c);
}

/// The views an encoder of a response of unknown length passes through, its body reader
/// holding `body`: a chunk's frame is handed out only while something of it is left, the
/// last one once the body has run dry, after which the encoder is done.
pub open spec fn serving_chunked(v: EncoderView, body: Seq<u8>, date: Seq<u8>) -> bool {
    &&& v.res.len is None
    &&& match v.state {
        EncodePhase::Start => v.head.len() == 0 && v.head_bytes_read == 0,
        EncodePhase::Head => v.head == response_head(v.res, date) && v.head_bytes_read
            <= v.head.len(),
        EncodePhase::UncomputedChunked => true,
        EncodePhase::ComputedChunked { chunk, pos, is_last } => pos < chunk.len() && (is_last
            ==> chunk == chunk_frame(Seq::empty()) && body.len() == 0),
        EncodePhase::Done => body.len() == 0,
        _ => false,
    }
}

/// The encoder has framed the end of the body.
pub open spec fn framed_end(v: EncoderView) -> bool {
    v.state is Done || (v.state matches EncodePhase::ComputedChunked { is_last, .. } && is_last)
}

/// What an encoder of a response of unknown length still hands out where the chunks
/// still to be read from its body are `chunks`.
pub open spec fn chunked_tail(v: EncoderView, chunks: Seq<Seq<u8>>, date: Seq<u8>) -> Seq<u8> {
    match v.state {
        EncodePhase::Start => response_head(v.res, date) + chunked_body(chunks),
        EncodePhase::Head => v.head.skip(v.head_bytes_read as int) + chunked_body(chunks),
        EncodePhase::UncomputedChunked => chunked_body(chunks),
        EncodePhase::ComputedChunked { chunk, pos, is_last } => if is_last {
            chunk.skip(pos as int)
        } else {
            chunk.skip(pos as int) + chunked_body(chunks)
        },
        _ => Seq::empty(),
    }
}

/// A bound on the reads an encoder of a response of unknown length may still take.
pub open spec fn chunked_reads_left(v: EncoderView, body: Seq<u8>, date: Seq<u8>) -> nat {
    let w = 8 * body.len() + 6;
    match v.state {
        EncodePhase::Start => response_head(v.res, date).len() + w + 2,
        EncodePhase::Head => (v.head.len() - v.head_bytes_read + w + 1) as nat,
        EncodePhase::UncomputedChunked => w,
        EncodePhase::ComputedChunked { chunk, pos, is_last } => if is_last {
            (chunk.len() - pos) as nat
        } else {
            (chunk.len() - pos + w) as nat
        },
        _ => 0,
    }
}

/// What a step of a read of a chunked body did: it wrote after the `b` bytes already
/// produced, up to `r`; it made progress; the chunks `pre` it read are what it took of the
/// body; and what it wrote, then what is left to come, is what was to come.
pub open spec fn chunk_progress(
    v: EncoderView,
    body: Seq<u8>,
    date: Seq<u8>,
    buf: Seq<u8>,
    b: nat,
    pre: Seq<Seq<u8>>,
    res: Option<(EncoderView, Seq<u8>, Seq<u8>, nat)>,
) -> bool {
    res matches Some((v1, buf1, body1, r)) && {
        &&& b < r <= buf.len()
        &&& buf1.len() == buf.len()
        &&& buf1.take(b as int) == buf.take(b as int)
        &&& serving_chunked(v1, body1, date)
        &&& v1.res == v.res && v1.head == v.head && v1.head_bytes_read == v.head_bytes_read
        &&& chunked_reads_left(v1, body1, date) < chunked_reads_left(v, body, date)
        &&& joined(pre) + body1 == body
        &&& forall|i: int| 0 <= i < pre.len() ==> 1 <= (#[trigger] pre[i]).len() <= buf.len()
        &&& framed_end(v) ==> pre.len() == 0 && framed_end(v1)
        &&& forall|c: Seq<Seq<u8>>|
            (framed_end(v1) ==> c.len() == 0) ==> #[trigger] chunked_tail(v, pre + c, date)
                == buf1.subrange(b as int, r as int) + chunked_tail(v1, c, date)
    }
}

/// The steps needed to finish a read of a chunked body.
pub open spec fn chunk_fuel(v: EncoderView, body: Seq<u8>) -> nat {
    if v.state is ComputedChunked {
        1
    } else if body.len() == 0 {
        2
    } else {
        3
    }
}

/// The rest of a read that stands in a chunked body, with room left in the buffer.
proof fn lemma_chunk_rest(v: EncoderView, buf: Seq<u8>, body: Seq<u8>, date: Seq<u8>, fuel: nat) -> (pre: Seq<Seq<u8>>)
    requires
        serving_chunked(v, body, date),
        v.state is UncomputedChunked || v.state is ComputedChunked,
        v.bytes_read < buf.len() <= usize::MAX / 2,
        fuel >= chunk_fuel(v, body),
    ensures
        chunk_progress(v, body, date, buf, v.bytes_read, pre, read_rest(v, buf, body, date, fuel)),
    decreases fuel, 1nat,
{
    if v.state is ComputedChunked {
        lemma_computed_step(v, buf, body, date, fuel)
    } else {
        let b = v.bytes_read;
        let k = min(buf.len() - b, body.len() as int);
        if chunk_frame(body.take(k)).len() <= buf.len() - b {
            lemma_frame_fits(v, buf, body, date, fuel)
        } else {
            lemma_frame_kept(v, buf, body, date, fuel)
        }
    }
}

/// A step that hands out the next part of a kept frame.
proof fn lemma_computed_step(v: EncoderView, buf: Seq<u8>, body: Seq<u8>, date: Seq<u8>, fuel: nat) -> (pre: Seq<Seq<u8>>)
    requires
        serving_chunked(v, body, date),
        v.state is ComputedChunked,
        v.bytes_read < buf.len() <= usize::MAX / 2,
        fuel >= 1,
    ensures
        pre == Seq::<Seq<u8>>::empty(),
        chunk_progress(v, body, date, buf, v.bytes_read, pre, read_rest(v, buf, body, date, fuel)),
{
    let b = v.bytes_read;
    let len = buf.len();
    let chunk = v.state->chunk;
    let pos = v.state->pos;
    let n = min(chunk.len() - pos, len - b);
    let (v1, buf1, step) = step_spec(v, buf);
    assert(buf1.take(b as int) =~= buf.take(b as int));
    assert(buf1.subrange(b as int, b + n) =~= chunk.subrange(pos as int, pos + n));
    assert(joined(Seq::<Seq<u8>>::empty()) + body =~= body);
    assert forall|c: Seq<Seq<u8>>|
        (framed_end(v1) ==> c.len() == 0) implies #[trigger] chunked_tail(
        v,
        Seq::empty() + c,
        date,
    ) == buf1.subrange(b as int, b + n) + chunked_tail(v1, c, date) by {
        assert(Seq::<Seq<u8>>::empty() + c =~= c);
        assert(chunk.skip(pos as int) =~= chunk.subrange(pos as int, pos + n) + chunk.skip(pos + n));
        if pos + n == chunk.len() {
            assert(chunk.skip(pos + n) =~= Seq::<u8>::empty());
        }
    }
    Seq::empty()
}

/// A step that reads a chunk whose frame fits after the bytes already produced: the body
/// has run dry, and the read goes on to frame its end.
#[verifier::rlimit(30)]
proof fn lemma_frame_fits(v: EncoderView, buf: Seq<u8>, body: Seq<u8>, date: Seq<u8>, fuel: nat) -> (pre: Seq<Seq<u8>>)
    requires
        serving_chunked(v, body, date),
        v.state is UncomputedChunked,
        v.bytes_read < buf.len() <= usize::MAX / 2,
        fuel >= chunk_fuel(v, body),
        chunk_frame(body.take(min(buf.len() - v.bytes_read, body.len() as int))).len() <= buf.len()
            - v.bytes_read,
    ensures
        chunk_progress(v, body, date, buf, v.bytes_read, pre, read_rest(v, buf, body, date, fuel)),
    decreases fuel, 0nat,
{
    let b = v.bytes_read;
    let len = buf.len();
    let k = min(len - b, body.len() as int);
    let d = body.take(k);
    assert(d.take(k) =~= d);
    let framed = chunk_frame(d);
    let rest = body.skip(k);
    let (v2, buf2, step2) = chunk_read_spec(v, buf, d, k as nat);
    let f = framed.len() as int;
    assert(buf2.take(b as int) =~= buf.take(b as int));
    assert(buf2.subrange(b as int, b + f) =~= framed);
    if k == 0 {
        assert(body.len() == 0);
        assert(d =~= Seq::<u8>::empty());
        assert(joined(Seq::<Seq<u8>>::empty()) + rest =~= body);
        assert forall|c: Seq<Seq<u8>>|
            (framed_end(v2) ==> c.len() == 0) implies #[trigger] chunked_tail(
            v,
            Seq::empty() + c,
            date,
        ) == buf2.subrange(b as int, b + f) + chunked_tail(v2, c, date) by {
            assert(Seq::<Seq<u8>>::empty() + c =~= c);
            assert(framed + Seq::<u8>::empty() =~= framed);
        }
        Seq::empty()
    } else {
        assert(k == body.len());
        assert(rest.len() == 0);
        let pre1 = seq![d];
        assert(joined(pre1) =~= d) by {
            lemma_chunked_body_cons(d, Seq::empty());
            assert(seq![d] + Seq::<Seq<u8>>::empty() =~= seq![d]);
        }
        assert(d + rest =~= body);
        if b + f == len {
            let (v3, buf3, step3) = step_spec(v2, buf2);
            assert(step3 == EncodeStep::Return((b + f) as usize));
            assert(read_rest(v2, buf2, rest, date, (fuel - 1) as nat) == Some(
                (v2, buf2, rest, (b + f) as nat),
            ));
            assert forall|c: Seq<Seq<u8>>|
                (framed_end(v2) ==> c.len() == 0) implies #[trigger] chunked_tail(
                v,
                pre1 + c,
                date,
            ) == buf2.subrange(b as int, b + f) + chunked_tail(v2, c, date) by {
                lemma_chunked_body_cons(d, c);
            }
            pre1
        } else {
            let pre2 = lemma_chunk_rest(v2, buf2, rest, date, (fuel - 1) as nat);
            let (v1, buf1, body1, r) = read_rest(v2, buf2, rest, date, (fuel - 1) as nat)->Some_0;
            assert(pre2.len() == 0) by {
                if pre2.len() > 0 {
                    assert(1 <= pre2[0].len());
                    lemma_joined_concat(seq![pre2[0]], pre2.drop_first());
                    assert(seq![pre2[0]] + pre2.drop_first() =~= pre2);
                    lemma_chunked_body_cons(pre2[0], Seq::empty());
                    assert(seq![pre2[0]] + Seq::<Seq<u8>>::empty() =~= seq![pre2[0]]);
                }
            }
            assert(buf1.take(b as int) =~= buf.take(b as int)) by {
                assert(buf1.take(b + f).take(b as int) =~= buf1.take(b as int));
                assert(buf2.take(b + f).take(b as int) =~= buf2.take(b as int));
            }
            assert(buf1.subrange(b as int, r as int) =~= buf2.subrange(b as int, b + f)
                + buf1.subrange(b + f, r as int)) by {
                assert(buf1.subrange(b as int, b + f) =~= buf1.take(b + f).skip(b as int));
                assert(buf2.subrange(b as int, b + f) =~= buf2.take(b + f).skip(b as int));
            }
            assert(joined(pre1) + body1 =~= body) by {
                assert(joined(Seq::<Seq<u8>>::empty()) =~= Seq::<u8>::empty());
            }
            assert forall|c: Seq<Seq<u8>>|
                (framed_end(v1) ==> c.len() == 0) implies #[trigger] chunked_tail(
                v,
                pre1 + c,
                date,
            ) == buf1.subrange(b as int, r as int) + chunked_tail(v1, c, date) by {
                lemma_chunked_body_cons(d, c);
                assert(pre2 + c =~= c);
                assert(chunked_tail(v2, pre2 + c, date) == buf1.subrange(b + f, r as int)
                    + chunked_tail(v1, c, date));
            }
            pre1
        }
    }
}

/// A step that reads a chunk whose frame does not fit after the bytes already produced:
/// the frame is kept, and handed out from here on.
#[verifier::rlimit(30)]
proof fn lemma_frame_kept(v: EncoderView, buf: Seq<u8>, body: Seq<u8>, date: Seq<u8>, fuel: nat) -> (pre: Seq<Seq<u8>>)
    requires
        serving_chunked(v, body, date),
        v.state is UncomputedChunked,
        v.bytes_read < buf.len() <= usize::MAX / 2,
        fuel >= chunk_fuel(v, body),
        chunk_frame(body.take(min(buf.len() - v.bytes_read, body.len() as int))).len() > buf.len()
            - v.bytes_read,
    ensures
        chunk_progress(v, body, date, buf, v.bytes_read, pre, read_rest(v, buf, body, date, fuel)),
    decreases fuel, 0nat,
{
    let b = v.bytes_read;
    let len = buf.len();
    let k = min(len - b, body.len() as int);
    let d = body.take(k);
    assert(d.take(k) =~= d);
    let framed = chunk_frame(d);
    let rest = body.skip(k);
    let (v2, buf2, step2) = chunk_read_spec(v, buf, d, k as nat);
    assert(buf2 == buf);
    if k > 0 {
        lemma_hex_len(k as nat);
    }
    let last = k == 0;
    if last {
        assert(body.len() == 0);
        assert(d =~= Seq::<u8>::empty());
    }
    let pre2 = lemma_chunk_rest(v2, buf, rest, date, (fuel - 1) as nat);
    let (v1, buf1, body1, r) = read_rest(v2, buf, rest, date, (fuel - 1) as nat)->Some_0;
    assert(pre2 =~= Seq::<Seq<u8>>::empty());
    assert(framed.skip(0) =~= framed);
    if last {
        assert(joined(Seq::<Seq<u8>>::empty()) + body1 =~= body);
        assert forall|c: Seq<Seq<u8>>|
            (framed_end(v1) ==> c.len() == 0) implies #[trigger] chunked_tail(
            v,
            Seq::empty() + c,
            date,
        ) == buf1.subrange(b as int, r as int) + chunked_tail(v1, c, date) by {
            assert(Seq::<Seq<u8>>::empty() + c =~= c);
            assert(pre2 + c =~= c);
            assert(chunked_tail(v2, pre2 + c, date) == buf1.subrange(b as int, r as int)
                + chunked_tail(v1, c, date));
        }
        Seq::empty()
    } else {
        let pre1 = seq![d];
        assert(joined(pre1) =~= d) by {
            lemma_chunked_body_cons(d, Seq::empty());
            assert(seq![d] + Seq::<Seq<u8>>::empty() =~= seq![d]);
        }
        assert(joined(pre1) + body1 =~= body) by {
            assert(joined(Seq::<Seq<u8>>::empty()) =~= Seq::<u8>::empty());
        }
        assert forall|c: Seq<Seq<u8>>|
            (framed_end(v1) ==> c.len() == 0) implies #[trigger] chunked_tail(
            v,
            pre1 + c,
            date,
        ) == buf1.subrange(b as int, r as int) + chunked_tail(v1, c, date) by {
            lemma_chunked_body_cons(d, c);
            assert(pre2 + c =~= c);
            assert(chunked_tail(v2, pre2 + c, date) == buf1.subrange(b as int, r as int)
                + chunked_tail(v1, c, date));
        }
        pre1
    }
}

/// What one read of a response of unknown length did, into a fresh buffer of `len`
/// bytes: it handed out at least one byte and at most `len`; it made progress; the chunks
/// `pre` it read are what it took of the body; and what it handed out, then what is left
/// to come, is what was to come.
pub open spec fn chunk_read_ok(
    v: EncoderView,
    body: Seq<u8>,
    date: Seq<u8>,
    len: nat,
    pre: Seq<Seq<u8>>,
    res: Option<(EncoderView, Seq<u8>, Seq<u8>, nat)>,
) -> bool {
    res matches Some((v1, buf1, body1, r)) && {
        &&& 1 <= r <= len
        &&& buf1.len() == len
        &&& serving_chunked(v1, body1, date)
        &&& v1.res == v.res
        &&& chunked_reads_left(v1, body1, date) < chunked_reads_left(v, body, date)
        &&& joined(pre) + body1 == body
        &&& forall|i: int| 0 <= i < pre.len() ==> 1 <= (#[trigger] pre[i]).len() <= len
        &&& framed_end(v) ==> pre.len() == 0 && framed_end(v1)
        &&& forall|c: Seq<Seq<u8>>|
            (framed_end(v1) ==> c.len() == 0) ==> #[trigger] chunked_tail(v, pre + c, date)
                == buf1.take(r as int) + chunked_tail(v1, c, date)
    }
}

/// A read of a response of unknown length that begins in its head.
#[verifier::rlimit(30)]
proof fn lemma_chunk_head_read(w: EncoderView, len: nat, body: Seq<u8>, date: Seq<u8>, fuel: nat) -> (pre: Seq<Seq<u8>>)
    requires
        serving_chunked(w, body, date),
        w.state is Head,
        w.bytes_read == 0,
        1 <= len <= usize::MAX / 2,
        fuel >= 4,
    ensures
        chunk_read_ok(w, body, date, len, pre, read_rest(w, fresh(len), body, date, fuel)),
{
    let buf = fresh(len);
    let h = w.head;
    let hbr = w.head_bytes_read;
    let p = min(h.len() - hbr, len as int);
    let (v1, buf1, step) = step_spec(w, buf);
    assert(buf1 =~= h.subrange(hbr as int, hbr + p) + buf.skip(p));
    assert(buf1.take(p) =~= h.subrange(hbr as int, hbr + p));
    assert(joined(Seq::<Seq<u8>>::empty()) + body =~= body);
    if hbr + p < h.len() {
        assert forall|c: Seq<Seq<u8>>|
            (framed_end(v1) ==> c.len() == 0) implies #[trigger] chunked_tail(
            w,
            Seq::empty() + c,
            date,
        ) == buf1.take(p) + chunked_tail(v1, c, date) by {
            assert(Seq::<Seq<u8>>::empty() + c =~= c);
            assert(h.skip(hbr as int) =~= h.subrange(hbr as int, hbr + p) + h.skip(hbr + p));
        }
        Seq::empty()
    } else {
        assert(h.subrange(hbr as int, hbr + p) =~= h.skip(hbr as int));
        assert(v1.state == EncodePhase::UncomputedChunked);
        if p == len {
            let (v3, buf3, step3) = step_spec(v1, buf1);
            assert(step3 == EncodeStep::Return(p as usize));
            assert(read_rest(v1, buf1, body, date, (fuel - 1) as nat) == Some((v1, buf1, body, p as nat)));
            assert forall|c: Seq<Seq<u8>>|
                (framed_end(v1) ==> c.len() == 0) implies #[trigger] chunked_tail(
                w,
                Seq::empty() + c,
                date,
            ) == buf1.take(p) + chunked_tail(v1, c, date) by {
                assert(Seq::<Seq<u8>>::empty() + c =~= c);
            }
            Seq::empty()
        } else {
            let pre = lemma_chunk_rest(v1, buf1, body, date, (fuel - 1) as nat);
            let (v2, buf2, body2, r) = read_rest(v1, buf1, body, date, (fuel - 1) as nat)->Some_0;
            assert(buf2.take(r as int) =~= buf2.take(p) + buf2.subrange(p, r as int));
            assert forall|c: Seq<Seq<u8>>|
                (framed_end(v2) ==> c.len() == 0) implies #[trigger] chunked_tail(
                w,
                pre + c,
                date,
            ) == buf2.take(r as int) + chunked_tail(v2, c, date) by {
                assert(chunked_tail(v1, pre + c, date) == buf2.subrange(p, r as int) + chunked_tail(
                    v2,
                    c,
                    date,
                ));
            }
            pre
        }
    }
}

/// One read of a response of unknown length that is not done: it hands out at least one
/// byte, what it hands out is the front of what is still to come, and it leaves fewer
/// reads to take.
pub proof fn lemma_chunk_read(v: EncoderView, len: nat, body: Seq<u8>, date: Seq<u8>) -> (pre: Seq<Seq<u8>>)
    requires
        serving_chunked(v, body, date),
        !(v.state is Done),
        1 <= len <= usize::MAX / 2,
    ensures
        chunk_read_ok(
            v,
            body,
            date,
            len,
            pre,
            read_rest(EncoderView { bytes_read: 0, ..v }, fresh(len), body, date, 6),
        ),
{
    let u = EncoderView { bytes_read: 0, ..v };
    match v.state {
        EncodePhase::Start => {
            let w = started(u, date);
            assert(w.head =~= response_head(v.res, date));
            assert(w.head.skip(0) =~= w.head);
            assert(read_rest(u, fresh(len), body, date, 6) == read_rest(w, fresh(len), body, date, 5));
            let pre = lemma_chunk_head_read(w, len, body, date, 5);
            let (v1, buf1, body1, r) = read_rest(w, fresh(len), body, date, 5)->Some_0;
            assert(chunked_reads_left(w, body, date) < chunked_reads_left(v, body, date));
            assert(v1.res == v.res);
            assert forall|c: Seq<Seq<u8>>|
                (framed_end(v1) ==> c.len() == 0) implies #[trigger] chunked_tail(v, pre + c, date)
                == buf1.take(r as int) + chunked_tail(v1, c, date) by {
                assert(chunked_tail(w, pre + c, date) == chunked_tail(v, pre + c, date));
            }
            pre
        },
        EncodePhase::Head => {
            let pre = lemma_chunk_head_read(u, len, body, date, 6);
            let (v1, buf1, body1, r) = read_rest(u, fresh(len), body, date, 6)->Some_0;
            assert forall|c: Seq<Seq<u8>>|
                (framed_end(v1) ==> c.len() == 0) implies #[trigger] chunked_tail(v, pre + c, date)
                == buf1.take(r as int) + chunked_tail(v1, c, date) by {
                assert(chunked_tail(u, pre + c, date) == chunked_tail(v, pre + c, date));
            }
            assert(chunked_reads_left(u, body, date) == chunked_reads_left(v, body, date));
            pre
        },
        _ => {
            let pre = lemma_chunk_rest(u, fresh(len), body, date, 6);
            let (v1, buf1, body1, r) = read_rest(u, fresh(len), body, date, 6)->Some_0;
            assert(buf1.subrange(0, r as int) =~= buf1.take(r as int));
            assert forall|c: Seq<Seq<u8>>|
                (framed_end(v1) ==> c.len() == 0) implies #[trigger] chunked_tail(v, pre + c, date)
                == buf1.take(r as int) + chunked_tail(v1, c, date) by {
                assert(chunked_tail(u, pre + c, date) == buf1.subrange(0, r as int) + chunked_tail(
                    v1,
                    c,
                    date,
                ));
            }
            pre
        },
    }
}

/// Reads of a response of unknown length into buffers of the lengths `lens`, none
/// larger than `bound`, enough of them to end it, until a read hands out nothing.
proof fn lemma_serve_chunked(v: EncoderView, lens: Seq<nat>, body: Seq<u8>, date: Seq<u8>, bound: nat) -> (chunks: Seq<Seq<u8>>)
    requires
        serving_chunked(v, body, date),
        read_lengths(lens),
        forall|i: int| 0 <= i < lens.len() ==> #[trigger] lens[i] <= bound,
        lens.len() > chunked_reads_left(v, body, date),
    ensures
        serve(v, lens, body, date, 6) matches Some((v2, rest, out, ended, fits)) && {
            &&& ended && fits
            &&& v2.state is Done
            &&& rest.len() == 0
            &&& out == chunked_tail(v, chunks, date)
            &&& joined(chunks) == body
            &&& forall|i: int| 0 <= i < chunks.len() ==> 1 <= (#[trigger] chunks[i]).len() <= bound
            &&& framed_end(v) ==> chunks.len() == 0
        },
    decreases lens.len(),
{
    assert(1 <= lens[0] <= bound);
    let u = EncoderView { bytes_read: 0, ..v };
    if v.state is Done {
        lemma_done_reads_nothing(v, fresh(lens[0]), body, date, 6);
        assert(joined(Seq::<Seq<u8>>::empty()) =~= body);
        Seq::empty()
    } else {
        let pre = lemma_chunk_read(v, lens[0], body, date);
        let (v1, buf1, body1, r) = read_rest(u, fresh(lens[0]), body, date, 6)->Some_0;
        let more = lens.drop_first();
        assert forall|i: int| 0 <= i < more.len() implies 1 <= #[trigger] more[i] <= usize::MAX / 2
            && more[i] <= bound by {
            assert(more[i] == lens[i + 1]);
        }
        assert(read_lengths(more));
        let chunks1 = lemma_serve_chunked(v1, more, body1, date, bound);
        let chunks = pre + chunks1;
        lemma_joined_concat(pre, chunks1);
        assert forall|i: int| 0 <= i < chunks.len() implies 1 <= (#[trigger] chunks[i]).len() <= bound by {
            if i < pre.len() {
                assert(chunks[i] == pre[i]);
            } else {
                assert(chunks[i] == chunks1[i - pre.len()]);
            }
        }
        if framed_end(v) {
            assert(chunks =~= Seq::<Seq<u8>>::empty());
        }
        chunks
    }
}

/// A response of unknown length, read through buffers of any non-empty lengths until a
/// read hands out nothing, its body reader holding `body`: the reads hand out the head,
/// sent on `date`, then the body framed in the chunked transfer coding, ended by the empty
/// chunk; the chunks, none empty and none longer than the largest buffer, hold the whole
/// body in order; no read hands out more than its buffer holds, and the first read that
/// hands out nothing comes only then. Where no buffer is longer than the largest chunk a
/// decoder takes, a chunked decoder gives back exactly the body from what follows the
/// head. The reads end within one per byte of the head, eight per byte of the body, and
/// nine more.
pub proof fn lemma_chunked_response(res: ResponseView, body: Seq<u8>, date: Seq<u8>, lens: Seq<nat>) -> (chunks: Seq<Seq<u8>>)
    requires
        res.len is None,
        read_lengths(lens),
        lens.len() >= response_head(res, date).len() + 8 * body.len() + 9,
    ensures
        ({
            let v = EncoderView {
                res,
                state: EncodePhase::Start,
                bytes_read: 0,
                head: Seq::empty(),
                head_bytes_read: 0,
            };
            serve(v, lens, body, date, 6) matches Some((v2, rest, out, ended, fits)) && {
                &&& ended && fits
                &&& v2.state is Done
                &&& rest.len() == 0
                &&& out == response_head(res, date) + chunked_body(chunks)
                &&& joined(chunks) == body
                &&& forall|i: int| 0 <= i < chunks.len() ==> 0 < (#[trigger] chunks[i]).len()
                &&& (forall|i: int| 0 <= i < lens.len() ==> #[trigger] lens[i] <= MAX_CHUNK_SIZE)
                    ==> run(initial_phase(), chunked_body(chunks), 2 * chunks.len() + 2) == (
                Run::Ended { output: body, rest: Seq::empty(), phase: Phase::TrailerDone(Seq::empty()) })
            }
        }),
{
    let v = EncoderView {
        res,
        state: EncodePhase::Start,
        bytes_read: 0,
        head: Seq::empty(),
        head_bytes_read: 0,
    };
    let small = forall|i: int| 0 <= i < lens.len() ==> #[trigger] lens[i] <= MAX_CHUNK_SIZE;
    let bound: nat = if small {
        MAX_CHUNK_SIZE as nat
    } else {
        (usize::MAX / 2) as nat
    };
    assert forall|i: int| 0 <= i < lens.len() implies #[trigger] lens[i] <= bound by {}
    let chunks = lemma_serve_chunked(v, lens, body, date, bound);
    if small {
        assert(sendable(chunks));
        lemma_chunked_roundtrip(chunks, Seq::empty());
        assert(chunked_body(chunks) + Seq::<u8>::empty() =~= chunked_body(chunks));
    }
    chunks
}

} // verus!
