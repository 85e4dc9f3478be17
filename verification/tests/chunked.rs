use async_h1::chunked::decoder::{
    read_chunk_size, ChunkSizeState, ChunkedDecoder, DecodeError, Want,
};
use async_h1::chunked::encoder::ChunkedEncoder;
use async_h1::chunked::{
    BufferError, ChunkedDecoder as BufferedDecoder, Position, ReadStep, INITIAL_CAPACITY,
};
use async_h1::head::RawHeader;

/// Runs the streaming decoder over `input`, offered whole as the inner reader's buffer,
/// handing out each piece of a chunk as soon as it is available.
fn decode_all(input: &[u8]) -> Result<(Vec<u8>, Vec<RawHeader>, usize), DecodeError> {
    let mut d = ChunkedDecoder::new();
    let mut pos = 0;
    let mut out = Vec::new();
    let mut trailers = Vec::new();
    loop {
        match d.want() {
            Want::Yield => {
                let n = d.pass_through_len(input.len() - pos)?;
                out.extend_from_slice(&input[pos..pos + n]);
                pos += n;
                d.consume(n);
            }
            Want::Read => {
                let n = d.read_framing(&input[pos..])?;
                pos += n;
            }
            Want::SendTrailers => {
                trailers = d.take_trailers();
                d.trailers_sent();
            }
            Want::AwaitTrailers => panic!("trailers were already sent"),
            Want::Finished => return Ok((out, trailers, pos)),
        }
    }
}

/// Reads a whole body from the buffered decoder with output buffers of `size` bytes,
/// handing it the input `feed` bytes at a time; a pending read is polled again.
fn read_buffered(input: &[u8], size: usize, feed: usize) -> Result<(Vec<u8>, Vec<RawHeader>), BufferError> {
    let mut d = BufferedDecoder::new();
    let mut pos = 0;
    let mut body = Vec::new();
    let mut trailers = Vec::new();
    let mut rounds = 0;
    loop {
        rounds += 1;
        assert!(rounds < 10_000, "the decoder makes no progress");
        let mut out = vec![0u8; size];
        let mut step = d.read(&mut out)?;
        loop {
            match step {
                ReadStep::Fill { room, .. } => {
                    let k = room.min(feed).min(input.len() - pos);
                    let data = input[pos..pos + k].to_vec();
                    pos += k;
                    step = d.filled(&data, &mut out)?;
                }
                _ => break,
            }
        }
        match step {
            ReadStep::Ready(0) => return Ok((body, trailers)),
            ReadStep::Ready(n) => body.extend_from_slice(&out[..n]),
            ReadStep::Pending => {}
            ReadStep::Trailers(t) => {
                trailers = t;
                d.trailers_sent();
            }
            ReadStep::Fill { .. } => unreachable!(),
        }
    }
}

#[test]
fn decoder_test_chunked_wiki() {
    let input = "4\r\n\
                 Wiki\r\n\
                 5\r\n\
                 pedia\r\n\
                 E\r\n in\r\n\
                 \r\n\
                 chunks.\r\n\
                 0\r\n\
                 \r\n"
        .as_bytes();
    let (output, _, _) = decode_all(input).unwrap();
    assert_eq!(
        String::from_utf8(output).unwrap(),
        "Wikipedia in\r\n\
         \r\n\
         chunks."
    );
}

#[test]
fn test_chunked_big() {
    let mut input: Vec<u8> = b"800\r\n".to_vec();
    input.extend(vec![b'X'; 2048]);
    input.extend(b"\r\n1800\r\n");
    input.extend(vec![b'Y'; 6144]);
    input.extend(b"\r\n800\r\n");
    input.extend(vec![b'Z'; 2048]);
    input.extend(b"\r\n0\r\n\r\n");

    let (output, _, _) = decode_all(&input).unwrap();
    let output = String::from_utf8(output).unwrap();

    let mut expected = vec![b'X'; 2048];
    expected.extend(vec![b'Y'; 6144]);
    expected.extend(vec![b'Z'; 2048]);
    assert_eq!(output.len(), 10240);
    assert_eq!(output.as_bytes(), expected.as_slice());
}

#[test]
fn decoder_test_chunked_mdn() {
    let input = "7\r\n\
                 Mozilla\r\n\
                 9\r\n\
                 Developer\r\n\
                 7\r\n\
                 Network\r\n\
                 0\r\n\
                 Expires: Wed, 21 Oct 2015 07:28:00 GMT\r\n\
                 \r\n"
        .as_bytes();
    let (output, trailers, _) = decode_all(input).unwrap();
    assert_eq!(String::from_utf8(output).unwrap(), "MozillaDeveloperNetwork");
    assert_eq!(trailers.iter().count(), 1);
    assert!(trailers[0].name.eq_ignore_ascii_case(b"Expires"));
    assert_eq!(trailers[0].value, b"Wed, 21 Oct 2015 07:28:00 GMT".to_vec());
}

#[test]
fn chunked_test_chunked_wiki() {
    let input = "4\r\n\
                 Wiki\r\n\
                 5\r\n\
                 pedia\r\n\
                 E\r\n in\r\n\
                 \r\n\
                 chunks.\r\n\
                 0\r\n\
                 \r\n"
        .as_bytes();
    let (output, _) = read_buffered(input, 32, 4096).unwrap();
    assert_eq!(
        String::from_utf8(output).unwrap(),
        "Wikipedia in\r\n\
         \r\n\
         chunks."
    );
}

#[test]
fn chunked_test_chunked_mdn() {
    let input = "7\r\n\
                 Mozilla\r\n\
                 9\r\n\
                 Developer\r\n\
                 7\r\n\
                 Network\r\n\
                 0\r\n\
                 Expires: Wed, 21 Oct 2015 07:28:00 GMT\r\n\
                 \r\n"
        .as_bytes();
    let (output, trailers) = read_buffered(input, 32, 4096).unwrap();
    assert_eq!(String::from_utf8(output).unwrap(), "MozillaDeveloperNetwork");
    assert_eq!(trailers.len(), 1);
    assert_eq!(trailers[0].name, b"Expires".to_vec());
    assert_eq!(trailers[0].value, b"Wed, 21 Oct 2015 07:28:00 GMT".to_vec());
}

/// Frames `chunks` with the chunked encoder, as a body that the reader then ends.
fn encode_all(chunks: &[&[u8]]) -> Vec<u8> {
    let mut e = ChunkedEncoder::new(());
    let mut body = Vec::new();
    for c in chunks.iter().chain(std::iter::once(&(&[][..]))) {
        let mut buf = vec![0u8; c.len() + 32];
        buf[..c.len()].copy_from_slice(c);
        let total = e.frame(&mut buf, c.len());
        body.extend_from_slice(&buf[..total]);
    }
    assert!(e.is_done());
    body
}

#[test]
fn encoded_chunks_decode_to_their_bytes() {
    let chunks: [&[u8]; 3] = [b"hello", &[b'a'; 300], b" world"];
    let mut body = encode_all(&chunks);
    let body_len = body.len();
    body.extend_from_slice(b"GET / HTTP/1.1\r\n");
    let (output, trailers, used) = decode_all(&body).unwrap();
    let mut expected = b"hello".to_vec();
    expected.extend(vec![b'a'; 300]);
    expected.extend(b" world");
    assert_eq!(output, expected);
    assert!(trailers.is_empty());
    assert_eq!(used, body_len);
}

#[test]
fn encoder_frames_in_upper_case_hex() {
    let mut e = ChunkedEncoder::new(());
    let mut buf = vec![0u8; 64];
    buf[..26].copy_from_slice(b"abcdefghijklmnopqrstuvwxyz");
    let total = e.frame(&mut buf, 26);
    assert_eq!(total, 32);
    assert_eq!(&buf[..total], b"1A\r\nabcdefghijklmnopqrstuvwxyz\r\n");
    assert!(!e.is_done());
    let total = e.frame(&mut buf, 0);
    assert_eq!(&buf[..total], b"0\r\n\r\n");
    assert!(e.is_done());
}

#[test]
fn chunk_size_extension_marker_before_line_end() {
    let (output, _, _) = decode_all(b"5;\r\nhello\r\n0\r\n\r\n").unwrap();
    assert_eq!(output, b"hello".to_vec());
    // Chunk extensions are skipped up to the line end (RFC 7230, 4.1.1).
    let (output, _, _) = decode_all(b"5;name=value\r\nhello\r\n0\r\n\r\n").unwrap();
    assert_eq!(output, b"hello".to_vec());
}

#[test]
fn chunk_size_with_extension() {
    let mut size = 0u64;
    let mut state = ChunkSizeState::ChunkSize;
    assert_eq!(read_chunk_size(b"4;name=val\r\n", &mut size, &mut state), Ok((12, true)));
    assert_eq!(size, 4);
}

#[test]
fn chunk_extensions_follow_the_grammar() {
    let ok: [&[u8]; 5] = [
        b"4;a\r\n",
        b"4;a=b;c=d\r\n",
        b"4;a=\"x y\"\r\n",
        b"4;a=\"q\\\"uote\";b\r\n",
        b"4;\r\n",
    ];
    for line in ok.iter() {
        let mut size = 0u64;
        let mut state = ChunkSizeState::ChunkSize;
        assert_eq!(read_chunk_size(line, &mut size, &mut state), Ok((line.len(), true)));
        assert_eq!(size, 4);
    }
    let bad: [&[u8]; 6] = [
        b"4;\n\r\n",
        b"4;=x\r\n",
        b"4;a b\r\n",
        b"4;a=\r\n",
        b"4;a=\"x\"y\r\n",
        b"4;a=\"x\ny\"\r\n",
    ];
    for line in bad.iter() {
        let mut size = 0u64;
        let mut state = ChunkSizeState::ChunkSize;
        assert_eq!(read_chunk_size(line, &mut size, &mut state), Err(DecodeError::InvalidChunkSize));
    }
}

#[test]
fn chunk_size_resumes_across_a_split() {
    let line = b"1A;ext=\"x\"\r\nrest";
    for split in 0..=line.len() {
        let mut size = 0u64;
        let mut state = ChunkSizeState::ChunkSize;
        let first = read_chunk_size(&line[..split], &mut size, &mut state).unwrap();
        let total = if first.1 {
            first.0
        } else {
            let second = read_chunk_size(&line[split..], &mut size, &mut state).unwrap();
            assert!(second.1);
            split + second.0
        };
        assert_eq!(total, 12);
        assert_eq!(size, 0x1A);
    }
}

/// Runs the streaming decoder over `input`, handed to it at most `feed` bytes at a time.
fn decode_fed(input: &[u8], feed: usize) -> Result<(Vec<u8>, Vec<RawHeader>, usize), DecodeError> {
    let mut d = ChunkedDecoder::new();
    let mut pos = 0;
    let mut out = Vec::new();
    let mut trailers = Vec::new();
    loop {
        let end = std::cmp::min(pos + feed, input.len());
        match d.want() {
            Want::Yield => {
                let n = d.pass_through_len(end - pos)?;
                out.extend_from_slice(&input[pos..pos + n]);
                pos += n;
                d.consume(n);
            }
            Want::Read => {
                let n = d.read_framing(&input[pos..end])?;
                pos += n;
            }
            Want::SendTrailers => {
                trailers = d.take_trailers();
                d.trailers_sent();
            }
            Want::AwaitTrailers => panic!("trailers were already sent"),
            Want::Finished => return Ok((out, trailers, pos)),
        }
    }
}

#[test]
fn trailer_split_across_reads() {
    let mut input = b"7\r\nMozilla\r\n0\r\nExpires: x\r\n\r\n".to_vec();
    let body_len = input.len();
    input.extend_from_slice(b"GET / HTTP/1.1\r\n");
    for feed in 1..=8 {
        let (output, trailers, used) = decode_fed(&input, feed).unwrap();
        assert_eq!(output, b"Mozilla".to_vec());
        assert_eq!(trailers.len(), 1);
        assert_eq!(trailers[0].name, b"Expires".to_vec());
        assert_eq!(trailers[0].value, b"x".to_vec());
        assert_eq!(used, body_len, "feed {}", feed);
    }
}

#[test]
fn last_chunk_then_end_of_stream_ends_the_body() {
    let (output, trailers, used) = decode_all(b"1\r\nh\r\n3\r\nllo\r\n0\r\n").unwrap();
    assert_eq!(output, b"hllo".to_vec());
    assert!(trailers.is_empty());
    assert_eq!(used, 17);
}

#[test]
fn chunk_size_hex_digits_any_case() {
    let mut size = 0u64;
    let mut state = ChunkSizeState::ChunkSize;
    let r = read_chunk_size(b"aF\r\nxyz", &mut size, &mut state);
    assert_eq!(r, Ok((4, true)));
    assert_eq!(size, 0xAF);
}

#[test]
fn invalid_chunk_size_is_refused() {
    assert!(matches!(
        decode_all(b"zz\r\nhello\r\n0\r\n\r\n"),
        Err(DecodeError::InvalidChunkSize)
    ));
}

#[test]
fn oversized_chunk_is_refused() {
    assert!(decode_all(b"FFFFFFFFFFFFFFFFF\r\n").is_err());
}

#[test]
fn body_cut_short_is_unexpected_eof() {
    assert!(matches!(
        decode_all(b"a\r\nhello"),
        Err(DecodeError::UnexpectedEof)
    ));
    assert!(matches!(decode_all(b"5\r\nhel"), Err(DecodeError::UnexpectedEof)));
}

#[test]
fn position_basics() {
    let p = Position::new(3, 10);
    assert_eq!(p.len(), 7);
    assert!(!p.is_zero());
    assert!(Position::new(0, 0).is_zero());
    assert_eq!(Position::new(4, 4).len(), 0);
}

#[test]
fn buffered_decoder_hands_out_a_chunk_split_over_reads() {
    let mut d = BufferedDecoder::new();
    let mut out = vec![0u8; 64];
    assert!(matches!(d.read(&mut out), Ok(ReadStep::Fill { start: 0, .. })));
    // The size line alone: nothing to hand out, more input is asked for.
    assert!(matches!(d.filled(b"4\r\n", &mut out), Ok(ReadStep::Fill { start: 3, .. })));
    assert!(matches!(d.filled(b"Wi", &mut out), Ok(ReadStep::Ready(2))));
    assert_eq!(&out[..2], b"Wi");
}

#[test]
fn buffered_decoder_starts_with_an_empty_buffer_of_initial_capacity() {
    let mut d = BufferedDecoder::new();
    let mut out = vec![0u8; 8];
    match d.read(&mut out).unwrap() {
        ReadStep::Fill { start, room } => {
            assert_eq!(start, 0);
            assert_eq!(room, INITIAL_CAPACITY);
        }
        other => panic!("unexpected step {:?}", other),
    }
}

#[test]
fn buffered_decoder_refuses_a_bad_chunk_end() {
    assert_eq!(
        read_buffered(b"4\r\nWikiXX5\r\npedia\r\n0\r\n\r\n", 64, 4096).err(),
        Some(BufferError::InvalidData)
    );
}

#[test]
fn buffered_decoder_refuses_a_bad_chunk_size() {
    assert_eq!(
        read_buffered(b"zz\r\nWiki\r\n0\r\n\r\n", 64, 4096).err(),
        Some(BufferError::InvalidChunkSize)
    );
}

#[test]
fn buffered_decoder_refuses_a_non_ascii_trailer_value() {
    let input = "1\r\na\r\n0\r\nx-invalid: \u{e5}\r\n\r\n".as_bytes();
    assert_eq!(read_buffered(input, 64, 4096).err(), Some(BufferError::TrailerValue));
}

#[test]
fn buffered_decoder_at_end_of_stream_with_nothing_read_is_done() {
    let mut d = BufferedDecoder::new();
    let mut out = vec![0u8; 8];
    assert!(matches!(d.read(&mut out), Ok(ReadStep::Fill { .. })));
    assert!(matches!(d.filled(&[], &mut out), Ok(ReadStep::Ready(0))));
}

#[test]
fn buffered_decoder_reports_a_stream_ended_after_a_chunk() {
    let mut d = BufferedDecoder::new();
    let mut out = vec![0u8; 8];
    assert!(matches!(d.read(&mut out), Ok(ReadStep::Fill { .. })));
    assert!(matches!(d.filled(b"2\r\nab", &mut out), Ok(ReadStep::Ready(2))));
    // The chunk's CRLF never comes: the unread part is empty when the stream ends.
    assert!(matches!(d.read(&mut out), Ok(ReadStep::Fill { .. })));
    assert_eq!(d.filled(&[], &mut out).err(), Some(BufferError::UnexpectedEof));
}
