# async_h1

Streaming HTTP/1.1 framing with its decisions proved in Verus.

- `src/` is the verified library. Each part of the protocol is a state machine over
  plain bytes, with contracts over mathematical models:
  - `head`: heads as `httparse` parses them, header lookup, header value checks and the
    body length a request or response announces;
  - `chunked`: the chunked transfer coding, a streaming decoder (`chunked::decoder`), an
    encoder (`chunked::encoder`), and a decoder that buffers its input
    (`chunked::ChunkedDecoder`); `lemma_chunked_roundtrip` proves that decoding encoded
    chunks gives back their bytes, `lemma_encoder_roundtrip` that the encoder's reads
    frame its reader's pieces into such a body and then hand out nothing,
    `lemma_scan_resumes` that a chunk-size line may be read in pieces split anywhere, and
    `lemma_trailer_split` that a trailer arriving in pieces is counted once;
  - `server`: decoding request heads, encoding responses (`lemma_fixed_length_response`
    proves what a response of known length hands out over reads into buffers of any
    non-empty lengths until a read hands out nothing, whether its body reader holds the
    whole body or less, `lemma_done_reads_nothing` that the reads after that hand out
    nothing, and
    `lemma_chunked_response` that a response of unknown length comes out as its head and
    then its body in the chunked coding, which a decoder turns back into the body), and the
    keep-alive and upgrade decisions of a connection;
  - `client`: encoding requests (`lemma_head_reads` proves that the head comes out in
    order, once, through buffers of any lengths) and decoding response heads;
  - `body`, `read_notifier`, `sequenced`, `bytes`, `digits`, `error`: the smaller parts.
- `tests/` runs the library on concrete inputs.
- `app/` holds what the library leaves to its callers: the async readers and writers,
  tasks and timeouts, and the conversions to and from `http_types`.
