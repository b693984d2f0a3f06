# arithmetic coding, verified

Arithmetic coding with adaptive frequency models and E1/E2/E3 interval
rescaling, and a bit-packing coder for boolean streams, written and proved
with Verus.

- `src/model.rs`: the frequency model (counts start at one and only grow; the
  total is their sum).
- `src/coding.rs`: the coder's interval arithmetic and the encoder and decoder,
  defined step by step over mathematical integers.
- `src/encoder.rs`, `src/decoder.rs`: the executable coder, proved to follow
  those definitions.
- `src/bits.rs`, `src/binary.rs`: packing bits into bytes, and the boolean coder.
- `src/roundtrip.rs`: decoding what the encoder wrote gives back the message.
- `src/size.rs`: with a model total of at most `2^j`, at most `j + 2` coded
  bits per symbol, plus two.
- `app/`: floating-point helpers (normalized symbol ranges and a float interval
  type), which stay outside the verified library.

The coder computes a symbol's share of the current interval exactly in
integers, as `range * cumulative_count / total` rounded down, and the decoder
selects symbols by the same shares.
