//! The interval arithmetic of the coder, stated over mathematical integers:
//! narrowing the current interval to a symbol's share of it, and the E1/E2/E3
//! rescalings that keep the interval wider than a quarter of the code space.
//! The encoder and decoder are specified here step by step; the executable
//! code in `encoder` and `decoder` is proved to follow these definitions.
use vstd::prelude::*;
use crate::bits::{header, header_count, packs, payload_bit};
use crate::model::{cum_freq, sum_freq};

verus! {

/// Bits of precision of the coder's interval arithmetic.
pub const PRECISION_BITS: u64 = 30;

/// The whole code space, `2^30`.
pub const WHOLE: u64 = 0x4000_0000;

/// Half of the code space.
pub const HALF: u64 = 0x2000_0000;

/// A quarter of the code space.
pub const QUARTER: u64 = 0x1000_0000;

/// Low end of the share of symbol `s` in the interval `[low, high)`.
pub open spec fn narrow_low(f: Seq<u64>, low: int, high: int, s: int) -> int {
    low + (high - low) * cum_freq(f, s) / sum_freq(f) as int
}

/// High end of the share of symbol `s` in the interval `[low, high)`.
pub open spec fn narrow_high(f: Seq<u64>, low: int, high: int, s: int) -> int {
    low + (high - low) * cum_freq(f, s + 1) / sum_freq(f) as int
}

/// `[low, high)` is a nonempty interval of the code space.
pub open spec fn in_range(low: int, high: int) -> bool {
    0 <= low < high <= WHOLE
}

/// E1: the interval lies in the lower half.
pub open spec fn lower_half(low: int, high: int) -> bool {
    high <= HALF
}

/// E2: the interval lies in the upper half.
pub open spec fn upper_half(low: int, high: int) -> bool {
    low >= HALF
}

/// E3: the interval lies in the middle two quarters.
pub open spec fn middle_half(low: int, high: int) -> bool {
    low >= QUARTER && high <= HALF + QUARTER
}

/// No rescaling applies: the interval straddles the midpoint and is wider
/// than a quarter of the code space.
pub open spec fn normalized(low: int, high: int) -> bool {
    &&& in_range(low, high)
    &&& !lower_half(low, high)
    &&& !upper_half(low, high)
    &&& !middle_half(low, high)
}

/// The bit `b` followed by `n` copies of its complement: what the encoder
/// emits when it settles a bit with `n` pending opposite bits.
pub open spec fn emit(b: bool, n: nat) -> Seq<bool> {
    seq![b] + Seq::new(n, |i: int| !b)
}

/// The encoder's state: its interval, the number of pending (E3) bits, and
/// the bits emitted so far.
pub struct EncState {
    pub low: int,
    pub high: int,
    pub pending: nat,
    pub bits: Seq<bool>,
}

/// The decoder's state: its interval, its 30-bit window on the bit stream,
/// the position of the next bit to read, and the symbols decoded so far.
pub struct DecState {
    pub low: int,
    pub high: int,
    pub code: int,
    pub pos: int,
    pub out: Seq<usize>,
}

/// The encoder's rescaling loop.
pub open spec fn enc_renorm(st: EncState) -> EncState
    decreases WHOLE - (st.high - st.low),
{
    if !in_range(st.low, st.high) {
        st
    } else if lower_half(st.low, st.high) {
        enc_renorm(
            EncState {
                low: 2 * st.low,
                high: 2 * st.high,
                pending: 0,
                bits: st.bits + emit(false, st.pending),
            },
        )
    } else if upper_half(st.low, st.high) {
        enc_renorm(
            EncState {
                low: 2 * (st.low - HALF),
                high: 2 * (st.high - HALF),
                pending: 0,
                bits: st.bits + emit(true, st.pending),
            },
        )
    } else if middle_half(st.low, st.high) {
        enc_renorm(
            EncState {
                low: 2 * (st.low - QUARTER),
                high: 2 * (st.high - QUARTER),
                pending: st.pending + 1,
                bits: st.bits,
            },
        )
    } else {
        st
    }
}

/// The encoder's state before any symbol.
pub open spec fn enc_init() -> EncState {
    EncState { low: 0, high: WHOLE as int, pending: 0, bits: Seq::empty() }
}

/// The encoder's state after coding symbol `s` from state `st`.
pub open spec fn enc_symbol(f: Seq<u64>, st: EncState, s: int) -> EncState {
    enc_renorm(
        EncState {
            low: narrow_low(f, st.low, st.high, s),
            high: narrow_high(f, st.low, st.high, s),
            pending: st.pending,
            bits: st.bits,
        },
    )
}

/// The encoder's state after coding the first `i` symbols of `msg`.
pub open spec fn enc_state(f: Seq<u64>, msg: Seq<usize>, i: int) -> EncState
    decreases i,
{
    if i <= 0 {
        enc_init()
    } else {
        enc_symbol(f, enc_state(f, msg, i - 1), msg[i - 1] as int)
    }
}

/// The bits emitted when the encoder finishes in state `st`: a point inside
/// its interval, with the pending bits settled.
pub open spec fn enc_flush(st: EncState) -> Seq<bool> {
    if st.low <= QUARTER {
        st.bits + emit(false, st.pending + 1)
    } else {
        st.bits + emit(true, st.pending + 1)
    }
}

/// The bit stream that encodes `msg`.
pub open spec fn encoded_bits(f: Seq<u64>, msg: Seq<usize>) -> Seq<bool> {
    enc_flush(enc_state(f, msg, msg.len() as int))
}

/// Every symbol of `msg` gets a nonempty share of the interval in which the
/// encoder codes it. The encoder's rescaling ends only on nonempty
/// intervals; `roundtrip::lemma_small_total_shares_nonempty` shows that a
/// total within a quarter of the code space is enough.
pub open spec fn shares_nonempty(f: Seq<u64>, msg: Seq<usize>) -> bool {
    forall|i: int|
        0 <= i < msg.len() ==> narrow_low(f, #[trigger] enc_state(f, msg, i).low, enc_state(f, msg, i).high, msg[i] as int)
            < narrow_high(f, enc_state(f, msg, i).low, enc_state(f, msg, i).high, msg[i] as int)
}

/// `data` is the encoding of `msg` under the counts `f`: two zero bytes for
/// an empty message, else the header recording the message length followed by
/// the bit stream packed eight bits per byte.
pub open spec fn arithmetic_encoded(data: Seq<u8>, f: Seq<u64>, msg: Seq<usize>) -> bool {
    if msg.len() == 0 {
        data == seq![0u8, 0u8]
    } else {
        &&& data.len() >= 2
        &&& data.subrange(0, 2) == header(msg.len() as int)
        &&& packs(data.skip(2), encoded_bits(f, msg))
    }
}

/// 1 for a set bit, 0 otherwise.
pub open spec fn bit_value(b: bool) -> int {
    if b {
        1
    } else {
        0
    }
}

/// The first `k` bits of the payload of `data`, read as a number.
pub open spec fn init_code(data: Seq<u8>, k: int) -> int
    decreases k,
{
    if k <= 0 {
        0
    } else {
        2 * init_code(data, k - 1) + bit_value(payload_bit(data, k - 1))
    }
}

/// The decoder's state before any symbol: the whole code space, and a window
/// on the first 30 payload bits.
pub open spec fn dec_init(data: Seq<u8>) -> DecState {
    DecState {
        low: 0,
        high: WHOLE as int,
        code: init_code(data, PRECISION_BITS as int),
        pos: PRECISION_BITS as int,
        out: Seq::empty(),
    }
}

/// The first symbol, from `s` on, whose share of `[low, high)` ends above
/// `code`; the last symbol when there is none.
pub open spec fn select_symbol(f: Seq<u64>, low: int, high: int, code: int, s: int) -> int
    decreases f.len() - s,
{
    if s >= f.len() {
        f.len() - 1
    } else if code < narrow_high(f, low, high, s) {
        s
    } else {
        select_symbol(f, low, high, code, s + 1)
    }
}

/// The decoder's rescaling loop: the same rescalings as the encoder's,
/// applied to the window too, which takes in the next payload bit.
pub open spec fn dec_renorm(data: Seq<u8>, st: DecState) -> DecState
    decreases WHOLE - (st.high - st.low),
{
    if !in_range(st.low, st.high) {
        st
    } else if lower_half(st.low, st.high) {
        dec_renorm(
            data,
            DecState {
                low: 2 * st.low,
                high: 2 * st.high,
                code: 2 * st.code + bit_value(payload_bit(data, st.pos)),
                pos: st.pos + 1,
                out: st.out,
            },
        )
    } else if upper_half(st.low, st.high) {
        dec_renorm(
            data,
            DecState {
                low: 2 * (st.low - HALF),
                high: 2 * (st.high - HALF),
                code: 2 * (st.code - HALF) + bit_value(payload_bit(data, st.pos)),
                pos: st.pos + 1,
                out: st.out,
            },
        )
    } else if middle_half(st.low, st.high) {
        dec_renorm(
            data,
            DecState {
                low: 2 * (st.low - QUARTER),
                high: 2 * (st.high - QUARTER),
                code: 2 * (st.code - QUARTER) + bit_value(payload_bit(data, st.pos)),
                pos: st.pos + 1,
                out: st.out,
            },
        )
    } else {
        st
    }
}

/// The decoder's state after decoding one more symbol from state `st`.
pub open spec fn dec_symbol(f: Seq<u64>, data: Seq<u8>, st: DecState) -> DecState {
    let s = select_symbol(f, st.low, st.high, st.code, 0);
    dec_renorm(
        data,
        DecState {
            low: narrow_low(f, st.low, st.high, s),
            high: narrow_high(f, st.low, st.high, s),
            code: st.code,
            pos: st.pos,
            out: st.out.push(s as usize),
        },
    )
}

/// The decoder's state after decoding `i` symbols.
pub open spec fn dec_state(f: Seq<u64>, data: Seq<u8>, i: int) -> DecState
    decreases i,
{
    if i <= 0 {
        dec_init(data)
    } else {
        dec_symbol(f, data, dec_state(f, data, i - 1))
    }
}

/// The symbols decoded from `data` under the counts `f`: as many as its
/// header records, none when it has no complete header.
pub open spec fn arithmetic_decoded(data: Seq<u8>, f: Seq<u64>) -> Seq<usize> {
    if data.len() < 2 || header_count(data) == 0 {
        Seq::empty()
    } else {
        dec_state(f, data, header_count(data)).out
    }
}


proof fn lemma_dec_renorm_out(data: Seq<u8>, st: DecState)
    ensures
        dec_renorm(data, st).out == st.out,
    decreases WHOLE - (st.high - st.low),
{
    if in_range(st.low, st.high) {
        let off: int = if lower_half(st.low, st.high) {
            0
        } else if upper_half(st.low, st.high) {
            HALF as int
        } else {
            QUARTER as int
        };
        if lower_half(st.low, st.high) || upper_half(st.low, st.high) || middle_half(st.low, st.high) {
            lemma_dec_renorm_out(
                data,
                DecState {
                    low: 2 * (st.low - off),
                    high: 2 * (st.high - off),
                    code: 2 * (st.code - off) + bit_value(payload_bit(data, st.pos)),
                    pos: st.pos + 1,
                    out: st.out,
                },
            );
        }
    }
}

proof fn lemma_dec_state_len(f: Seq<u64>, data: Seq<u8>, i: nat)
    ensures
        dec_state(f, data, i as int).out.len() == i,
    decreases i,
{
    if i > 0 {
        lemma_dec_state_len(f, data, (i - 1) as nat);
        let st = dec_state(f, data, i - 1);
        let s = select_symbol(f, st.low, st.high, st.code, 0);
        lemma_dec_renorm_out(
            data,
            DecState {
                low: narrow_low(f, st.low, st.high, s),
                high: narrow_high(f, st.low, st.high, s),
                code: st.code,
                pos: st.pos,
                out: st.out.push(s as usize),
            },
        );
    }
}

/// The decoder yields as many symbols as the header of `data` records.
pub proof fn lemma_decoded_len(data: Seq<u8>, f: Seq<u64>)
    ensures
        arithmetic_decoded(data, f).len() == if data.len() < 2 {
            0
        } else {
            header_count(data)
        },
{
    if data.len() >= 2 && header_count(data) != 0 {
        lemma_dec_state_len(f, data, header_count(data) as nat);
    }
}

/// A symbol's share lies within the interval it is taken from.
pub proof fn lemma_narrow_within(f: Seq<u64>, low: int, high: int, s: int)
    requires
        low <= high,
        0 <= s < f.len(),
        sum_freq(f) > 0,
    ensures
        low <= narrow_low(f, low, high, s),
        narrow_low(f, low, high, s) <= narrow_high(f, low, high, s),
        narrow_high(f, low, high, s) <= high,
{
    let r = high - low;
    let t = sum_freq(f) as int;
    let c0 = cum_freq(f, s) as int;
    let c1 = cum_freq(f, s + 1) as int;
    crate::model::lemma_cum_freq_mono(f, s + 1, f.len() as int);
    crate::model::lemma_cum_freq_mono(f, s, s + 1);
    assert(0 <= r * c0 / t <= r * c1 / t <= r) by (nonlinear_arith)
        requires
            r >= 0,
            0 <= c0 <= c1 <= t,
            t > 0,
    {
        assert(r * c0 <= r * c1);
        assert(r * c1 <= r * t);
        assert(r * t / t == r);
    }
}

/// With every count at least one and a total no larger than a quarter of the
/// code space, each symbol gets a nonempty share of a normalized interval.
pub proof fn lemma_narrow_nonempty(f: Seq<u64>, low: int, high: int, s: int)
    requires
        high - low > QUARTER,
        0 <= low,
        crate::model::all_positive(f),
        0 <= s < f.len(),
        sum_freq(f) <= QUARTER,
    ensures
        low <= narrow_low(f, low, high, s),
        narrow_low(f, low, high, s) < narrow_high(f, low, high, s),
        narrow_high(f, low, high, s) <= high,
{
    let r = high - low;
    let t = sum_freq(f) as int;
    let c0 = cum_freq(f, s) as int;
    let c1 = cum_freq(f, s + 1) as int;
    crate::model::lemma_cum_freq_mono(f, s + 1, f.len() as int);
    crate::model::lemma_cum_freq_mono(f, 0, s);
    assert(f[s] >= 1);
    assert(c1 == c0 + f[s]);
    assert(t >= 1);
    assert(r * c0 / t >= 0) by (nonlinear_arith)
        requires
            r > 0,
            c0 >= 0,
            t > 0,
    ;
    assert(r * c1 / t <= r) by (nonlinear_arith)
        requires
            r > 0,
            c1 <= t,
            t > 0,
    ;
    assert(r * c0 / t + 1 <= r * c1 / t) by (nonlinear_arith)
        requires
            r > t,
            c1 >= c0 + 1,
            c0 >= 0,
            t > 0,
    {
        assert(r * c1 >= r * c0 + r);
        assert(r * c1 >= r * c0 + t);
        assert((r * c0 + t) / t == r * c0 / t + 1);
    }
}

/// Doubling, written as the shift the coder uses.
pub fn double(x: u64) -> (y: u64)
    requires
        x <= WHOLE,
    ensures
        y == 2 * x,
{
    assert(x << 1 == 2 * x) by (bit_vector)
        requires
            x <= 0x4000_0000u64,
    ;
    x << 1
}
} // verus!
