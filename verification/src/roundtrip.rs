//! Decoding what the encoder wrote gives back the message.
//!
//! The proof follows the encoder and the decoder side by side. The decoder
//! holds a 30-bit window on the bit stream; the encoder's output after any
//! point, with its pending bits folded back in (`collapse`), is the stream
//! that window reads. Going backward from the end of the stream, the window
//! always lies inside the encoder's current interval (`settles`); going
//! forward, the decoder therefore picks each symbol the encoder coded and
//! applies the same rescalings.
use vstd::prelude::*;
use vstd::arithmetic::power2::{pow2, lemma2_to64, lemma_pow2_unfold};
use crate::bits::{header_count, lemma_payload_bits, packs, payload_bit, stream_bit};
use crate::coding::{
    DecState, EncState, HALF, QUARTER, WHOLE, arithmetic_decoded, arithmetic_encoded, bit_value,
    dec_renorm, dec_state, dec_symbol, emit, enc_renorm, enc_state,
    enc_symbol, encoded_bits, in_range, init_code, lemma_narrow_nonempty, lemma_narrow_within,
    lower_half, middle_half, narrow_high, narrow_low, normalized, select_symbol, shares_nonempty,
    upper_half,
};
use crate::model::{all_positive, cum_freq, lemma_cum_freq_mono, sum_freq};

verus! {

/// The first `k` bits of the zero-padded stream `s`, read as a number.
pub open spec fn win(s: Seq<bool>, k: int) -> int
    decreases k,
{
    if k <= 0 {
        0
    } else {
        2 * win(s, k - 1) + bit_value(stream_bit(s, k - 1))
    }
}

/// The 30-bit window at the start of the zero-padded stream `s`.
pub open spec fn window(s: Seq<bool>) -> int {
    win(s, 30)
}

/// The stream `r` with its `p` pending bits, those after the first one,
/// taken out.
pub open spec fn collapse(r: Seq<bool>, p: nat) -> Seq<bool> {
    r.take(1) + r.skip(p + 1int)
}

/// The rest `r` of the encoder's output settles the `p` pending bits (they
/// are the complement of the first bit), and without them it reads as a point
/// of `[low, high)`.
pub open spec fn settles(r: Seq<bool>, p: nat, low: int, high: int) -> bool {
    &&& r.len() > p
    &&& forall|j: int| 1 <= j <= p ==> #[trigger] r[j] == !r[0]
    &&& low <= window(collapse(r, p)) < high
}

/// From stream position 30 on, `v` reads as the payload of `data` from `pos` on.
pub open spec fn aligned(data: Seq<u8>, pos: int, v: Seq<bool>) -> bool {
    forall|j: int| j >= 30 ==> #[trigger] stream_bit(v, j) == payload_bit(data, pos + j - 30)
}

proof fn lemma_win_cons(b: bool, s: Seq<bool>, k: nat)
    ensures
        win(seq![b] + s, k + 1int) == bit_value(b) * pow2(k) + win(s, k as int),
    decreases k,
{
    let bs = seq![b] + s;
    if k == 0 {
        lemma2_to64();
        assert(stream_bit(bs, 0) == b);
        assert(win(bs, 0) == 0);
        assert(win(s, 0) == 0);
        assert(win(bs, 1) == bit_value(b));
    } else {
        lemma_win_cons(b, s, (k - 1) as nat);
        lemma_pow2_unfold(k);
        assert(stream_bit(bs, k as int) == stream_bit(s, k - 1));
        assert(win(bs, k + 1int) == 2 * win(bs, k as int) + bit_value(stream_bit(s, k - 1)));
        assert(win(s, k as int) == 2 * win(s, k - 1) + bit_value(stream_bit(s, k - 1)));
        if b {
            assert(bit_value(b) * pow2(k) == 2 * (bit_value(b) * pow2((k - 1) as nat)));
        } else {
            assert(bit_value(b) * pow2(k) == 0);
        }
    }
}

proof fn lemma_window_cons(b: bool, s: Seq<bool>)
    ensures
        window(seq![b] + s) == bit_value(b) * HALF + win(s, 29),
{
    lemma_win_cons(b, s, 29);
    lemma2_to64();
}

proof fn lemma_window_cons2(b: bool, c: bool, s: Seq<bool>)
    ensures
        window(seq![b, c] + s) == bit_value(b) * HALF + bit_value(c) * QUARTER + win(s, 28),
{
    assert(seq![b, c] + s =~= seq![b] + (seq![c] + s));
    lemma_window_cons(b, seq![c] + s);
    lemma_win_cons(c, s, 28);
    lemma2_to64();
}

proof fn lemma_win_bound(s: Seq<bool>, k: nat)
    ensures
        0 <= win(s, k as int) < pow2(k),
    decreases k,
{
    if k == 0 {
        lemma2_to64();
    } else {
        lemma_win_bound(s, (k - 1) as nat);
        lemma_pow2_unfold(k);
    }
}

/// The encoder's rescaling ends normalized, and only appends bits.
pub(crate) proof fn lemma_renorm_basic(st: EncState)
    requires
        in_range(st.low, st.high),
    ensures
        normalized(enc_renorm(st).low, enc_renorm(st).high),
        enc_renorm(st).bits.len() >= st.bits.len(),
        enc_renorm(st).bits.subrange(0, st.bits.len() as int) == st.bits,
    decreases WHOLE - (st.high - st.low),
{
    if lower_half(st.low, st.high) {
        let nx = EncState {
            low: 2 * st.low,
            high: 2 * st.high,
            pending: 0,
            bits: st.bits + emit(false, st.pending),
        };
        lemma_renorm_basic(nx);
        assert(enc_renorm(st).bits.subrange(0, st.bits.len() as int) =~= nx.bits.subrange(
            0,
            st.bits.len() as int,
        ));
    } else if upper_half(st.low, st.high) {
        let nx = EncState {
            low: 2 * (st.low - HALF),
            high: 2 * (st.high - HALF),
            pending: 0,
            bits: st.bits + emit(true, st.pending),
        };
        lemma_renorm_basic(nx);
        assert(enc_renorm(st).bits.subrange(0, st.bits.len() as int) =~= nx.bits.subrange(
            0,
            st.bits.len() as int,
        ));
    } else if middle_half(st.low, st.high) {
        let nx = EncState {
            low: 2 * (st.low - QUARTER),
            high: 2 * (st.high - QUARTER),
            pending: st.pending + 1,
            bits: st.bits,
        };
        lemma_renorm_basic(nx);
    } else {
        assert(st.bits.subrange(0, st.bits.len() as int) =~= st.bits);
    }
}

/// The bits a step of the encoder adds to `st.bits`.
pub open spec fn emitted(st: EncState, r: EncState) -> Seq<bool> {
    r.bits.skip(st.bits.len() as int)
}

/// Going backward through the encoder's rescaling: if what follows it settles
/// the state it ends in, then the bits it emits followed by that settle the
/// state it starts from.
proof fn lemma_renorm_settles(st: EncState, t: Seq<bool>)
    requires
        in_range(st.low, st.high),
        settles(t, enc_renorm(st).pending, enc_renorm(st).low, enc_renorm(st).high),
    ensures
        settles(emitted(st, enc_renorm(st)) + t, st.pending, st.low, st.high),
    decreases WHOLE - (st.high - st.low),
{
    let r = enc_renorm(st);
    lemma_renorm_basic(st);
    if lower_half(st.low, st.high) || upper_half(st.low, st.high) {
        let b = upper_half(st.low, st.high);
        let off: int = if b {
            HALF as int
        } else {
            0
        };
        let nx = EncState {
            low: 2 * (st.low - off),
            high: 2 * (st.high - off),
            pending: 0,
            bits: st.bits + emit(b, st.pending),
        };
        assert(r == enc_renorm(nx));
        lemma_renorm_settles(nx, t);
        lemma_renorm_basic(nx);
        let x = emitted(nx, r) + t;
        assert(r.bits =~= st.bits + emit(b, st.pending) + emitted(nx, r));
        assert(emitted(st, r) + t =~= emit(b, st.pending) + x);
        let big = emit(b, st.pending) + x;
        assert(collapse(x, 0) =~= x);
        assert(collapse(big, st.pending) =~= seq![b] + x);
        assert forall|j: int| 1 <= j <= st.pending implies #[trigger] big[j] == !big[0] by {
            assert(big[j] == emit(b, st.pending)[j]);
        }
        lemma_window_cons(b, x);
        lemma_win_bound(x, 29);
        lemma2_to64();
    } else if middle_half(st.low, st.high) {
        let nx = EncState {
            low: 2 * (st.low - QUARTER),
            high: 2 * (st.high - QUARTER),
            pending: st.pending + 1,
            bits: st.bits,
        };
        lemma_renorm_settles(nx, t);
        lemma_renorm_basic(nx);
        let x = emitted(st, r) + t;
        let p = st.pending;
        assert(emitted(nx, r) == emitted(st, r));
        let b = x[0];
        let s = x.skip(p + 2int);
        assert(x[p + 1int] == !b);
        assert(collapse(x, p) =~= seq![b, !b] + s);
        assert(collapse(x, p + 1) =~= seq![b] + s);
        lemma_window_cons2(b, !b, s);
        lemma_window_cons(b, s);
        assert(win(s, 29) == 2 * win(s, 28) + bit_value(stream_bit(s, 28)));
        lemma2_to64();
    } else {
        assert(emitted(st, r) + t =~= t);
    }
}

/// Going forward through the rescaling: the decoder applies the same
/// rescalings to the same interval, and its window keeps reading the
/// encoder's collapsed output.
proof fn lemma_renorm_sync(st: EncState, d: DecState, t: Seq<bool>, data: Seq<u8>)
    requires
        in_range(st.low, st.high),
        d.low == st.low,
        d.high == st.high,
        settles(t, enc_renorm(st).pending, enc_renorm(st).low, enc_renorm(st).high),
        d.code == window(collapse(emitted(st, enc_renorm(st)) + t, st.pending)),
        aligned(data, d.pos, collapse(emitted(st, enc_renorm(st)) + t, st.pending)),
    ensures
        dec_renorm(data, d).low == enc_renorm(st).low,
        dec_renorm(data, d).high == enc_renorm(st).high,
        dec_renorm(data, d).out == d.out,
        dec_renorm(data, d).code == window(collapse(t, enc_renorm(st).pending)),
        aligned(data, dec_renorm(data, d).pos, collapse(t, enc_renorm(st).pending)),
    decreases WHOLE - (st.high - st.low),
{
    let r = enc_renorm(st);
    lemma_renorm_basic(st);
    lemma2_to64();
    if lower_half(st.low, st.high) || upper_half(st.low, st.high) {
        let b = upper_half(st.low, st.high);
        let off: int = if b {
            HALF as int
        } else {
            0
        };
        let nx = EncState {
            low: 2 * (st.low - off),
            high: 2 * (st.high - off),
            pending: 0,
            bits: st.bits + emit(b, st.pending),
        };
        let nd = DecState {
            low: 2 * (d.low - off),
            high: 2 * (d.high - off),
            code: 2 * (d.code - off) + bit_value(payload_bit(data, d.pos)),
            pos: d.pos + 1,
            out: d.out,
        };
        assert(r == enc_renorm(nx));
        assert(dec_renorm(data, d) == dec_renorm(data, nd));
        lemma_renorm_basic(nx);
        let x = emitted(nx, r) + t;
        assert(r.bits =~= st.bits + emit(b, st.pending) + emitted(nx, r));
        assert(emitted(st, r) + t =~= emit(b, st.pending) + x);
        let big = emit(b, st.pending) + x;
        let v = seq![b] + x;
        assert(collapse(big, st.pending) =~= v);
        assert(collapse(x, 0) =~= x);
        lemma_window_cons(b, x);
        assert(stream_bit(v, 30) == stream_bit(x, 29));
        assert(nd.code == window(x));
        assert forall|j: int| j >= 30 implies #[trigger] stream_bit(x, j) == payload_bit(
            data,
            nd.pos + j - 30,
        ) by {
            assert(stream_bit(v, j + 1) == stream_bit(x, j));
        }
        lemma_renorm_sync(nx, nd, t, data);
    } else if middle_half(st.low, st.high) {
        let nx = EncState {
            low: 2 * (st.low - QUARTER),
            high: 2 * (st.high - QUARTER),
            pending: st.pending + 1,
            bits: st.bits,
        };
        let nd = DecState {
            low: 2 * (d.low - QUARTER),
            high: 2 * (d.high - QUARTER),
            code: 2 * (d.code - QUARTER) + bit_value(payload_bit(data, d.pos)),
            pos: d.pos + 1,
            out: d.out,
        };
        assert(dec_renorm(data, d) == dec_renorm(data, nd));
        lemma_renorm_settles(nx, t);
        lemma_renorm_basic(nx);
        let x = emitted(st, r) + t;
        let p = st.pending;
        assert(emitted(nx, r) == emitted(st, r));
        let b = x[0];
        let s = x.skip(p + 2int);
        assert(x[p + 1int] == !b);
        let v = seq![b, !b] + s;
        let v2 = seq![b] + s;
        assert(collapse(x, p) =~= v);
        assert(collapse(x, p + 1) =~= v2);
        lemma_window_cons2(b, !b, s);
        lemma_window_cons(b, s);
        assert(win(s, 29) == 2 * win(s, 28) + bit_value(stream_bit(s, 28)));
        assert(stream_bit(v, 30) == stream_bit(s, 28));
        assert(nd.code == window(v2));
        assert forall|j: int| j >= 30 implies #[trigger] stream_bit(v2, j) == payload_bit(
            data,
            nd.pos + j - 30,
        ) by {
            assert(stream_bit(v2, j) == stream_bit(s, j - 1));
            assert(stream_bit(v, j + 1) == stream_bit(s, j - 1));
        }
        lemma_renorm_sync(nx, nd, t, data);
    } else {
        assert(emitted(st, r) + t =~= t);
    }
}


proof fn lemma_win_empty(k: nat)
    ensures
        win(Seq::<bool>::empty(), k as int) == 0,
    decreases k,
{
    if k > 0 {
        lemma_win_empty((k - 1) as nat);
    }
}

/// What the round trip needs of the counts and the message: every count at
/// least one, every symbol in the alphabet, and a nonempty share for each.
pub open spec fn codable(f: Seq<u64>, msg: Seq<usize>) -> bool {
    &&& all_positive(f)
    &&& forall|i: int| 0 <= i < msg.len() ==> #[trigger] msg[i] < f.len()
    &&& shares_nonempty(f, msg)
}

/// With every count at least one and a total within a quarter of the code
/// space, every symbol gets a nonempty share of the interval in which it is
/// coded, and every state of the encoder is normalized.
pub proof fn lemma_small_total_shares_nonempty(f: Seq<u64>, msg: Seq<usize>)
    requires
        all_positive(f),
        sum_freq(f) <= QUARTER,
        forall|i: int| 0 <= i < msg.len() ==> #[trigger] msg[i] < f.len(),
    ensures
        shares_nonempty(f, msg),
{
    assert forall|i: int| 0 <= i < msg.len() implies narrow_low(
        f,
        #[trigger] enc_state(f, msg, i).low,
        enc_state(f, msg, i).high,
        msg[i] as int,
    ) < narrow_high(f, enc_state(f, msg, i).low, enc_state(f, msg, i).high, msg[i] as int) by {
        lemma_small_total_normalized(f, msg, i);
        let st = enc_state(f, msg, i);
        assert(msg[i] < f.len());
        lemma_narrow_nonempty(f, st.low, st.high, msg[i] as int);
    }
}

pub(crate) proof fn lemma_small_total_normalized(f: Seq<u64>, msg: Seq<usize>, i: int)
    requires
        all_positive(f),
        sum_freq(f) <= QUARTER,
        forall|i: int| 0 <= i < msg.len() ==> #[trigger] msg[i] < f.len(),
        0 <= i <= msg.len(),
    ensures
        normalized(enc_state(f, msg, i).low, enc_state(f, msg, i).high),
    decreases i,
{
    if i > 0 {
        lemma_small_total_normalized(f, msg, i - 1);
        let st = enc_state(f, msg, i - 1);
        assert(msg[i - 1] < f.len());
        lemma_narrow_nonempty(f, st.low, st.high, msg[i - 1] as int);
        assert(enc_state(f, msg, i) == enc_symbol(f, st, msg[i - 1] as int));
        lemma_renorm_basic(
            EncState {
                low: narrow_low(f, st.low, st.high, msg[i - 1] as int),
                high: narrow_high(f, st.low, st.high, msg[i - 1] as int),
                pending: st.pending,
                bits: st.bits,
            },
        );
    }
}

/// The encoder's state after `i` symbols, just before coding symbol `i`
/// (narrowed, not yet rescaled).
pub open spec fn enc_narrowed(f: Seq<u64>, msg: Seq<usize>, i: int) -> EncState {
    let st = enc_state(f, msg, i);
    EncState {
        low: narrow_low(f, st.low, st.high, msg[i] as int),
        high: narrow_high(f, st.low, st.high, msg[i] as int),
        pending: st.pending,
        bits: st.bits,
    }
}

/// The encoder's output after its first `i` symbols.
pub open spec fn enc_rest(f: Seq<u64>, msg: Seq<usize>, i: int) -> Seq<bool> {
    encoded_bits(f, msg).skip(enc_state(f, msg, i).bits.len() as int)
}

proof fn lemma_enc_step(f: Seq<u64>, msg: Seq<usize>, i: int)
    requires
        codable(f, msg),
        0 <= i < msg.len(),
        normalized(enc_state(f, msg, i).low, enc_state(f, msg, i).high),
    ensures
        in_range(enc_narrowed(f, msg, i).low, enc_narrowed(f, msg, i).high),
        enc_state(f, msg, i).low <= enc_narrowed(f, msg, i).low,
        enc_narrowed(f, msg, i).high <= enc_state(f, msg, i).high,
        enc_state(f, msg, i + 1) == enc_renorm(enc_narrowed(f, msg, i)),
        normalized(enc_state(f, msg, i + 1).low, enc_state(f, msg, i + 1).high),
        enc_state(f, msg, i + 1).bits.len() >= enc_state(f, msg, i).bits.len(),
        enc_state(f, msg, i + 1).bits.subrange(0, enc_state(f, msg, i).bits.len() as int)
            == enc_state(f, msg, i).bits,
{
    let st = enc_state(f, msg, i);
    assert(msg[i] < f.len());
    lemma_cum_freq_mono(f, 1, f.len() as int);
    lemma_narrow_within(f, st.low, st.high, msg[i] as int);
    assert(narrow_low(f, st.low, st.high, msg[i] as int) < narrow_high(f, st.low, st.high, msg[i] as int));
    assert(enc_state(f, msg, i + 1) == enc_symbol(f, st, msg[i] as int));
    lemma_renorm_basic(enc_narrowed(f, msg, i));
}

/// Every state of the encoder is normalized.
proof fn lemma_enc_normalized(f: Seq<u64>, msg: Seq<usize>, i: int)
    requires
        codable(f, msg),
        0 <= i <= msg.len(),
    ensures
        normalized(enc_state(f, msg, i).low, enc_state(f, msg, i).high),
    decreases i,
{
    if i > 0 {
        lemma_enc_normalized(f, msg, i - 1);
        lemma_enc_step(f, msg, i - 1);
    }
}

/// The bits of a later state extend those of an earlier one, and the final
/// stream extends them all.
proof fn lemma_enc_prefix(f: Seq<u64>, msg: Seq<usize>, i: int)
    requires
        codable(f, msg),
        0 <= i <= msg.len(),
    ensures
        encoded_bits(f, msg).len() >= enc_state(f, msg, i).bits.len(),
        encoded_bits(f, msg).subrange(0, enc_state(f, msg, i).bits.len() as int) == enc_state(
            f,
            msg,
            i,
        ).bits,
    decreases msg.len() - i,
{
    let n = msg.len() as int;
    let fin = encoded_bits(f, msg);
    let b = enc_state(f, msg, i).bits;
    if i == n {
        assert(fin.subrange(0, b.len() as int) =~= b);
    } else {
        lemma_enc_prefix(f, msg, i + 1);
        lemma_enc_normalized(f, msg, i);
        lemma_enc_step(f, msg, i);
        let b1 = enc_state(f, msg, i + 1).bits;
        assert(fin.subrange(0, b.len() as int) =~= b1.subrange(0, b.len() as int));
    }
}

/// The output after `i` symbols is what coding symbol `i` emits followed by
/// the output after `i + 1` symbols.
proof fn lemma_rest_split(f: Seq<u64>, msg: Seq<usize>, i: int)
    requires
        codable(f, msg),
        0 <= i < msg.len(),
    ensures
        emitted(enc_narrowed(f, msg, i), enc_state(f, msg, i + 1)) + enc_rest(f, msg, i + 1)
            == enc_rest(f, msg, i),
{
    lemma_enc_normalized(f, msg, i);
    lemma_enc_step(f, msg, i);
    lemma_enc_prefix(f, msg, i + 1);
    let fin = encoded_bits(f, msg);
    let b0 = enc_state(f, msg, i).bits;
    let b1 = enc_state(f, msg, i + 1).bits;
    assert(b1.len() <= fin.len());
    assert forall|k: int| b0.len() <= k < b1.len() implies fin[k] == b1[k] by {
        assert(fin.subrange(0, b1.len() as int)[k] == fin[k]);
    }
    assert(emitted(enc_narrowed(f, msg, i), enc_state(f, msg, i + 1)) + enc_rest(f, msg, i + 1)
        =~= enc_rest(f, msg, i));
}

/// Backward from the end of the stream: the rest of the output after `i`
/// symbols settles the encoder's state there, and its narrowing by the next
/// symbol.
proof fn lemma_enc_settles(f: Seq<u64>, msg: Seq<usize>, i: int)
    requires
        codable(f, msg),
        0 <= i <= msg.len(),
    ensures
        settles(
            enc_rest(f, msg, i),
            enc_state(f, msg, i).pending,
            enc_state(f, msg, i).low,
            enc_state(f, msg, i).high,
        ),
        i < msg.len() ==> settles(
            enc_rest(f, msg, i),
            enc_state(f, msg, i).pending,
            enc_narrowed(f, msg, i).low,
            enc_narrowed(f, msg, i).high,
        ),
    decreases msg.len() - i,
{
    let n = msg.len() as int;
    let st = enc_state(f, msg, i);
    lemma_enc_normalized(f, msg, i);
    lemma2_to64();
    if i == n {
        let b = !(st.low <= QUARTER);
        let r = enc_rest(f, msg, i);
        assert(r =~= emit(b, st.pending + 1));
        assert(collapse(r, st.pending) =~= seq![b, !b] + Seq::<bool>::empty());
        lemma_window_cons2(b, !b, Seq::<bool>::empty());
        lemma_win_empty(28);
    } else {
        lemma_enc_settles(f, msg, i + 1);
        lemma_enc_step(f, msg, i);
        lemma_renorm_settles(enc_narrowed(f, msg, i), enc_rest(f, msg, i + 1));
        lemma_rest_split(f, msg, i);
    }
}

/// The decoder's scan finds the symbol whose share holds the window.
proof fn lemma_select(f: Seq<u64>, low: int, high: int, code: int, target: int, s: int)
    requires
        0 <= s <= target < f.len(),
        low <= high,
        sum_freq(f) > 0,
        narrow_low(f, low, high, target) <= code < narrow_high(f, low, high, target),
    ensures
        select_symbol(f, low, high, code, s) == target,
    decreases target - s,
{
    if s < target {
        let r = high - low;
        let t = sum_freq(f) as int;
        lemma_cum_freq_mono(f, s + 1, target);
        let a = cum_freq(f, s + 1) as int;
        let b = cum_freq(f, target) as int;
        assert(r * a / t <= r * b / t) by (nonlinear_arith)
            requires
                r >= 0,
                0 <= a <= b,
                t > 0,
        {
            assert(r * a <= r * b);
        }
        lemma_select(f, low, high, code, target, s + 1);
    }
}

proof fn lemma_init_code(data: Seq<u8>, bits: Seq<bool>, k: int)
    requires
        0 <= k,
        forall|j: int| 0 <= j ==> #[trigger] payload_bit(data, j) == stream_bit(bits, j),
    ensures
        init_code(data, k) == win(bits, k),
    decreases k,
{
    if k > 0 {
        lemma_init_code(data, bits, k - 1);
        assert(payload_bit(data, k - 1) == stream_bit(bits, k - 1));
    }
}

/// Forward from the start: after `i` symbols the decoder holds the encoder's
/// interval, has decoded the first `i` symbols, and its window reads the
/// encoder's collapsed output.
proof fn lemma_dec_sync(f: Seq<u64>, msg: Seq<usize>, data: Seq<u8>, i: int)
    requires
        codable(f, msg),
        0 <= i <= msg.len(),
        data.len() >= 2,
        packs(data.skip(2), encoded_bits(f, msg)),
    ensures
        dec_state(f, data, i).low == enc_state(f, msg, i).low,
        dec_state(f, data, i).high == enc_state(f, msg, i).high,
        dec_state(f, data, i).out == msg.take(i),
        dec_state(f, data, i).code == window(
            collapse(enc_rest(f, msg, i), enc_state(f, msg, i).pending),
        ),
        aligned(
            data,
            dec_state(f, data, i).pos,
            collapse(enc_rest(f, msg, i), enc_state(f, msg, i).pending),
        ),
    decreases i,
{
    let fin = encoded_bits(f, msg);
    lemma_payload_bits(data, fin);
    if i == 0 {
        lemma_enc_settles(f, msg, 0);
        let r = enc_rest(f, msg, 0);
        assert(r =~= fin);
        assert(collapse(r, 0) =~= fin);
        lemma_init_code(data, fin, 30);
        assert(msg.take(0) =~= Seq::<usize>::empty());
    } else {
        let k = i - 1;
        lemma_dec_sync(f, msg, data, k);
        lemma_enc_normalized(f, msg, k);
        lemma_enc_step(f, msg, k);
        lemma_enc_settles(f, msg, k);
        lemma_enc_settles(f, msg, i);
        lemma_rest_split(f, msg, k);
        let st = enc_state(f, msg, k);
        let d = dec_state(f, data, k);
        let sym = msg[k] as int;
        assert(sym < f.len());
        lemma_cum_freq_mono(f, 1, f.len() as int);
        lemma_select(f, st.low, st.high, d.code, sym, 0);
        assert(dec_state(f, data, i) == dec_symbol(f, data, d));
        let nd = DecState {
            low: narrow_low(f, st.low, st.high, sym),
            high: narrow_high(f, st.low, st.high, sym),
            code: d.code,
            pos: d.pos,
            out: d.out.push(sym as usize),
        };
        assert(dec_state(f, data, i) == dec_renorm(data, nd));
        lemma_renorm_sync(enc_narrowed(f, msg, k), nd, enc_rest(f, msg, i), data);
        assert(msg.take(k).push(msg[k]) =~= msg.take(i));
    }
}

/// Decoding what the encoder wrote gives back the message: for counts that
/// are all at least one, and a message of fewer than 65536 symbols of the
/// alphabet (its length is recorded in two bytes) that the encoder can code,
/// each symbol getting a nonempty share of its interval.
pub proof fn lemma_arithmetic_roundtrip(data: Seq<u8>, f: Seq<u64>, msg: Seq<usize>)
    requires
        all_positive(f),
        forall|i: int| 0 <= i < msg.len() ==> #[trigger] msg[i] < f.len(),
        shares_nonempty(f, msg),
        msg.len() < 65536,
        arithmetic_encoded(data, f, msg),
    ensures
        arithmetic_decoded(data, f) == msg,
{
    let n = msg.len() as int;
    if n == 0 {
        assert(header_count(data) == 0);
        assert(arithmetic_decoded(data, f) =~= msg);
    } else {
        assert(data[0] == data.subrange(0, 2)[0]);
        assert(data[1] == data.subrange(0, 2)[1]);
        assert(header_count(data) == n);
        lemma_dec_sync(f, msg, data, n);
        assert(msg.take(n) =~= msg);
    }
}
} // verus!
