//! How long the encoding of a message can be.
//!
//! Each rescaling step doubles the width of the interval, which never
//! exceeds the code space, and every bit the encoder writes (settled or
//! pending) comes from one step. With a model total of at most `2^j`, a
//! symbol's share is at least `2^(28 - j)` wide, so coding it takes at most
//! `j + 2` steps.
use vstd::prelude::*;
use vstd::arithmetic::power2::{
    pow2, lemma2_to64, lemma_pow2_adds, lemma_pow2_pos, lemma_pow2_strictly_increases,
    lemma_pow2_unfold,
};
use crate::coding::{
    EncState, HALF, QUARTER, WHOLE, emit, enc_renorm, enc_state, enc_symbol, encoded_bits,
    in_range, lower_half, middle_half, narrow_high, narrow_low, normalized, upper_half,
};
use crate::model::{all_positive, cum_freq, lemma_cum_freq_mono, sum_freq};
use crate::roundtrip::{lemma_renorm_basic, lemma_small_total_normalized};

verus! {

/// Bits written or pending in an encoder state.
pub open spec fn bits_owed(st: EncState) -> int {
    st.bits.len() + st.pending as int
}

/// Each rescaling step adds one bit, written or pending, and doubles the
/// interval, which stays within the code space.
proof fn lemma_renorm_steps(st: EncState)
    requires
        in_range(st.low, st.high),
    ensures
        bits_owed(enc_renorm(st)) >= bits_owed(st),
        (st.high - st.low) * pow2((bits_owed(enc_renorm(st)) - bits_owed(st)) as nat) <= WHOLE,
    decreases WHOLE - (st.high - st.low),
{
    let r = enc_renorm(st);
    if lower_half(st.low, st.high) || upper_half(st.low, st.high) || middle_half(st.low, st.high) {
        let nx = if lower_half(st.low, st.high) {
            EncState {
                low: 2 * st.low,
                high: 2 * st.high,
                pending: 0,
                bits: st.bits + emit(false, st.pending),
            }
        } else if upper_half(st.low, st.high) {
            EncState {
                low: 2 * (st.low - HALF),
                high: 2 * (st.high - HALF),
                pending: 0,
                bits: st.bits + emit(true, st.pending),
            }
        } else {
            EncState {
                low: 2 * (st.low - QUARTER),
                high: 2 * (st.high - QUARTER),
                pending: st.pending + 1,
                bits: st.bits,
            }
        };
        assert(r == enc_renorm(nx));
        assert(bits_owed(nx) == bits_owed(st) + 1);
        lemma_renorm_steps(nx);
        let k = (bits_owed(r) - bits_owed(nx)) as nat;
        lemma_pow2_unfold(k + 1);
        let w = st.high - st.low;
        assert(nx.high - nx.low == 2 * w);
        assert(w * pow2(k + 1) == (2 * w) * pow2(k)) by (nonlinear_arith)
            requires
                pow2(k + 1) == 2 * pow2(k),
        ;
        assert((bits_owed(r) - bits_owed(st)) as nat == k + 1);
        assert(w * pow2((bits_owed(r) - bits_owed(st)) as nat) <= WHOLE);
    } else {
        lemma2_to64();
        assert(r == st);
        assert(pow2(0) == 1);
        assert((bits_owed(r) - bits_owed(st)) as nat == 0);
    }
}

/// With a total of at most `2^j`, a symbol's share of a normalized interval
/// is at least `2^(28 - j)` wide.
proof fn lemma_share_width(f: Seq<u64>, low: int, high: int, s: int, j: nat)
    requires
        normalized(low, high),
        all_positive(f),
        0 <= s < f.len(),
        j <= 28,
        sum_freq(f) <= pow2(j),
    ensures
        narrow_high(f, low, high, s) - narrow_low(f, low, high, s) >= pow2((28 - j) as nat),
{
    let r = high - low;
    let t = sum_freq(f) as int;
    let c0 = cum_freq(f, s) as int;
    let c1 = cum_freq(f, s + 1) as int;
    lemma_cum_freq_mono(f, 0, s);
    lemma_cum_freq_mono(f, s + 1, f.len() as int);
    assert(f[s] >= 1);
    assert(t >= 1);
    lemma2_to64();
    lemma_pow2_adds((28 - j) as nat, j);
    let m = pow2((28 - j) as nat) as int;
    let p = pow2(j) as int;
    assert(m * p == QUARTER);
    assert(r * c1 / t - r * c0 / t >= m) by (nonlinear_arith)
        requires
            r > m * p,
            t <= p,
            t >= 1,
            m >= 0,
            c1 >= c0 + 1,
            c0 >= 0,
    {
        assert(r * c1 >= r * c0 + r);
        assert(m * t <= m * p);
        assert(r * c1 >= r * c0 + m * t);
        assert((r * c0 + m * t) / t == r * c0 / t + m);
    }
}

/// Coding one symbol with a total of at most `2^j` owes at most `j + 2`
/// more bits.
proof fn lemma_symbol_steps(f: Seq<u64>, msg: Seq<usize>, i: int, j: nat)
    requires
        all_positive(f),
        forall|k: int| 0 <= k < msg.len() ==> #[trigger] msg[k] < f.len(),
        0 <= i < msg.len(),
        j <= 28,
        sum_freq(f) <= pow2(j),
    ensures
        bits_owed(enc_state(f, msg, i + 1)) <= bits_owed(enc_state(f, msg, i)) + j + 2,
{
    lemma2_to64();
    if j < 28 {
        lemma_pow2_strictly_increases(j, 28);
    }
    lemma_small_total_normalized(f, msg, i);
    let st = enc_state(f, msg, i);
    let s = msg[i] as int;
    assert(msg[i] < f.len());
    let nst = EncState {
        low: narrow_low(f, st.low, st.high, s),
        high: narrow_high(f, st.low, st.high, s),
        pending: st.pending,
        bits: st.bits,
    };
    crate::coding::lemma_narrow_nonempty(f, st.low, st.high, s);
    lemma_share_width(f, st.low, st.high, s, j);
    assert(enc_state(f, msg, i + 1) == enc_symbol(f, st, s));
    lemma_renorm_steps(nst);
    let k = (bits_owed(enc_renorm(nst)) - bits_owed(nst)) as nat;
    let w = nst.high - nst.low;
    let m = pow2((28 - j) as nat);
    lemma_pow2_pos(k);
    assert(m * pow2(k) <= w * pow2(k)) by (nonlinear_arith)
        requires
            m <= w,
            pow2(k) > 0,
    ;
    lemma_pow2_adds((28 - j) as nat, k);
    if k > j + 2 {
        lemma_pow2_strictly_increases(30, (28 - j + k) as nat);
        assert(false);
    }
}

/// Coding the first `i` symbols with a total of at most `2^j` owes at most
/// `(j + 2) * i` bits.
proof fn lemma_owed_bound(f: Seq<u64>, msg: Seq<usize>, i: int, j: nat)
    requires
        all_positive(f),
        forall|k: int| 0 <= k < msg.len() ==> #[trigger] msg[k] < f.len(),
        0 <= i <= msg.len(),
        j <= 28,
        sum_freq(f) <= pow2(j),
    ensures
        bits_owed(enc_state(f, msg, i)) <= (j + 2) * i,
    decreases i,
{
    if i > 0 {
        lemma_owed_bound(f, msg, i - 1, j);
        lemma_symbol_steps(f, msg, i - 1, j);
        assert((j + 2) * (i - 1) + j + 2 == (j + 2) * i) by (nonlinear_arith);
    }
}

/// With a model total of at most `2^j` (`j <= 28`), the bit stream that
/// encodes a message of `n` symbols holds at most `(j + 2) * n + 2` bits.
pub proof fn lemma_encoded_bits_len(f: Seq<u64>, msg: Seq<usize>, j: nat)
    requires
        all_positive(f),
        forall|k: int| 0 <= k < msg.len() ==> #[trigger] msg[k] < f.len(),
        j <= 28,
        sum_freq(f) <= pow2(j),
    ensures
        encoded_bits(f, msg).len() <= (j + 2) * msg.len() + 2,
{
    lemma_owed_bound(f, msg, msg.len() as int, j);
}

} // verus!
