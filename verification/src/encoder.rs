//! Arithmetic encoder.
//!
//! Encodes symbol sequences into compressed bitstreams using the cumulative
//! ranges of a frequency model.
use vstd::prelude::*;
use vstd::arithmetic::power2::{pow2, lemma2_to64, lemma_pow2_unfold};
use crate::bits::{pack_bits, push_header, header};
use crate::coding::{
    EncState, HALF, QUARTER, WHOLE, arithmetic_encoded, double, emit, enc_renorm,
    enc_state, enc_symbol, encoded_bits, in_range, lemma_narrow_within, narrow_high, narrow_low,
    normalized, shares_nonempty,
};
use crate::model::{FrequencyModel, cum_freq, lemma_cum_freq_mono, sum_freq};

verus! {

/// Arithmetic encoder.
pub struct ArithmeticEncoder;

/// Append `n` copies of `b`.
fn push_run(bits: &mut Vec<bool>, b: bool, n: usize)
    ensures
        final(bits)@ == old(bits)@ + Seq::new(n as nat, |i: int| b),
{
    let mut i: usize = 0;
    while i < n
        invariant
            i <= n,
            bits@ == old(bits)@ + Seq::new(i as nat, |j: int| b),
        decreases n - i,
    {
        bits.push(b);
        i = i + 1;
        assert(bits@ =~= old(bits)@ + Seq::new(i as nat, |j: int| b));
    }
}

/// Append the bit `b` and then `n` copies of its complement.
fn push_settled(bits: &mut Vec<bool>, b: bool, n: usize)
    ensures
        final(bits)@ == old(bits)@ + emit(b, n as nat),
{
    bits.push(b);
    push_run(bits, !b, n);
    assert(bits@ =~= old(bits)@ + emit(b, n as nat));
}

/// The encoder's rescaling loop: emit settled bits (E1, E2) or count a
/// pending bit (E3) until the interval straddles the midpoint and is wider
/// than a quarter.
fn rescale(low: u64, high: u64, pending: usize, bits: &mut Vec<bool>) -> (res: (u64, u64, usize))
    requires
        in_range(low as int, high as int),
        pending <= usize::MAX - 30,
    ensures
        enc_renorm(EncState { low: low as int, high: high as int, pending: pending as nat, bits: old(bits)@ })
            == (EncState { low: res.0 as int, high: res.1 as int, pending: res.2 as nat, bits: final(bits)@ }),
        normalized(res.0 as int, res.1 as int),
        res.2 <= pending + 30,
{
    let ghost start = EncState { low: low as int, high: high as int, pending: pending as nat, bits: bits@ };
    let mut l = low;
    let mut h = high;
    let mut p = pending;
    let ghost mut k: nat = 0;
    proof {
        lemma2_to64();
    }
    while h <= HALF || l >= HALF || (l >= QUARTER && h <= HALF + QUARTER)
        invariant
            in_range(l as int, h as int),
            enc_renorm(EncState { low: l as int, high: h as int, pending: p as nat, bits: bits@ })
                == enc_renorm(start),
            pow2(k) <= h - l,
            k <= 30,
            p <= pending + k,
            pending <= usize::MAX - 30,
            pow2(30) == WHOLE,
        decreases WHOLE - (h - l),
    {
        if h <= HALF {
            push_settled(bits, false, p);
            p = 0;
            l = double(l);
            h = double(h);
        } else if l >= HALF {
            push_settled(bits, true, p);
            p = 0;
            l = double(l - HALF);
            h = double(h - HALF);
        } else {
            p = p + 1;
            l = double(l - QUARTER);
            h = double(h - QUARTER);
        }
        proof {
            k = k + 1;
            lemma_pow2_unfold(k);
            if k > 30 {
                lemma_pow2_unfold(31);
            }
        }
    }
    (l, h, p)
}

impl ArithmeticEncoder {
    /// Encode a message using the given frequency model.
    ///
    /// Returns a vector of bytes representing the compressed bitstream: the
    /// message length as a two-byte header, then the coded bits.
    ///
    /// A symbol's share of the current interval is computed exactly in
    /// integers, `range * cumulative_count / total` rounded down; the bytes can
    /// therefore differ, on some inputs, from those of a coder that computes
    /// the shares in floating point.
    ///
    /// Every symbol must be in the model's alphabet and get a nonempty share
    /// of the interval in which it is coded, or the rescaling would never end;
    /// a model total of at most `QUARTER` guarantees that
    /// (`roundtrip::lemma_small_total_shares_nonempty`).
    pub fn encode(message: &[usize], model: &FrequencyModel) -> (data: Vec<u8>)
        requires
            forall|i: int| 0 <= i < message@.len() ==> #[trigger] message@[i] < model@.len(),
            shares_nonempty(model@, message@),
            message@.len() <= usize::MAX / 32,
        ensures
            arithmetic_encoded(data@, model@, message@),
            data@.len() >= 2,
            sum_freq(model@) <= 0x10000 ==> data@.len() <= 2 + (18 * message@.len() + 9) / 8,
            data@[0] as int == (message@.len() / 256) % 256,
            data@[1] as int == message@.len() % 256,
    {
        proof {
            use_type_invariant(model);
        }
        if message.len() == 0 {
            let v: Vec<u8> = vec![0, 0];
            assert(v@ =~= seq![0u8, 0u8]);
            return v;
        }
        let ghost f = model@;
        let ghost msg = message@;
        let total = model.total();
        assert(message@[0] < model@.len());
        proof {
            lemma_cum_freq_mono(f, 1, f.len() as int);
        }
        let mut low: u64 = 0;
        let mut high: u64 = WHOLE;
        let mut pending: usize = 0;
        let mut output_bits: Vec<bool> = Vec::new();
        let mut idx: usize = 0;
        while idx < message.len()
            invariant
                model.wf(),
                f == model@,
                msg == message@,
                total == sum_freq(f),
                total > 0,
                forall|i: int| 0 <= i < msg.len() ==> #[trigger] msg[i] < f.len(),
                shares_nonempty(f, msg),
                msg.len() <= usize::MAX / 32,
                idx <= msg.len(),
                low == enc_state(f, msg, idx as int).low,
                high == enc_state(f, msg, idx as int).high,
                pending == enc_state(f, msg, idx as int).pending,
                output_bits@ == enc_state(f, msg, idx as int).bits,
                normalized(low as int, high as int),
                pending <= 30 * idx,
            decreases msg.len() - idx,
        {
            let sym = message[idx];
            assert(msg[idx as int] < f.len());
            let range = high - low;
            let c_lo = model.cumulative(sym);
            proof {
                lemma_cum_freq_mono(f, sym as int + 1, f.len() as int);
            }
            let c_hi = c_lo + model.freq(sym);
            assert(c_hi == cum_freq(f, sym as int + 1));
            proof {
                lemma_narrow_within(f, low as int, high as int, sym as int);
                let ghost st = enc_state(f, msg, idx as int);
                assert(narrow_low(f, st.low, st.high, msg[idx as int] as int) < narrow_high(f, st.low, st.high, msg[idx as int] as int));
                assert((range as u128) * (c_hi as u128) <= 0x4000_0000u128 * 0xffff_ffff_ffff_ffffu128) by (nonlinear_arith)
                    requires
                        range <= 0x4000_0000u64,
                        c_hi <= 0xffff_ffff_ffff_ffffu64,
                ;
                assert((range as u128) * (c_lo as u128) <= (range as u128) * (c_hi as u128)) by (nonlinear_arith)
                    requires
                        c_lo <= c_hi,
                ;
            }
            // The symbol's share of the interval, computed exactly: the offsets
            // are range * cum / total, rounded down, which never exceed range.
            let q_hi = ((range as u128) * (c_hi as u128)) / (total as u128);
            let q_lo = ((range as u128) * (c_lo as u128)) / (total as u128);
            assert(low + q_hi == narrow_high(f, low as int, high as int, sym as int));
            assert(low + q_lo == narrow_low(f, low as int, high as int, sym as int));
            let new_high = low + q_hi as u64;
            let new_low = low + q_lo as u64;
            let res = rescale(new_low, new_high, pending, &mut output_bits);
            low = res.0;
            high = res.1;
            pending = res.2;
            idx = idx + 1;
            assert(enc_state(f, msg, idx as int) == enc_symbol(
                f,
                enc_state(f, msg, idx - 1),
                msg[idx - 1] as int,
            ));
        }
        // Flush: settle the pending bits and a point inside the final interval.
        pending = pending + 1;
        if low <= QUARTER {
            push_settled(&mut output_bits, false, pending);
        } else {
            push_settled(&mut output_bits, true, pending);
        }
        assert(output_bits@ == encoded_bits(f, msg));
        let mut bytes: Vec<u8> = Vec::new();
        push_header(&mut bytes, message.len());
        assert(bytes@ == header(msg.len() as int));
        pack_bits(output_bits.as_slice(), &mut bytes);
        assert(bytes@.subrange(0, 2) == header(msg.len() as int));
        proof {
            if sum_freq(f) <= 0x10000 {
                lemma2_to64();
                crate::size::lemma_encoded_bits_len(f, msg, 16);
                assert(bytes@.skip(2).len() == bytes@.len() - 2);
            }
            assert(bytes@[0] == bytes@.subrange(0, 2)[0]);
            assert(bytes@[1] == bytes@.subrange(0, 2)[1]);
        }
        bytes
    }

    /// Encode a message after checking at run time what `encode` requires:
    /// every symbol in the model's alphabet, a model total of at most
    /// `QUARTER` (which gives every symbol a nonempty share), and a message of
    /// at most `usize::MAX / 32` symbols. Returns `None` when a check fails.
    pub fn try_encode(message: &[usize], model: &FrequencyModel) -> (data: Option<Vec<u8>>)
        ensures
            data is Some <==> {
                &&& sum_freq(model@) <= QUARTER
                &&& message@.len() <= usize::MAX / 32
                &&& forall|i: int| 0 <= i < message@.len() ==> #[trigger] message@[i] < model@.len()
            },
            data matches Some(d) ==> arithmetic_encoded(d@, model@, message@),
    {
        proof {
            use_type_invariant(model);
        }
        if model.total() > QUARTER {
            return None;
        }
        if message.len() > usize::MAX / 32 {
            return None;
        }
        let n = model.alphabet_size();
        let mut i: usize = 0;
        while i < message.len()
            invariant
                i <= message@.len(),
                n == model@.len(),
                forall|j: int| 0 <= j < i ==> #[trigger] message@[j] < n,
            decreases message@.len() - i,
        {
            if message[i] >= n {
                return None;
            }
            i = i + 1;
        }
        proof {
            crate::roundtrip::lemma_small_total_shares_nonempty(model@, message@);
        }
        Some(Self::encode(message, model))
    }
}

} // verus!
