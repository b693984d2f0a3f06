//! Arithmetic decoder.
//!
//! Decodes compressed bitstreams back to symbol sequences.
use vstd::prelude::*;
use crate::bits::{byte_bit, header_count, payload_bit};
use crate::coding::{
    DecState, HALF, QUARTER, WHOLE, arithmetic_decoded, bit_value, dec_renorm,
    dec_state, double, in_range, init_code, narrow_high, narrow_low, normalized,
    select_symbol,
};
use crate::model::{FrequencyModel, cum_freq, lemma_cum_freq_mono, sum_freq};

verus! {

/// Arithmetic decoder.
pub struct ArithmeticDecoder;

/// Bit `pos` of the payload of `data` (the bytes after the header), 0 past its end.
fn read_bit(data: &[u8], pos: usize) -> (b: u64)
    ensures
        b == bit_value(payload_bit(data@, pos as int)),
{
    if data.len() >= 2 && pos / 8 < data.len() - 2 {
        let byte = data[2 + pos / 8];
        let shift = (7 - pos % 8) as u8;
        let bit = (byte >> shift) & 1;
        assert(bit == 0 || bit == 1) by (bit_vector)
            requires
                bit == (byte >> shift) & 1u8,
        ;
        assert(byte_bit(byte, (pos % 8) as int) == (bit == 1));
        bit as u64
    } else {
        0
    }
}

/// Shift the window left by one and take in `bit`.
fn shift_in(code: u64, bit: u64) -> (c: u64)
    requires
        code < 0x8000_0000,
        bit <= 1,
    ensures
        c == 2 * code + bit,
{
    assert((code << 1) | bit == 2 * code + bit) by (bit_vector)
        requires
            code < 0x8000_0000u64,
            bit <= 1u64,
    ;
    (code << 1) | bit
}

/// The symbol whose share of `[low, high)` holds `code`.
fn select(model: &FrequencyModel, total: u64, low: u64, high: u64, code: u64) -> (s: usize)
    requires
        model.wf(),
        total == sum_freq(model@),
        model@.len() > 0,
        in_range(low as int, high as int),
        low <= code < high,
    ensures
        s == select_symbol(model@, low as int, high as int, code as int, 0),
        s < model@.len(),
        narrow_low(model@, low as int, high as int, s as int) <= code,
        code < narrow_high(model@, low as int, high as int, s as int),
{
    let ghost f = model@;
    let n = model.alphabet_size();
    let range = high - low;
    let mut cum: u64 = 0;
    let mut i: usize = 0;
    proof {
        lemma_cum_freq_mono(f, 1, f.len() as int);
    }
    while i < n
        invariant
            model.wf(),
            f == model@,
            n == f.len(),
            n > 0,
            total == sum_freq(f),
            total > 0,
            range == high - low,
            in_range(low as int, high as int),
            low <= code < high,
            i <= n,
            cum == cum_freq(f, i as int),
            narrow_low(f, low as int, high as int, i as int) <= code,
            select_symbol(f, low as int, high as int, code as int, 0) == select_symbol(
                f,
                low as int,
                high as int,
                code as int,
                i as int,
            ),
        decreases n - i,
    {
        proof {
            lemma_cum_freq_mono(f, i as int + 1, f.len() as int);
        }
        cum = cum + model.freq(i);
        proof {
            assert((range as u128) * (cum as u128) <= 0x4000_0000u128 * 0xffff_ffff_ffff_ffffu128)
                by (nonlinear_arith)
                requires
                    range <= 0x4000_0000u64,
                    cum <= 0xffff_ffff_ffff_ffffu64,
            ;
        }
        let bound = ((range as u128) * (cum as u128)) / (total as u128);
        if ((code - low) as u128) < bound {
            return i;
        }
        i = i + 1;
    }
    proof {
        assert(cum_freq(f, n as int) == total);
        assert((range as int) * (total as int) / (total as int) == range as int) by (nonlinear_arith)
            requires
                total > 0,
        ;
    }
    n - 1
}

/// The decoder's rescaling loop, applied to the interval and the window alike.
fn rescale(data: &[u8], low: u64, high: u64, code: u64, pos: usize, Ghost(out): Ghost<Seq<usize>>) -> (res: (u64, u64, u64, usize))
    requires
        in_range(low as int, high as int),
        low <= code < high,
        pos <= usize::MAX - 30,
    ensures
        dec_renorm(data@, DecState { low: low as int, high: high as int, code: code as int, pos: pos as int, out })
            == (DecState { low: res.0 as int, high: res.1 as int, code: res.2 as int, pos: res.3 as int, out }),
        normalized(res.0 as int, res.1 as int),
        res.0 <= res.2 < res.1,
        res.3 <= pos + 30,
{
    let ghost start = DecState { low: low as int, high: high as int, code: code as int, pos: pos as int, out };
    let mut l = low;
    let mut h = high;
    let mut c = code;
    let mut p = pos;
    proof {
        vstd::arithmetic::power2::lemma2_to64();
    }
    while h <= HALF || l >= HALF || (l >= QUARTER && h <= HALF + QUARTER)
        invariant
            in_range(l as int, h as int),
            l <= c < h,
            dec_renorm(data@, DecState { low: l as int, high: h as int, code: c as int, pos: p as int, out })
                == dec_renorm(data@, start),
            pos <= p,
            p <= pos + 30,
            pos <= usize::MAX - 30,
            vstd::arithmetic::power2::pow2((p - pos) as nat) <= h - l,
            vstd::arithmetic::power2::pow2(30) == WHOLE,
        decreases WHOLE - (h - l),
    {
        let bit = read_bit(data, p);
        if h <= HALF {
            l = double(l);
            h = double(h);
            c = shift_in(c, bit);
        } else if l >= HALF {
            l = double(l - HALF);
            h = double(h - HALF);
            c = shift_in(c - HALF, bit);
        } else {
            l = double(l - QUARTER);
            h = double(h - QUARTER);
            c = shift_in(c - QUARTER, bit);
        }
        proof {
            vstd::arithmetic::power2::lemma_pow2_unfold((p - pos + 1) as nat);
            if p - pos + 1 > 30 {
                vstd::arithmetic::power2::lemma_pow2_unfold(31);
            }
        }
        p = p + 1;
    }
    (l, h, c, p)
}

impl ArithmeticDecoder {
    /// Decode a compressed byte stream back to symbols using the given model.
    ///
    /// The number of symbols is the one that the stream's header records;
    /// `_n` is not consulted, and the result, `arithmetic_decoded(data, model)`,
    /// does not depend on it.
    ///
    /// Symbols are selected by the same integer shares the encoder uses,
    /// `range * cumulative_count / total` rounded down; on some inputs the
    /// result can therefore differ from that of a decoder that compares
    /// floating-point ratios.
    pub fn decode(data: &[u8], _n: usize, model: &FrequencyModel) -> (symbols: Vec<usize>)
        requires
            data@.len() >= 2 && header_count(data@) > 0 ==> model@.len() > 0,
        ensures
            symbols@ == arithmetic_decoded(data@, model@),
            symbols@.len() == if data@.len() < 2 {
                0
            } else {
                header_count(data@)
            },
            forall|i: int| 0 <= i < symbols@.len() ==> #[trigger] symbols@[i] < model@.len(),
    {
        proof {
            use_type_invariant(model);
        }
        if data.len() < 2 {
            return Vec::new();
        }
        let d0 = data[0];
        let d1 = data[1];
        let expected: usize = ((d0 as usize) << 8) | d1 as usize;
        assert(expected == d0 as int * 256 + d1 as int) by (bit_vector)
            requires
                expected == ((d0 as usize) << 8) | d1 as usize,
        ;
        if expected == 0 {
            return Vec::new();
        }
        let ghost f = model@;
        let total = model.total();
        proof {
            lemma_cum_freq_mono(f, 1, f.len() as int);
        }
        let mut code: u64 = 0;
        let mut i: usize = 0;
        proof {
            vstd::arithmetic::power2::lemma2_to64();
        }
        while i < 30
            invariant
                i <= 30,
                code == init_code(data@, i as int),
                code < vstd::arithmetic::power2::pow2(i as nat),
            decreases 30 - i,
        {
            let bit = read_bit(data, i);
            proof {
                vstd::arithmetic::power2::lemma2_to64();
                vstd::arithmetic::power2::lemma_pow2_unfold(i as nat + 1);
                vstd::arithmetic::power2::lemma_pow2_strictly_increases(i as nat, 31);
            }
            code = shift_in(code, bit);
            i = i + 1;
        }
        proof {
            vstd::arithmetic::power2::lemma2_to64();
        }
        let mut bit_pos: usize = 30;
        let mut low: u64 = 0;
        let mut high: u64 = WHOLE;
        let mut result: Vec<usize> = Vec::new();
        let mut count: usize = 0;
        assert(dec_state(f, data@, 0) == (DecState { low: 0, high: WHOLE as int, code: code as int, pos: 30, out: result@ }));
        while count < expected
            invariant
                model.wf(),
                f == model@,
                f.len() > 0,
                total == sum_freq(f),
                expected == header_count(data@),
                expected <= 0xffff,
                count <= expected,
                dec_state(f, data@, count as int) == (DecState {
                    low: low as int,
                    high: high as int,
                    code: code as int,
                    pos: bit_pos as int,
                    out: result@,
                }),
                in_range(low as int, high as int),
                low <= code < high,
                bit_pos <= 30 + 30 * count,
                result@.len() == count,
                forall|j: int| 0 <= j < result@.len() ==> #[trigger] result@[j] < f.len(),
            decreases expected - count,
        {
            let sym = select(model, total, low, high, code);
            let range = high - low;
            let c_lo = model.cumulative(sym);
            proof {
                lemma_cum_freq_mono(f, sym as int + 1, f.len() as int);
            }
            let c_hi = c_lo + model.freq(sym);
            proof {
                assert((range as u128) * (c_hi as u128) <= 0x4000_0000u128 * 0xffff_ffff_ffff_ffffu128)
                    by (nonlinear_arith)
                    requires
                        range <= 0x4000_0000u64,
                        c_hi <= 0xffff_ffff_ffff_ffffu64,
                ;
                assert((range as u128) * (c_lo as u128) <= (range as u128) * (c_hi as u128)) by (nonlinear_arith)
                    requires
                        c_lo <= c_hi,
                ;
            }
            let q_hi = ((range as u128) * (c_hi as u128)) / (total as u128);
            let q_lo = ((range as u128) * (c_lo as u128)) / (total as u128);
            proof {
                crate::coding::lemma_narrow_within(f, low as int, high as int, sym as int);
            }
            assert(c_hi == cum_freq(f, sym as int + 1));
            assert(low + q_hi == narrow_high(f, low as int, high as int, sym as int));
            assert(low + q_lo == narrow_low(f, low as int, high as int, sym as int));
            let new_high = low + q_hi as u64;
            let new_low = low + q_lo as u64;
            result.push(sym);
            let res = rescale(data, new_low, new_high, code, bit_pos, Ghost(result@));
            low = res.0;
            high = res.1;
            code = res.2;
            bit_pos = res.3;
            count = count + 1;
        }
        result
    }
}

} // verus!
