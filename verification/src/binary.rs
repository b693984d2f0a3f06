//! Binary coder for boolean streams: a length header followed by the bits
//! packed eight per byte.
use vstd::prelude::*;
use crate::bits::{byte_bit, header, lemma_payload_bits, packed_len, packs, pack_bits, payload_bit, push_header, stream_bit};

verus! {

/// Coder for boolean sequences.
#[derive(Debug)]
pub struct BinaryArithmeticCoder;

/// `data` is the encoding of `bits`: the header recording the number of bits,
/// then the bits packed eight per byte, most significant bit first.
pub open spec fn binary_encoded(data: Seq<u8>, bits: Seq<bool>) -> bool {
    &&& data.len() >= 2
    &&& data.subrange(0, 2) == header(bits.len() as int)
    &&& packs(data.skip(2), bits)
}

/// The `n` booleans read back from the payload of `data`, or as many as it
/// holds when that is fewer; nothing when `data` has no complete header or
/// `n` is zero.
pub open spec fn binary_decoded(data: Seq<u8>, n: int) -> Seq<bool> {
    if data.len() < 2 || n <= 0 {
        Seq::empty()
    } else {
        let avail = 8 * (data.len() - 2);
        let len = if n < avail {
            n
        } else {
            avail
        };
        Seq::new(len as nat, |i: int| payload_bit(data, i))
    }
}

/// Decoding what the binary coder wrote, asking for as many booleans as
/// were written, gives them back.
pub proof fn lemma_binary_roundtrip(data: Seq<u8>, bits: Seq<bool>)
    requires
        binary_encoded(data, bits),
    ensures
        binary_decoded(data, bits.len() as int) == bits,
{
    if bits.len() > 0 {
        lemma_payload_bits(data, bits);
        assert(8 * (data.len() - 2) >= bits.len());
        assert forall|i: int| 0 <= i < bits.len() implies #[trigger] binary_decoded(data, bits.len() as int)[i]
            == bits[i] by {
            assert(payload_bit(data, i) == stream_bit(bits, i));
        }
        assert(binary_decoded(data, bits.len() as int) =~= bits);
    } else {
        assert(binary_decoded(data, 0) =~= bits);
    }
}

/// Decoding the encoding of `bits`, asking for `k` of them, gives the first
/// `k` booleans that were encoded.
pub proof fn lemma_binary_decode_prefix(data: Seq<u8>, bits: Seq<bool>, k: int)
    requires
        binary_encoded(data, bits),
        0 <= k <= bits.len(),
    ensures
        binary_decoded(data, k) == bits.take(k),
{
    if k > 0 {
        lemma_payload_bits(data, bits);
        assert(8 * (data.len() - 2) >= bits.len());
        assert forall|i: int| 0 <= i < k implies #[trigger] binary_decoded(data, k)[i] == bits[i] by {
            assert(payload_bit(data, i) == stream_bit(bits, i));
        }
        assert(binary_decoded(data, k) =~= bits.take(k));
    } else {
        assert(binary_decoded(data, k) =~= bits.take(k));
    }
}

/// Decoding never gives more booleans than asked for; it gives exactly as
/// many as asked for when the payload holds them; and asking for fewer gives
/// a prefix of what asking for more gives.
pub proof fn lemma_binary_decoded_count(data: Seq<u8>, n: int, m: int)
    requires
        0 <= n <= m,
    ensures
        binary_decoded(data, n).len() <= n,
        data.len() >= 2 && n <= 8 * (data.len() - 2) ==> binary_decoded(data, n).len() == n,
        binary_decoded(data, n).len() <= binary_decoded(data, m).len(),
        binary_decoded(data, n) == binary_decoded(data, m).take(binary_decoded(data, n).len() as int),
{
    assert(binary_decoded(data, n) =~= binary_decoded(data, m).take(binary_decoded(data, n).len() as int));
}

impl BinaryArithmeticCoder {
    /// Encode a sequence of booleans into packed bytes.
    pub fn encode(bits: &[bool]) -> (data: Vec<u8>)
        ensures
            binary_encoded(data@, bits@),
            data@.len() == 2 + packed_len(bits@.len() as int),
            data@[0] as int == (bits@.len() / 256) % 256,
            data@[1] as int == bits@.len() % 256,
            forall|j: int|
                0 <= j < 8 * (data@.len() - 2) ==> #[trigger] byte_bit(data@[2 + j / 8], j % 8) == (j
                    < bits@.len() && bits@[j]),
    {
        if bits.len() == 0 {
            let v: Vec<u8> = vec![0, 0];
            assert(v@.subrange(0, 2) == header(0));
            assert(packs(v@.skip(2), bits@));
            return v;
        }
        let n = bits.len();
        let mut result: Vec<u8> = Vec::new();
        push_header(&mut result, n);
        assert(result@ == header(n as int));
        pack_bits(bits, &mut result);
        proof {
            assert(result@.subrange(0, 2) == header(n as int));
            let payload = result@.skip(2);
            assert forall|j: int| 0 <= j < 8 * (result@.len() - 2) implies #[trigger] byte_bit(
                result@[2 + j / 8],
                j % 8,
            ) == (j < bits@.len() && bits@[j]) by {
                assert(result@[2 + j / 8] == payload[j / 8]);
                assert(byte_bit(payload[j / 8], j % 8) == stream_bit(bits@, j));
            }
        }
        result
    }

    /// Decode packed bytes back to `n` booleans.
    pub fn decode(data: &[u8], n: usize) -> (bits: Vec<bool>)
        ensures
            bits@ == binary_decoded(data@, n as int),
            bits@.len() <= n,
            data@.len() >= 2 && n <= 8 * (data@.len() - 2) ==> bits@.len() == n,
            data@.len() >= 2 && n > 8 * (data@.len() - 2) ==> bits@.len() == 8 * (data@.len() - 2),
            forall|i: int|
                0 <= i < bits@.len() ==> #[trigger] bits@[i] == byte_bit(data@[2 + i / 8], i % 8),
    {
        if data.len() < 2 || n == 0 {
            return Vec::new();
        }
        let mut result: Vec<bool> = Vec::new();
        let mut k: usize = 2;
        while k < data.len()
            invariant
                2 <= k <= data.len(),
                n > 0,
                result@.len() == if n < 8 * (k - 2) {
                    n as int
                } else {
                    8 * (k - 2)
                },
                forall|j: int| 0 <= j < result@.len() ==> #[trigger] result@[j] == payload_bit(data@, j),
            decreases data.len() - k,
        {
            let byte = data[k];
            let mut i: usize = 0;
            while i < 8
                invariant
                    2 <= k < data.len(),
                    i <= 8,
                    byte == data@[k as int],
                    result@.len() == if n < 8 * (k - 2) + i {
                        n as int
                    } else {
                        8 * (k - 2) + i
                    },
                    forall|j: int| 0 <= j < result@.len() ==> #[trigger] result@[j] == payload_bit(data@, j),
                decreases 8 - i,
            {
                if result.len() < n {
                    let bit = (byte >> (7 - i) as u8) & 1 == 1;
                    proof {
                        let j = 8 * (k - 2) + i;
                        assert(j / 8 == k - 2);
                        assert(j % 8 == i);
                    }
                    result.push(bit);
                }
                i = i + 1;
            }
            k = k + 1;
        }
        assert(result@ == binary_decoded(data@, n as int));
        result
    }
}

} // verus!
