//! Bit sequences and their packing into bytes, most significant bit first.
use vstd::prelude::*;

verus! {

/// Bit `i` (0 = most significant) of byte `b`.
pub open spec fn byte_bit(b: u8, i: int) -> bool {
    (b >> ((7 - i) as u8)) & 1u8 == 1u8
}

/// Bit `j` of a finite bit sequence read as an infinite stream padded with zeros.
pub open spec fn stream_bit(s: Seq<bool>, j: int) -> bool {
    0 <= j < s.len() && s[j]
}

/// Number of bytes needed to hold `n` bits.
pub open spec fn packed_len(n: int) -> int {
    (n + 7) / 8
}

/// `bytes` holds the bits of `bits`, eight per byte, most significant bit first,
/// with the last byte padded by zero bits.
pub open spec fn packs(bytes: Seq<u8>, bits: Seq<bool>) -> bool {
    &&& bytes.len() == packed_len(bits.len() as int)
    &&& forall|j: int|
        0 <= j < 8 * bytes.len() ==> #[trigger] byte_bit(bytes[j / 8], j % 8) == stream_bit(
            bits,
            j,
        )
}

/// The two-byte header that records `n` (modulo 65536) in big-endian order.
pub open spec fn header(n: int) -> Seq<u8> {
    seq![((n / 256) % 256) as u8, (n % 256) as u8]
}

/// The count recorded in a two-byte header.
pub open spec fn header_count(data: Seq<u8>) -> int {
    data[0] as int * 256 + data[1] as int
}

/// Bit `j` of the payload of `data`, the bytes after its two-byte header,
/// padded with zeros.
pub open spec fn payload_bit(data: Seq<u8>, j: int) -> bool {
    0 <= j && 2 + j / 8 < data.len() && byte_bit(data[2 + j / 8], j % 8)
}

/// The payload of data that packs `bits` reads as `bits`, zero-padded.
pub proof fn lemma_payload_bits(data: Seq<u8>, bits: Seq<bool>)
    requires
        data.len() >= 2,
        packs(data.skip(2), bits),
    ensures
        forall|j: int| 0 <= j ==> #[trigger] payload_bit(data, j) == stream_bit(bits, j),
{
    let bytes = data.skip(2);
    assert forall|j: int| 0 <= j implies #[trigger] payload_bit(data, j) == stream_bit(bits, j) by {
        if 2 + j / 8 < data.len() {
            assert(j < 8 * bytes.len());
            assert(data[2 + j / 8] == bytes[j / 8]);
            assert(byte_bit(bytes[j / 8], j % 8) == stream_bit(bits, j));
        } else {
            assert(j >= 8 * packed_len(bits.len() as int));
        }
    }
}

/// A byte is determined by its eight bits.
proof fn lemma_byte_from_bits(a: u8, b: u8)
    requires
        forall|j: int| 0 <= j < 8 ==> #[trigger] byte_bit(a, j) == byte_bit(b, j),
    ensures
        a == b,
{
    assert(byte_bit(a, 0) == byte_bit(b, 0));
    assert(byte_bit(a, 1) == byte_bit(b, 1));
    assert(byte_bit(a, 2) == byte_bit(b, 2));
    assert(byte_bit(a, 3) == byte_bit(b, 3));
    assert(byte_bit(a, 4) == byte_bit(b, 4));
    assert(byte_bit(a, 5) == byte_bit(b, 5));
    assert(byte_bit(a, 6) == byte_bit(b, 6));
    assert(byte_bit(a, 7) == byte_bit(b, 7));
    assert(a == b) by (bit_vector)
        requires
            ((a >> 7u8) & 1u8 == 1u8) == ((b >> 7u8) & 1u8 == 1u8),
            ((a >> 6u8) & 1u8 == 1u8) == ((b >> 6u8) & 1u8 == 1u8),
            ((a >> 5u8) & 1u8 == 1u8) == ((b >> 5u8) & 1u8 == 1u8),
            ((a >> 4u8) & 1u8 == 1u8) == ((b >> 4u8) & 1u8 == 1u8),
            ((a >> 3u8) & 1u8 == 1u8) == ((b >> 3u8) & 1u8 == 1u8),
            ((a >> 2u8) & 1u8 == 1u8) == ((b >> 2u8) & 1u8 == 1u8),
            ((a >> 1u8) & 1u8 == 1u8) == ((b >> 1u8) & 1u8 == 1u8),
            ((a >> 0u8) & 1u8 == 1u8) == ((b >> 0u8) & 1u8 == 1u8),
    ;
}

/// Packing is a function: there is one byte sequence that packs given bits.
pub proof fn lemma_packs_unique(a: Seq<u8>, b: Seq<u8>, bits: Seq<bool>)
    requires
        packs(a, bits),
        packs(b, bits),
    ensures
        a == b,
{
    assert forall|k: int| 0 <= k < a.len() implies a[k] == b[k] by {
        assert forall|j: int| 0 <= j < 8 implies #[trigger] byte_bit(a[k], j) == byte_bit(b[k], j) by {
            let idx = 8 * k + j;
            assert(idx / 8 == k);
            assert(idx % 8 == j);
            assert(byte_bit(a[idx / 8], idx % 8) == stream_bit(bits, idx));
            assert(byte_bit(b[idx / 8], idx % 8) == stream_bit(bits, idx));
        }
        lemma_byte_from_bits(a[k], b[k]);
    }
    assert(a =~= b);
}

proof fn lemma_set_bit(b: u8, i: u8, j: u8)
    requires
        i < 8,
        j < 8,
    ensures
        ((b | (1u8 << (7 - i) as u8)) >> (7 - j) as u8) & 1u8 == 1u8 <==> ((b >> (7 - j) as u8)
            & 1u8 == 1u8 || i == j),
{
    assert(((b | (1u8 << (7 - i) as u8)) >> (7 - j) as u8) & 1u8 == 1u8 <==> ((b >> (7 - j) as u8)
        & 1u8 == 1u8 || i == j)) by (bit_vector)
        requires
            i < 8,
            j < 8,
    ;
}

proof fn lemma_zero_byte_bits()
    ensures
        forall|j: int| 0 <= j < 8 ==> !#[trigger] byte_bit(0u8, j),
{
    assert forall|j: int| 0 <= j < 8 implies !#[trigger] byte_bit(0u8, j) by {
        let k: u8 = (7 - j) as u8;
        assert((0u8 >> k) & 1u8 == 0u8) by (bit_vector);
    }
}

/// Build the byte whose bits, from the most significant one, are
/// `bits[start..start + 8]` (missing bits read as zero).
fn pack_byte(bits: &[bool], start: usize) -> (byte: u8)
    requires
        start < bits.len(),
    ensures
        forall|j: int| 0 <= j < 8 ==> #[trigger] byte_bit(byte, j) == stream_bit(bits@, start + j),
{
    let mut byte: u8 = 0;
    let mut i: usize = 0;
    proof {
        lemma_zero_byte_bits();
    }
    while i < 8 && start + i < bits.len()
        invariant
            i <= 8,
            start < bits.len(),
            start + i <= bits.len(),
            forall|j: int|
                0 <= j < 8 ==> #[trigger] byte_bit(byte, j) == (j < i && stream_bit(
                    bits@,
                    start + j,
                )),
        decreases 8 - i,
    {
        let ghost old_byte = byte;
        if bits[start + i] {
            byte = byte | (1u8 << (7 - i) as u8);
            proof {
                assert forall|j: int| 0 <= j < 8 implies #[trigger] byte_bit(byte, j) == (
                byte_bit(old_byte, j) || j == i) by {
                    lemma_set_bit(old_byte, i as u8, j as u8);
                }
            }
        }
        i = i + 1;
    }
    byte
}

/// Append to `out` the bits of `bits` packed eight per byte, most significant
/// bit first, the last byte padded with zero bits.
pub fn pack_bits(bits: &[bool], out: &mut Vec<u8>)
    ensures
        final(out)@.len() == old(out)@.len() + packed_len(bits@.len() as int),
        final(out)@.subrange(0, old(out)@.len() as int) == old(out)@,
        packs(final(out)@.skip(old(out)@.len() as int), bits@),
{
    let ghost start_len = out@.len();
    let n_bytes: usize = if bits.len() % 8 == 0 {
        bits.len() / 8
    } else {
        bits.len() / 8 + 1
    };
    assert(n_bytes == packed_len(bits@.len() as int));
    let mut b: usize = 0;
    while b < n_bytes
        invariant
            n_bytes == packed_len(bits@.len() as int),
            b <= n_bytes,
            start_len == old(out)@.len(),
            out@.len() == start_len + b,
            out@.subrange(0, start_len as int) == old(out)@,
            forall|j: int|
                0 <= j < 8 * b ==> #[trigger] byte_bit(out@[start_len + j / 8], j % 8)
                    == stream_bit(bits@, j),
        decreases n_bytes - b,
    {
        assert(b * 8 < bits.len()) by (nonlinear_arith)
            requires
                b < n_bytes,
                n_bytes == (bits.len() + 7) / 8,
        ;
        let byte = pack_byte(bits, b * 8);
        let ghost prev = out@;
        out.push(byte);
        proof {
            assert(out@.subrange(0, start_len as int) == prev.subrange(0, start_len as int));
            assert forall|j: int| 0 <= j < 8 * (b + 1) implies #[trigger] byte_bit(
                out@[start_len + j / 8],
                j % 8,
            ) == stream_bit(bits@, j) by {
                if j < 8 * b {
                    assert(out@[start_len + j / 8] == prev[start_len + j / 8]);
                } else {
                    assert(j / 8 == b);
                    assert(byte_bit(byte, j % 8) == stream_bit(bits@, b * 8 + j % 8));
                }
            }
        }
        b = b + 1;
    }
    proof {
        let packed = out@.skip(start_len as int);
        assert forall|j: int| 0 <= j < 8 * packed.len() implies #[trigger] byte_bit(
            packed[j / 8],
            j % 8,
        ) == stream_bit(bits@, j) by {
            assert(packed[j / 8] == out@[start_len + j / 8]);
        }
    }
}

/// Write the two header bytes recording `n` modulo 65536.
pub fn push_header(out: &mut Vec<u8>, n: usize)
    ensures
        final(out)@ == old(out)@ + header(n as int),
{
    let hi = (n >> 8) as u8;
    let lo = (n & 0xFF) as u8;
    assert(hi == ((n / 256) % 256) as u8) by (bit_vector)
        requires
            hi == (n >> 8) as u8,
    ;
    assert(lo == (n % 256) as u8) by (bit_vector)
        requires
            lo == (n & 0xFF) as u8,
    ;
    out.push(hi);
    out.push(lo);
}

} // verus!
