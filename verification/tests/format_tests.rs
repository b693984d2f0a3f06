use lib::{ArithmeticDecoder, ArithmeticEncoder, BinaryArithmeticCoder, FrequencyModel};

#[test]
fn encode_single_low_symbol_exact_bytes() {
    // [0, 2^30) narrows to [0, 2^29): E1 emits 0; the flush emits 0 then 1.
    let model = FrequencyModel::new_uniform(2);
    let encoded = ArithmeticEncoder::encode(&[0], &model);
    assert_eq!(encoded, vec![0, 1, 0b0010_0000]);
}

#[test]
fn encode_single_high_symbol_exact_bytes() {
    // [0, 2^30) narrows to [2^29, 2^30): E2 emits 1; the flush emits 0 then 1.
    let model = FrequencyModel::new_uniform(2);
    let encoded = ArithmeticEncoder::encode(&[1], &model);
    assert_eq!(encoded, vec![0, 1, 0b1010_0000]);
}

#[test]
fn encode_empty_message() {
    let model = FrequencyModel::new(3);
    let encoded = ArithmeticEncoder::encode(&[], &model);
    assert_eq!(encoded, vec![0, 0]);
    assert_eq!(ArithmeticDecoder::decode(&encoded, 0, &model), Vec::<usize>::new());
}

#[test]
fn header_records_message_length() {
    let model = FrequencyModel::new(2);
    let msg: Vec<usize> = (0..300).map(|i| i % 2).collect();
    let encoded = ArithmeticEncoder::encode(&msg, &model);
    assert_eq!(encoded[0], 1);
    assert_eq!(encoded[1], 44);
    assert_eq!(ArithmeticDecoder::decode(&encoded, msg.len(), &model), msg);
}

#[test]
fn decode_short_data_is_empty() {
    let model = FrequencyModel::new(2);
    assert_eq!(ArithmeticDecoder::decode(&[], 3, &model), Vec::<usize>::new());
    assert_eq!(ArithmeticDecoder::decode(&[7], 3, &model), Vec::<usize>::new());
    assert_eq!(ArithmeticDecoder::decode(&[0, 0, 9, 9], 3, &model), Vec::<usize>::new());
}

#[test]
fn decode_follows_header_not_argument() {
    let model = FrequencyModel::new(4);
    let msg = vec![3, 2, 1, 0, 3];
    let encoded = ArithmeticEncoder::encode(&msg, &model);
    assert_eq!(ArithmeticDecoder::decode(&encoded, 1, &model), msg);
    assert_eq!(ArithmeticDecoder::decode(&encoded, 1000, &model), msg);
}

#[test]
fn decode_arbitrary_bytes_gives_header_count() {
    let model = FrequencyModel::new(5);
    let data = vec![0, 6, 0xde, 0xad, 0xbe, 0xef];
    let decoded = ArithmeticDecoder::decode(&data, 0, &model);
    assert_eq!(decoded.len(), 6);
    assert!(decoded.iter().all(|&s| s < 5));
}

#[test]
fn roundtrip_large_alphabet_long_message() {
    let mut model = FrequencyModel::new(256);
    for i in 0..2000usize {
        model.update((i * 7919) % 256 % 17);
    }
    let msg: Vec<usize> = (0..5000usize).map(|i| (i * 31 + i / 7) % 256).collect();
    let encoded = ArithmeticEncoder::encode(&msg, &model);
    assert_eq!(ArithmeticDecoder::decode(&encoded, msg.len(), &model), msg);
}

#[test]
fn roundtrip_skewed_model_rare_symbols() {
    let mut model = FrequencyModel::new(4);
    for _ in 0..10000 {
        model.update(0);
    }
    let msg = vec![3, 3, 0, 1, 2, 3, 0, 0, 0, 3, 2, 1];
    let encoded = ArithmeticEncoder::encode(&msg, &model);
    assert_eq!(ArithmeticDecoder::decode(&encoded, msg.len(), &model), msg);
}

#[test]
fn skewed_source_compresses() {
    let mut model = FrequencyModel::new(2);
    for _ in 0..1000 {
        model.update(0);
    }
    let msg = vec![0usize; 1000];
    let encoded = ArithmeticEncoder::encode(&msg, &model);
    assert!(encoded.len() < 20);
    assert_eq!(ArithmeticDecoder::decode(&encoded, msg.len(), &model), msg);
}

#[test]
fn binary_encode_exact_bytes() {
    let bits = vec![true, false, true, true, false];
    assert_eq!(BinaryArithmeticCoder::encode(&bits), vec![0, 5, 0b1011_0000]);
    let nine = vec![true; 9];
    assert_eq!(BinaryArithmeticCoder::encode(&nine), vec![0, 9, 0xff, 0x80]);
}

#[test]
fn binary_encode_empty() {
    assert_eq!(BinaryArithmeticCoder::encode(&[]), vec![0, 0]);
}

#[test]
fn binary_decode_limits() {
    assert_eq!(BinaryArithmeticCoder::decode(&[0, 1, 0xff], 0), Vec::<bool>::new());
    assert_eq!(BinaryArithmeticCoder::decode(&[0], 4), Vec::<bool>::new());
    // Asking for more bits than the payload holds gives what it holds.
    assert_eq!(BinaryArithmeticCoder::decode(&[0, 0, 0xa5], 100), vec![true, false, true, false, false, true, false, true]);
    assert_eq!(BinaryArithmeticCoder::decode(&[0, 0, 0xa5, 0x80], 10), vec![true, false, true, false, false, true, false, true, true, false]);
}

#[test]
fn binary_roundtrip_long() {
    let bits: Vec<bool> = (0..1000).map(|i| (i * i) % 3 == 1).collect();
    let encoded = BinaryArithmeticCoder::encode(&bits);
    assert_eq!(encoded.len(), 2 + 125);
    assert_eq!(BinaryArithmeticCoder::decode(&encoded, bits.len()), bits);
}

#[test]
fn try_encode_accepts_what_encode_accepts() {
    let model = FrequencyModel::new(4);
    let msg = vec![3, 0, 2, 1, 1];
    let checked = ArithmeticEncoder::try_encode(&msg, &model);
    assert_eq!(checked, Some(ArithmeticEncoder::encode(&msg, &model)));
    let decoded = ArithmeticDecoder::decode(&checked.unwrap(), msg.len(), &model);
    assert_eq!(decoded, msg);
}

#[test]
fn try_encode_refuses_symbol_outside_alphabet() {
    let model = FrequencyModel::new(4);
    assert_eq!(ArithmeticEncoder::try_encode(&[0, 4], &model), None);
}

#[test]
fn try_encode_refuses_total_above_quarter() {
    let mut model = FrequencyModel::new(1);
    for _ in 0..0x1000_0000u64 {
        model.update(0);
    }
    assert_eq!(model.total(), 0x1000_0001);
    assert_eq!(ArithmeticEncoder::try_encode(&[0], &model), None);
}

#[test]
fn try_encode_empty_message() {
    let model = FrequencyModel::new(0);
    assert_eq!(ArithmeticEncoder::try_encode(&[], &model), Some(vec![0, 0]));
}

#[test]
fn encoded_length_within_eighteen_bits_per_symbol() {
    // Total 65536: the rarest symbol has count 1, the worst case for length.
    let mut model = FrequencyModel::new(2);
    for _ in 0..65534 {
        model.update(0);
    }
    assert_eq!(model.total(), 65536);
    let msg = vec![1usize; 100];
    let encoded = ArithmeticEncoder::encode(&msg, &model);
    assert!(encoded.len() <= 2 + (18 * msg.len() + 9) / 8);
    assert!(encoded.len() > 2 + 100 * 15 / 8);
    assert_eq!(ArithmeticDecoder::decode(&encoded, msg.len(), &model), msg);
}
