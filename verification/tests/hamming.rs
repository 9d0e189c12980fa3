use rust_data_server::hamming::{
    decode, decode_bytes, decode_u64, decode_words, encode, encode_bytes, encode_u64, encode_words,
    native_little_endian,
};

#[test]
fn test_hamming_code() {
    let data = 0x1234_5678_9ABC_DE_00;
    let encoded = encode_u64(data);
    assert_eq!(decode_u64(encoded), Ok(data));
    for index in 0..63 {
        let decoded = decode_u64(encoded ^ (1 << index));
        assert_eq!(decoded, Ok(data));
    }
    assert_eq!(decode_u64(encoded | 0b11), Err(()));
}

#[test]
fn encode_u64_keeps_the_data_bits() {
    let data: u64 = 0xFEDC_BA98_7654_3280;
    let encoded = encode_u64(data);
    assert_eq!(encoded & !0x7f, data);
    assert_eq!(decode_u64(encoded), Ok(data));
}

#[test]
fn encode_u64_of_zero_is_zero() {
    assert_eq!(encode_u64(0), 0);
    assert_eq!(decode_u64(0), Ok(0));
}

#[test]
fn decode_u64_corrects_the_top_bit() {
    let data: u64 = 0x0123_4567_89AB_CD00;
    let encoded = encode_u64(data);
    assert_eq!(decode_u64(encoded ^ (1 << 63)), Ok(data));
}

#[test]
fn decode_u64_detects_two_flipped_bits() {
    let data: u64 = 0x1234_5678_9ABC_DE00;
    let encoded = encode_u64(data);
    for (i, j) in [(0, 1), (3, 40), (10, 63), (7, 8), (62, 63)] {
        assert_eq!(decode_u64(encoded ^ (1 << i) ^ (1 << j)), Err(()));
    }
}

#[test]
fn secded_blocks_round_trip() {
    let data: Vec<u8> = vec![1, 2, 3, 4, 5, 6, 7, 0, 9, 10, 11, 12, 13, 14, 15, 0];
    let mut stream = data.clone();
    encode(&mut stream);
    assert_eq!(stream.len(), data.len());
    assert_ne!(stream, data);
    let mut decoded = stream.clone();
    assert_eq!(decode(&mut decoded), Ok(()));
    assert_eq!(decoded, data);
}

#[test]
fn secded_corrects_one_flipped_bit_per_block() {
    let data: Vec<u8> = vec![10, 20, 30, 40, 50, 60, 70, 0, 1, 1, 2, 3, 5, 8, 13, 0];
    let mut stream = data.clone();
    encode(&mut stream);
    for bit in 0..64 {
        let mut damaged = stream.clone();
        damaged[bit / 8] ^= 1 << (bit % 8);
        damaged[8 + (63 - bit) / 8] ^= 1 << ((63 - bit) % 8);
        assert_eq!(decode(&mut damaged), Ok(()));
        assert_eq!(damaged, data);
    }
}

#[test]
fn word_codes_round_trip() {
    let data: Vec<u8> = vec![0, 1, 2, 3, 4, 5, 6, 0, 0, 0xAA, 0x55, 0, 0xFF, 1, 2, 0];
    let mut stream = data.clone();
    assert_eq!(encode_bytes(&mut stream), Ok(()));
    assert_eq!(stream.len(), data.len());
    assert_ne!(stream, data);
    assert_eq!(decode_bytes(&mut stream), Ok(()));
    assert_eq!(stream, data);
}

#[test]
fn word_codes_refuse_used_check_bits() {
    let mut stream: Vec<u8> = vec![1, 2, 3, 4, 5, 6, 7, 1];
    assert_eq!(encode_bytes(&mut stream), Err(()));
}

#[test]
fn word_codes_report_two_flipped_bits() {
    let mut stream: Vec<u8> = vec![0, 1, 2, 3, 4, 5, 6, 0];
    assert_eq!(encode_bytes(&mut stream), Ok(()));
    stream[3] ^= 0b0001_0001;
    assert_eq!(decode_bytes(&mut stream), Err(()));
}

#[test]
fn native_order_is_the_machine_order() {
    assert_eq!(native_little_endian(), u16::from_ne_bytes([1, 0]) == 1);
}

#[test]
fn words_are_read_in_the_order_asked() {
    let word: u64 = 0x0102_0304_0506_0780;
    let code = encode_u64(word);
    let mut le = word.to_le_bytes().to_vec();
    assert_eq!(encode_words(&mut le, true), Ok(()));
    assert_eq!(le, code.to_le_bytes().to_vec());
    let mut be = word.to_be_bytes().to_vec();
    assert_eq!(encode_words(&mut be, false), Ok(()));
    assert_eq!(be, code.to_be_bytes().to_vec());
    le[5] ^= 0x10;
    assert_eq!(decode_words(&mut le, true), Ok(()));
    assert_eq!(le, word.to_le_bytes().to_vec());
    assert_eq!(decode_words(&mut be, false), Ok(()));
    assert_eq!(be, word.to_be_bytes().to_vec());
}

#[test]
fn word_streams_stop_at_the_first_bad_block() {
    let good: u64 = 0x1111_2222_3333_4400;
    let mut data = good.to_le_bytes().to_vec();
    data.extend(0x1234u64.to_le_bytes());
    data.extend(good.to_le_bytes());
    let before = data.clone();
    assert_eq!(encode_words(&mut data, true), Err(()));
    assert_eq!(data[..8].to_vec(), encode_u64(good).to_le_bytes().to_vec());
    assert_eq!(data[8..].to_vec(), before[8..].to_vec());
    let mut coded = encode_u64(good).to_le_bytes().to_vec();
    let mut second = encode_u64(good).to_le_bytes().to_vec();
    second[2] ^= 0b11;
    coded.extend(second.clone());
    assert_eq!(decode_words(&mut coded, true), Err(()));
    assert_eq!(coded[..8].to_vec(), good.to_le_bytes().to_vec());
    assert_eq!(coded[8..].to_vec(), second);
}

// The check matrix of the 57-bit block code, row by row.
const ROWS: [u64; 6] = [
    0x0000_003f_ffff_ffc0,
    0x001f_ffc0_007f_ffa0,
    0x0fe0_3fc0_7f80_7f90,
    0x71e3_c3c7_8787_8788,
    0xb66c_ccd9_9999_9984,
    0xdab5_556a_aaaa_aa82,
];

fn expected_block(block: [u8; 8]) -> Vec<u8> {
    let v = u64::from_be_bytes(block);
    let mut code = 0u64;
    let mut all = 0u64;
    for (k, row) in ROWS.iter().enumerate() {
        let p = ((v & row).count_ones() % 2) as u64;
        code |= p << (6 - k);
        all ^= p;
    }
    (v | code | all).to_be_bytes().to_vec()
}

#[test]
fn block_code_matches_its_check_matrix() {
    let blocks: [[u8; 8]; 5] = [
        [1, 2, 3, 4, 5, 6, 7, 0],
        [0xff, 0xff, 0xff, 0xff, 0xff, 0xff, 0xff, 0x80],
        [0, 0, 0, 0, 5, 0, 0, 0],
        [0x12, 0x34, 0x56, 0x78, 0x9a, 0xbc, 0xde, 0x80],
        [0; 8],
    ];
    for block in blocks {
        let mut data = block.to_vec();
        encode(&mut data);
        assert_eq!(data, expected_block(block));
    }
}
