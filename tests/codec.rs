use n_lzw::{
    bitstream_to_lzwstream, decode_from_lzwstream, encode_to_lzwstream, lzw_decode, lzw_encode,
    lzwstream_to_bitstream, Decoder, Encoder, LzwError, LzwStream,
};

fn round_trip(input: &[u8]) {
    let packed = match lzw_encode(input) {
        Ok(v) => v,
        Err(_) => panic!("encode failed"),
    };
    let unpacked = match lzw_decode(&packed) {
        Ok(v) => v,
        Err(_) => panic!("decode failed"),
    };
    assert_eq!(unpacked, input.to_vec());
}

fn pseudo_random(n: usize, seed: u32) -> Vec<u8> {
    let mut x: u32 = seed;
    let mut out = Vec::new();
    for _ in 0..n {
        x ^= x << 13;
        x ^= x >> 17;
        x ^= x << 5;
        out.push((x >> 24) as u8);
    }
    out
}

fn all_two_grams() -> Vec<u8> {
    let mut out = Vec::new();
    for i in 0..=255u8 {
        for j in 0..32u8 {
            out.push(i);
            out.push(j.wrapping_mul(7));
        }
    }
    out
}

#[test]
fn round_trip_small_inputs() {
    round_trip(b"");
    round_trip(b"x");
    round_trip(b"TOBEORNOTTOBEORTOBEORNOT");
    round_trip(b"abababababababababab");
}

#[test]
fn round_trip_long_repetitive() {
    let input: Vec<u8> = std::iter::repeat(b"abcabcabd".iter().copied()).take(5000).flatten().collect();
    round_trip(&input);
    round_trip(&vec![0u8; 100_000]);
}

#[test]
fn round_trip_pseudo_random() {
    round_trip(&pseudo_random(60_000, 0x1234_5678));
}

#[test]
fn empty_input_gives_header_only() {
    let stream = encode_to_lzwstream(b"");
    assert_eq!(stream.size, 0);
    assert!(stream.data.is_empty());
    let packed = match lzw_encode(b"") {
        Ok(v) => v,
        Err(_) => panic!("encode failed"),
    };
    assert_eq!(packed, vec![b'L', b'Z', b'W', b'S', 0, 0, 0, 0]);
    match lzw_decode(&packed) {
        Ok(v) => assert!(v.is_empty()),
        Err(_) => panic!("decode failed"),
    }
}

#[test]
fn repeated_byte_reuses_codes() {
    let input = b"AAAAAAAAAA";
    let stream = encode_to_lzwstream(input);
    assert_eq!(stream.size, 4);
    assert_eq!(stream.data, vec![65, 256, 257, 258]);
    assert!(stream.size < 10);
    match decode_from_lzwstream(&stream) {
        Ok(v) => assert_eq!(v, input.to_vec()),
        Err(_) => panic!("decode failed"),
    }
}

#[test]
fn many_two_grams_force_a_reset() {
    let input = all_two_grams();
    let stream = encode_to_lzwstream(&input);
    // Each emitted code after the first enters one table entry; past 3840
    // entries the table has been reset at least once.
    assert!(stream.size > 3841);
    match decode_from_lzwstream(&stream) {
        Ok(v) => assert_eq!(v, input),
        Err(_) => panic!("decode failed"),
    }
    round_trip(&input);
}

#[test]
fn packing_layout() {
    let stream = LzwStream { data: vec![0x123, 0x456, 0xfff, 0x001], size: 3 };
    let packed = match lzwstream_to_bitstream(&stream) {
        Ok(v) => v,
        Err(_) => panic!("pack failed"),
    };
    assert_eq!(
        packed,
        vec![b'L', b'Z', b'W', b'S', 3, 0, 0, 0, 0x23, 0x56, 0x41, 0xff, 0x01, 0x0f]
    );
    let back = match bitstream_to_lzwstream(&packed) {
        Ok(s) => s,
        Err(_) => panic!("unpack failed"),
    };
    assert_eq!(back.size, 3);
    assert_eq!(back.data, vec![0x123, 0x456, 0xfff]);
}

#[test]
fn container_round_trip_even_count() {
    let stream = LzwStream { data: vec![1, 4095, 300, 7], size: 4 };
    let packed = match lzwstream_to_bitstream(&stream) {
        Ok(v) => v,
        Err(_) => panic!("pack failed"),
    };
    let back = match bitstream_to_lzwstream(&packed) {
        Ok(s) => s,
        Err(_) => panic!("unpack failed"),
    };
    assert_eq!(back.size, 4);
    assert_eq!(back.data, vec![1, 4095, 300, 7]);
}

#[test]
fn size_field_is_little_endian() {
    let mut data = vec![0u16; 0x0102 + 0x0102 % 2];
    data[0x0101] = 9;
    let stream = LzwStream { data, size: 0x0102 };
    let packed = match lzwstream_to_bitstream(&stream) {
        Ok(v) => v,
        Err(_) => panic!("pack failed"),
    };
    assert_eq!(&packed[4..8], &[0x02, 0x01, 0, 0]);
}

#[test]
fn odd_count_is_refused_by_packer() {
    let stream = LzwStream { data: vec![1, 2, 3], size: 3 };
    assert!(matches!(lzwstream_to_bitstream(&stream), Err(LzwError::ErrCompress(_))));
}

#[test]
fn altered_magic_is_invalid() {
    let mut packed = match lzw_encode(b"hello hello hello") {
        Ok(v) => v,
        Err(_) => panic!("encode failed"),
    };
    packed[3] = b'X';
    assert_eq!(&packed[0..4], b"LZWX");
    assert!(matches!(lzw_decode(&packed), Err(LzwError::ErrInvalidLzw)));
    assert!(matches!(lzw_decode(b"LZW"), Err(LzwError::ErrInvalidLzw)));
}

#[test]
fn misaligned_payload_is_malformed() {
    let mut packed = match lzw_encode(b"hello hello hello") {
        Ok(v) => v,
        Err(_) => panic!("encode failed"),
    };
    packed.push(0);
    assert!(matches!(lzw_decode(&packed), Err(LzwError::ErrDecompress(_))));
}

#[test]
fn oversized_logical_size_is_rejected() {
    let mut packed = match lzw_encode(b"hello hello hello") {
        Ok(v) => v,
        Err(_) => panic!("encode failed"),
    };
    packed[4] = 200;
    assert!(matches!(lzw_decode(&packed), Err(LzwError::ErrDecompress(_))));
}

#[test]
fn code_past_table_is_invalid() {
    let stream = LzwStream { data: vec![300, 0], size: 1 };
    assert!(matches!(decode_from_lzwstream(&stream), Err(LzwError::ErrInvalidLzw)));
    let first_new = LzwStream { data: vec![256, 0], size: 1 };
    assert!(matches!(decode_from_lzwstream(&first_new), Err(LzwError::ErrInvalidLzw)));
}

#[test]
fn code_equal_to_table_size_repeats_previous() {
    let stream = LzwStream { data: vec![65, 256], size: 2 };
    match decode_from_lzwstream(&stream) {
        Ok(v) => assert_eq!(v, b"AAA".to_vec()),
        Err(_) => panic!("decode failed"),
    }
}

#[test]
fn incremental_encoder_matches_whole() {
    let input = pseudo_random(5000, 77);
    let mut enc = Encoder::new();
    for &b in input.iter() {
        enc.push_byte(b);
    }
    let stream = enc.finish();
    let whole = encode_to_lzwstream(&input);
    assert_eq!(stream.data, whole.data);
    assert_eq!(stream.size, whole.size);
    let mut dec = Decoder::new();
    for &c in stream.data[..stream.size].iter() {
        assert!(dec.push_code(c).is_ok());
    }
    assert_eq!(dec.produced(), input.len());
    assert_eq!(dec.finish(), input);
}

#[test]
fn container_round_trip_odd_count_drops_padding() {
    let stream = LzwStream { data: vec![5, 4000, 7, 0], size: 3 };
    let packed = match lzwstream_to_bitstream(&stream) {
        Ok(v) => v,
        Err(_) => panic!("pack failed"),
    };
    assert_eq!(packed.len(), 8 + 6);
    let back = match bitstream_to_lzwstream(&packed) {
        Ok(s) => s,
        Err(_) => panic!("unpack failed"),
    };
    assert_eq!(back.size, 3);
    assert_eq!(back.data, vec![5, 4000, 7]);
}

#[test]
fn encoder_output_round_trips_through_container() {
    let input = b"TOBEORNOTTOBEORTOBEORNOT#";
    let stream = encode_to_lzwstream(input);
    assert_eq!(stream.data.len() % 2, 0);
    let packed = match lzwstream_to_bitstream(&stream) {
        Ok(v) => v,
        Err(_) => panic!("pack failed"),
    };
    let back = match bitstream_to_lzwstream(&packed) {
        Ok(s) => s,
        Err(_) => panic!("unpack failed"),
    };
    assert_eq!(back.size, stream.size);
    assert_eq!(back.data, stream.data[..stream.size].to_vec());
}

#[test]
fn size_past_stored_codes_is_refused() {
    let stream = LzwStream { data: vec![65, 66], size: 3 };
    assert!(matches!(decode_from_lzwstream(&stream), Err(LzwError::ErrDecompress(_))));
}

#[test]
fn wide_symbol_is_refused_by_packer() {
    let stream = LzwStream { data: vec![1, 4096], size: 2 };
    assert!(matches!(lzwstream_to_bitstream(&stream), Err(LzwError::ErrCompress(_))));
}
