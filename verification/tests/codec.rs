use rust_thanos::mca::lz4::{decode_lz4_blocks, lz4_checksum, Lz4Error};

fn frame(token: u8, declared: u32, checksum: u32, body: &[u8]) -> Vec<u8> {
    let mut out = Vec::new();
    out.extend_from_slice(b"LZ4Block");
    out.push(token);
    out.extend_from_slice(&(body.len() as u32).to_le_bytes());
    out.extend_from_slice(&declared.to_le_bytes());
    out.extend_from_slice(&checksum.to_le_bytes());
    out.extend_from_slice(body);
    out
}

fn raw_frame(payload: &[u8]) -> Vec<u8> {
    frame(0x10, payload.len() as u32, lz4_checksum(payload), payload)
}

#[test]
fn checksum_is_the_seeded_hash_cut_to_28_bits() {
    assert_eq!(lz4_checksum(b"Hello, LZ4!"), 0x0a41_7e75);
    assert_eq!(lz4_checksum(b""), 0x0d3b_42d8);
    assert_eq!(lz4_checksum(b"Bad checksum"), 0x0a05_4c80);
}

#[test]
fn checksum_never_exceeds_28_bits() {
    for n in 0u8..64 {
        let data: Vec<u8> = (0..n).collect();
        assert!(lz4_checksum(&data) <= 0x0FFF_FFFF);
    }
}

#[test]
fn empty_input_decodes_to_nothing() {
    assert_eq!(decode_lz4_blocks(&[]), Ok(Vec::new()));
}

#[test]
fn raw_frame_round_trips() {
    let payload = b"Hello, LZ4!".to_vec();
    assert_eq!(decode_lz4_blocks(&raw_frame(&payload)), Ok(payload));
}

#[test]
fn raw_frame_with_low_token_bits_round_trips() {
    let payload = b"abc".to_vec();
    let stream = frame(0x15, 3, lz4_checksum(&payload), &payload);
    assert_eq!(decode_lz4_blocks(&stream), Ok(payload));
}

#[test]
fn empty_raw_frame_round_trips() {
    assert_eq!(decode_lz4_blocks(&raw_frame(&[])), Ok(Vec::new()));
}

#[test]
fn frames_are_concatenated_in_order() {
    let mut stream = raw_frame(b"first ");
    let second = b"second second second second".to_vec();
    let compressed = lz4_flex::block::compress(&second);
    stream.extend_from_slice(&frame(
        0x20,
        second.len() as u32,
        lz4_checksum(&second),
        &compressed,
    ));
    stream.extend_from_slice(&raw_frame(b" third"));
    assert_eq!(
        decode_lz4_blocks(&stream),
        Ok(b"first second second second second third".to_vec())
    );
}

#[test]
fn compressed_frame_is_not_handed_back_as_stored() {
    let payload = vec![7u8; 300];
    let compressed = lz4_flex::block::compress(&payload);
    assert!(compressed.len() < payload.len());
    let stream = frame(0x20, 300, lz4_checksum(&payload), &compressed);
    assert_eq!(decode_lz4_blocks(&stream), Ok(payload));
}

#[test]
fn wrong_magic_is_bad_magic() {
    let mut stream = raw_frame(b"payload");
    stream[0] = b'X';
    assert_eq!(decode_lz4_blocks(&stream), Err(Lz4Error::BadMagic));
}

#[test]
fn short_body_is_truncated() {
    let mut stream = raw_frame(b"payload");
    stream.pop();
    assert_eq!(decode_lz4_blocks(&stream), Err(Lz4Error::Truncated));
}

#[test]
fn unknown_token_is_unsupported_method() {
    let payload = b"payload".to_vec();
    let stream = frame(0x30, 7, lz4_checksum(&payload), &payload);
    assert_eq!(decode_lz4_blocks(&stream), Err(Lz4Error::UnsupportedMethod));
}

#[test]
fn raw_frame_with_two_lengths_is_length_mismatch() {
    let payload = b"payload".to_vec();
    let stream = frame(0x10, 8, lz4_checksum(&payload), &payload);
    assert_eq!(decode_lz4_blocks(&stream), Err(Lz4Error::LengthMismatch));
}

#[test]
fn broken_block_is_decompress() {
    // A token that announces four literals, with only one byte behind it.
    let stream = frame(0x20, 16, 0, &[0x40, 0x41]);
    assert_eq!(decode_lz4_blocks(&stream), Err(Lz4Error::Decompress));
}

#[test]
fn block_larger_than_announced_is_decompress() {
    let payload = vec![9u8; 200];
    let compressed = lz4_flex::block::compress(&payload);
    let stream = frame(0x20, 10, lz4_checksum(&payload), &compressed);
    assert_eq!(decode_lz4_blocks(&stream), Err(Lz4Error::Decompress));
}

#[test]
fn compressed_body_over_16_mib_is_decoded() {
    let payload = vec![7u8; 0x0100_0001];
    let mut body = vec![0xF0u8];
    // 0x0100_0001 literals: 15 in the token, the rest in bytes that add up.
    let extra = 0x0100_0001usize - 15;
    body.extend_from_slice(&vec![0xFFu8; extra / 255]);
    body.push((extra % 255) as u8);
    body.extend_from_slice(&payload);
    assert!(body.len() > 0x0100_0000);
    let stream = frame(0x20, 0x0100_0001, lz4_checksum(&payload), &body);
    assert_eq!(decode_lz4_blocks(&stream), Ok(payload));
}

#[test]
fn run_of_length_bytes_that_cannot_be_added_up_is_length_overflow() {
    let mut body = vec![0xF0u8];
    body.extend_from_slice(&vec![0xFFu8; 16_843_009]);
    body.push(0);
    let stream = frame(0x20, 16, 0, &body);
    assert_eq!(decode_lz4_blocks(&stream), Err(Lz4Error::LengthOverflow));
    let stream = frame(0x20, 16, 0, &body[..16_843_009]);
    assert_eq!(decode_lz4_blocks(&stream), Err(Lz4Error::Decompress));
}

#[test]
fn valid_frame_before_more_input_decodes_first() {
    let mut stream = raw_frame(b"one");
    stream.extend_from_slice(&raw_frame(b"two"));
    assert_eq!(decode_lz4_blocks(&stream), Ok(b"onetwo".to_vec()));
    stream.extend_from_slice(b"LZ4Block");
    assert_eq!(decode_lz4_blocks(&stream), Err(Lz4Error::TrailingBytes));
}

#[test]
fn wrong_checksum_is_checksum_mismatch() {
    let payload = b"payload".to_vec();
    let good = lz4_checksum(&payload);
    for bit in 0..32 {
        let stream = frame(0x10, 7, good ^ (1 << bit), &payload);
        assert_eq!(decode_lz4_blocks(&stream), Err(Lz4Error::ChecksumMismatch));
    }
}

#[test]
fn changed_body_is_checksum_mismatch() {
    let payload = b"payload".to_vec();
    let mut stream = raw_frame(&payload);
    let last = stream.len() - 1;
    stream[last] ^= 0x01;
    assert_eq!(decode_lz4_blocks(&stream), Err(Lz4Error::ChecksumMismatch));
}

#[test]
fn bytes_after_the_last_frame_are_trailing_bytes() {
    let mut stream = raw_frame(b"payload");
    stream.push(0);
    assert_eq!(decode_lz4_blocks(&stream), Err(Lz4Error::TrailingBytes));
    assert_eq!(decode_lz4_blocks(&[0u8; 20]), Err(Lz4Error::TrailingBytes));
}

#[test]
fn error_is_that_of_the_first_wrong_frame() {
    let mut stream = raw_frame(b"good");
    let mut bad = raw_frame(b"bad");
    bad[3] = b'0';
    stream.extend_from_slice(&bad);
    stream.push(0);
    assert_eq!(decode_lz4_blocks(&stream), Err(Lz4Error::BadMagic));
}
