use lz4_frame::{is_bit_set, DecodeError, Feature, LzDecoder, Phase};

const MAGIC: [u8; 4] = [0x04, 0x22, 0x4D, 0x18];

/// Frame descriptor: version 01, independent blocks, no checksums, no content size.
fn header() -> Vec<u8> {
    let mut v = MAGIC.to_vec();
    v.extend_from_slice(&[0x60, 0x40, 0x82]);
    v
}

fn block(raw: bool, payload: &[u8]) -> Vec<u8> {
    let mut bh = payload.len() as u32;
    if raw {
        bh |= 0x8000_0000;
    }
    let mut v = bh.to_le_bytes().to_vec();
    v.extend_from_slice(payload);
    v
}

fn frame(blocks: &[Vec<u8>]) -> Vec<u8> {
    let mut v = header();
    for b in blocks {
        v.extend_from_slice(b);
    }
    v.extend_from_slice(&[0, 0, 0, 0]);
    v
}

fn decode(input: &[u8]) -> Result<Vec<u8>, DecodeError> {
    LzDecoder::new().decode(input)
}

fn s2_frame() -> Vec<u8> {
    frame(&[block(false, &[0x10, 0x41])])
}

#[test]
fn s1_empty_content() {
    let input = [0x04, 0x22, 0x4D, 0x18, 0x60, 0x40, 0x82, 0, 0, 0, 0];
    assert_eq!(decode(&input), Ok(vec![]));
}

#[test]
fn s1_descriptor_with_content_checksum_bit() {
    // FLG 0x64 sets bit 2, so four checksum bytes follow the end mark.
    let input = [
        0x04, 0x22, 0x4D, 0x18, 0x64, 0x40, 0x82, 0, 0, 0, 0, 0xde, 0xad, 0xbe, 0xef,
    ];
    assert_eq!(decode(&input), Ok(vec![]));
    let short = [0x04, 0x22, 0x4D, 0x18, 0x64, 0x40, 0x82, 0, 0, 0, 0];
    assert_eq!(decode(&short), Err(DecodeError::ReadIoError));
}

#[test]
fn s2_single_literal() {
    assert_eq!(decode(&s2_frame()), Ok(vec![0x41]));
}

#[test]
fn s3_run_of_ten() {
    let input = frame(&[block(false, &[0x15, 0x41, 0x01, 0x00, 0x00])]);
    assert_eq!(decode(&input), Ok(vec![0x41; 10]));
}

#[test]
fn s4_two_blocks_across_window() {
    let first: Vec<u8> = (0..70000u32).map(|i| (i * 7 % 251) as u8).collect();
    // No literals, offset 65535, match length 4 + 15 + 255 * 3 + 216 = 1000.
    let second = [0x0F, 0xFF, 0xFF, 0xFF, 0xFF, 0xFF, 0xD8, 0x00];
    let input = frame(&[block(true, &first), block(false, &second)]);
    let mut expected = first.clone();
    expected.extend_from_slice(&first[70000 - 65535..70000 - 65535 + 1000]);
    assert_eq!(decode(&input), Ok(expected));
}

#[test]
fn s5_literal_overrun() {
    let input = frame(&[block(false, &[0x50, 0x41, 0x42])]);
    assert_eq!(decode(&input), Err(DecodeError::CorruptedData));
}

#[test]
fn s6_trailing_garbage() {
    let mut input = s2_frame();
    input.push(0xFF);
    assert_eq!(decode(&input), Err(DecodeError::UnknownDataAtEnd));
}

#[test]
fn magic_rejected() {
    let mut input = s2_frame();
    input[0] = 0x05;
    assert_eq!(decode(&input), Err(DecodeError::WrongMagic));
    assert_eq!(decode(&[1, 2, 3, 4]), Err(DecodeError::WrongMagic));
    assert_eq!(decode(&[0x04, 0x22, 0x4D]), Err(DecodeError::ReadIoError));
}

#[test]
fn version_rejected() {
    for flg in [0x20u8, 0xA0, 0xE0] {
        let mut input = s2_frame();
        input[4] = flg;
        assert_eq!(decode(&input), Err(DecodeError::WrongVersion));
    }
}

#[test]
fn dict_id_rejected() {
    let mut input = s2_frame();
    input[4] = 0x61;
    let err = decode(&input);
    assert_eq!(err, Err(DecodeError::UnsupportedFeature(Feature::DictId)));
    assert_eq!(Feature::DictId.name(), "DictID");
}

#[test]
fn raw_block_identity() {
    let payload: Vec<u8> = (0..1000u32).map(|i| (i % 256) as u8).collect();
    assert_eq!(decode(&frame(&[block(true, &payload)])), Ok(payload));
    assert_eq!(decode(&frame(&[block(true, &[])])), Ok(vec![]));
}

#[test]
fn overlapping_match_run() {
    // Literal A, offset 1, match length 4 + 15 + 81 = 100.
    let input = frame(&[block(false, &[0x1F, 0x41, 0x01, 0x00, 0x51, 0x00])]);
    assert_eq!(decode(&input), Ok(vec![0x41; 101]));
}

#[test]
fn boundary_offset_matches_unwrapped_case() {
    // The same logical window, once with the ring cursor at a wrap point and once not.
    let window: Vec<u8> = (0..65535u32).map(|i| (i % 253) as u8).collect();
    let copy = [0x0F, 0xFF, 0xFF, 0x2D, 0x00]; // offset 65535, length 64
    let mut wrapped_first = vec![0xAAu8; 65536 - 65535 + 10];
    wrapped_first.extend_from_slice(&window);
    let a = decode(&frame(&[block(true, &wrapped_first), block(false, &copy)])).unwrap();
    let b = decode(&frame(&[block(true, &window), block(false, &copy)])).unwrap();
    assert_eq!(&a[wrapped_first.len()..], &b[window.len()..]);
    assert_eq!(&b[window.len()..], &window[..64]);
}

#[test]
fn zero_offset_rejected() {
    let input = frame(&[block(false, &[0x10, 0x41, 0x00, 0x00, 0x00])]);
    assert_eq!(decode(&input), Err(DecodeError::CorruptedData));
}

#[test]
fn truncation_never_succeeds() {
    let input = frame(&[block(false, &[0x15, 0x41, 0x01, 0x00, 0x00])]);
    for k in 0..input.len() {
        assert_eq!(decode(&input[..k]), Err(DecodeError::ReadIoError));
    }
}

#[test]
fn trailing_garbage_any_length() {
    for extra in [vec![0u8], vec![1, 2, 3, 4], vec![0; 9]] {
        let mut input = frame(&[block(true, b"abc")]);
        input.extend_from_slice(&extra);
        assert_eq!(decode(&input), Err(DecodeError::UnknownDataAtEnd));
    }
}

#[test]
fn block_size_cap() {
    let mut input = header();
    input.extend_from_slice(&0x0040_0000u32.to_le_bytes());
    assert_eq!(decode(&input), Err(DecodeError::InvalidBlockSize(4194304)));
    let mut raw = header();
    raw.extend_from_slice(&0xFFFF_FFFFu32.to_le_bytes());
    assert_eq!(decode(&raw), Err(DecodeError::InvalidBlockSize(0x7FFF_FFFF)));
}

#[test]
fn truncated_match_length_chain() {
    let input = frame(&[block(false, &[0x1F, 0x41, 0x01, 0x00, 0xFF])]);
    assert_eq!(decode(&input), Err(DecodeError::CorruptedData));
    let lone = frame(&[block(false, &[0x10, 0x41, 0x01])]);
    assert_eq!(decode(&lone), Err(DecodeError::CorruptedData));
    let match_without_end = frame(&[block(false, &[0x10, 0x41, 0x01, 0x00])]);
    assert_eq!(decode(&match_without_end), Err(DecodeError::CorruptedData));
}

#[test]
fn long_literal_length() {
    // Literal length 15 + 255 + 30 = 300.
    let lits: Vec<u8> = (0..300u32).map(|i| (i % 97) as u8).collect();
    let mut payload = vec![0xF0, 0xFF, 30];
    payload.extend_from_slice(&lits);
    assert_eq!(decode(&frame(&[block(false, &payload)])), Ok(lits));
}

#[test]
fn checksums_are_skipped() {
    // Block checksum (bit 4), content checksum (bit 2) and content size (bit 3).
    let mut input = MAGIC.to_vec();
    input.extend_from_slice(&[0x7C, 0x40]);
    input.extend_from_slice(&[1, 0, 0, 0, 0, 0, 0, 0]);
    input.push(0x11);
    input.extend_from_slice(&block(false, &[0x10, 0x41]));
    input.extend_from_slice(&[9, 9, 9, 9]);
    input.extend_from_slice(&[0, 0, 0, 0]);
    input.extend_from_slice(&[7, 7, 7, 7]);
    let mut dec = LzDecoder::new();
    assert_eq!(dec.decode(&input), Ok(vec![0x41]));
    let h = dec.header();
    assert!(h.block_checksum_flag && h.content_checksum_flag && h.content_size_flag);
    assert!(h.block_indep_flag && !h.dict_id_flag);
    assert_eq!(h.block_max_size, 4);
    assert_eq!(h.header_size, 15);
}

#[test]
fn streaming_feed() {
    let input = frame(&[block(true, b"hello "), block(false, &[0x35, b'w', b'o', b'r', 0x03, 0x00, 0x00])]);
    let mut dec = LzDecoder::new();
    let mut pos = 0;
    let mut out = Vec::new();
    while !dec.is_at_end() {
        let w = dec.wanted();
        dec.feed(&input[pos..pos + w]).unwrap();
        pos += w;
        out.extend(dec.take_output());
    }
    assert_eq!(pos, input.len());
    dec.feed(&[]).unwrap();
    assert!(dec.is_finished());
    assert_eq!(out, b"hello worworworwor".to_vec());
}

#[test]
fn decoder_is_reusable() {
    let mut dec = LzDecoder::new();
    assert_eq!(dec.decode(&s2_frame()), Ok(vec![0x41]));
    assert_eq!(dec.decode(&[0u8; 4]), Err(DecodeError::WrongMagic));
    assert_eq!(dec.decode(&s2_frame()), Ok(vec![0x41]));
    dec.start_frame();
    assert_eq!(dec.wanted(), 4);
    let _ = Phase::Magic;
}

#[test]
fn bit_test() {
    assert!(is_bit_set(0x64, 2));
    assert!(!is_bit_set(0x64, 3));
    assert!(is_bit_set(0x80, 7));
}
