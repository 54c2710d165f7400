use glz::decompress::decode_sequences;
use glz::format::CorruptPayload;

fn decode(payload: &[u8], room: usize) -> Result<usize, CorruptPayload> {
    let mut out = vec![0u8; room];
    decode_sequences(payload, payload.len(), &mut out)
}

#[test]
fn payload_longer_than_input_is_a_size_mismatch() {
    let mut out = [0u8; 16];
    assert_eq!(decode_sequences(&[0u8; 4], 5, &mut out), Err(CorruptPayload::SizeMismatch));
    assert_eq!(decode_sequences(&[], 1, &mut out), Err(CorruptPayload::SizeMismatch));
}

#[test]
fn literals_past_the_end_are_truncated() {
    assert_eq!(decode(&[3, b'a', b'b'], 16), Err(CorruptPayload::Truncated));
    assert_eq!(decode(&[1], 16), Err(CorruptPayload::Truncated));
}

#[test]
fn literal_length_without_an_end_is_truncated() {
    assert_eq!(decode(&[7], 16), Err(CorruptPayload::Truncated));
    assert_eq!(decode(&[7, 0x80], 16), Err(CorruptPayload::Truncated));
    assert_eq!(decode(&[7, 0xFF, 0xFF, 0xFF], 16), Err(CorruptPayload::Truncated));
}

#[test]
fn huge_literal_length_is_truncated() {
    let mut payload = vec![7u8];
    payload.extend_from_slice(&[0xFF; 40]);
    payload.push(0x7F);
    assert_eq!(decode(&payload, 16), Err(CorruptPayload::Truncated));
}

#[test]
fn offset_without_an_end_is_truncated() {
    assert_eq!(decode(&[1, b'a', 0x80], 16), Err(CorruptPayload::Truncated));
}

#[test]
fn match_length_without_an_end_is_truncated() {
    assert_eq!(decode(&[0b01_111_001, b'a', 0], 64), Err(CorruptPayload::Truncated));
    assert_eq!(decode(&[0b01_111_001, b'a', 0, 0x80], 64), Err(CorruptPayload::Truncated));
}

#[test]
fn every_cut_of_a_payload_is_rejected_or_shorter() {
    let payload = [
        127u8, 7, 104, 101, 108, 108, 111, 32, 119, 111, 114, 108, 100, 44, 32, 104, 3, 13, 1, 33,
    ];
    let whole = b"hello world, hello world, hello world!";
    for cut in 0..payload.len() {
        let mut out = [0u8; 64];
        match decode_sequences(&payload, cut, &mut out) {
            Ok(n) => {
                assert!(n < whole.len());
                assert_eq!(&out[..n], &whole[..n]);
            }
            Err(e) => assert_eq!(e, CorruptPayload::Truncated),
        }
    }
}

#[test]
fn offset_before_the_start_overflows() {
    assert_eq!(decode(&[0b10_000_001, b'a', 0], 16), Err(CorruptPayload::OffsetOverflow));
    assert_eq!(decode(&[0b00_000_001, b'a', 1], 16), Err(CorruptPayload::OffsetOverflow));
    assert_eq!(decode(&[0b01_000_000, 0], 16), Err(CorruptPayload::OffsetOverflow));
}

#[test]
fn huge_offset_overflows() {
    let mut payload = vec![0b00_000_001u8, b'a'];
    payload.extend_from_slice(&[0xFF; 40]);
    payload.push(0x7F);
    assert_eq!(decode(&payload, 16), Err(CorruptPayload::OffsetOverflow));
}

#[test]
fn offset_zero_overflows() {
    assert_eq!(decode(&[0b00_000_001, b'a', 0], 16), Err(CorruptPayload::OffsetOverflow));
}

#[test]
fn offset_is_checked_before_the_match_length() {
    assert_eq!(decode(&[0b00_111_001, b'a', 0], 64), Err(CorruptPayload::OffsetOverflow));
}

#[test]
fn literals_that_do_not_fit_overflow_the_output() {
    assert_eq!(decode(&[3, b'a', b'b', b'c'], 2), Err(CorruptPayload::OutputOverflow));
    assert_eq!(decode(&[3, b'a', b'b', b'c'], 3), Ok(3));
}

#[test]
fn match_that_does_not_fit_overflows_the_output() {
    let payload = [0b01_111_001u8, 0xAB, 0, 30];
    assert_eq!(decode(&payload, 40), Err(CorruptPayload::OutputOverflow));
    assert_eq!(decode(&payload, 41), Ok(41));
    let short = [0b01_000_001u8, 0xAB, 0];
    assert_eq!(decode(&short, 3), Err(CorruptPayload::OutputOverflow));
    assert_eq!(decode(&short, 4), Ok(4));
}

#[test]
fn huge_match_length_overflows_the_output() {
    let mut payload = vec![0b01_111_001u8, 0xAB, 0];
    payload.extend_from_slice(&[0xFF; 40]);
    payload.push(0x7F);
    assert_eq!(decode(&payload, 4096), Err(CorruptPayload::OutputOverflow));
}

#[test]
fn truncation_comes_before_output_overflow() {
    assert_eq!(decode(&[5, b'a', b'b'], 1), Err(CorruptPayload::Truncated));
}

#[test]
fn bytes_of_all_kinds_never_panic() {
    let mut state = 0x9E37_79B9_7F4A_7C15u64;
    for round in 0..2000 {
        let len = round % 40;
        let mut payload = Vec::new();
        for _ in 0..len {
            state ^= state << 13;
            state ^= state >> 7;
            state ^= state << 17;
            payload.push((state >> 24) as u8);
        }
        let mut out = [0u8; 256];
        match decode_sequences(&payload, payload.len(), &mut out) {
            Ok(n) => assert!(n <= 256),
            Err(_) => {}
        }
    }
}
