use glz::sequence::{compress_sequence, header_size, read_token, write_token, EncodeSequence};

fn sequence(start: usize, ll: usize, ml: usize, ol: usize) -> EncodeSequence {
    EncodeSequence { start, ll, ml, ol, cost: 0 }
}

#[test]
fn default_sequence_is_zero() {
    let seq = EncodeSequence::default();
    assert_eq!((seq.start, seq.ll, seq.ml, seq.ol, seq.cost), (0, 0, 0, 0, 0));
}

#[test]
fn token_exact_values() {
    assert_eq!(write_token(&sequence(0, 0, 3, 0)), 0);
    assert_eq!(write_token(&sequence(0, 5, 11, 4)), 61);
    assert_eq!(write_token(&sequence(0, 7, 10, 3)), 0b11_111_111);
    assert_eq!(write_token(&sequence(0, 1, 4, 6)), 0b10_001_001);
    assert_eq!(write_token(&sequence(9, 1000, 1000, 1001)), 0b01_111_111);
}

#[test]
fn token_round_trip_of_all_small_fields() {
    for ll in 0..20usize {
        for ml in 3..20usize {
            for ol in 0..12usize {
                let token = write_token(&sequence(0, ll, ml, ol));
                let fields = read_token(token);
                assert_eq!(fields, (ll.min(7), (ml - 3).min(7), ol & 3));
            }
        }
    }
}

#[test]
fn read_token_of_every_byte() {
    for byte in 0..=255u8 {
        let (ll, ml, ol) = read_token(byte);
        assert_eq!(ll, (byte & 7) as usize);
        assert_eq!(ml, ((byte >> 3) & 7) as usize);
        assert_eq!(ol, (byte >> 6) as usize);
    }
}

#[test]
fn header_size_exact_values() {
    assert_eq!(header_size(&sequence(0, 0, 3, 4)), 2);
    assert_eq!(header_size(&sequence(0, 7, 3, 4)), 3);
    assert_eq!(header_size(&sequence(0, 6, 10, 4)), 3);
    assert_eq!(header_size(&sequence(0, 135, 138, 512)), 7);
    assert_eq!(header_size(&sequence(0, 5, 995, 4)), 4);
}

#[test]
fn sequence_bytes_with_short_fields() {
    let src = b"0123456789";
    let mut dest = [0xEEu8; 16];
    let mut position = 2usize;
    compress_sequence::<false>(src, &mut dest, &mut position, &sequence(1, 3, 4, 9));
    assert_eq!(position, 7);
    assert_eq!(
        dest,
        [
            0xEE, 0xEE, 0b01_001_011, b'1', b'2', b'3', 2, 0xEE, 0xEE, 0xEE, 0xEE, 0xEE, 0xEE, 0xEE,
            0xEE, 0xEE
        ]
    );
}

#[test]
fn sequence_bytes_with_extensions() {
    let src: Vec<u8> = (0..200u8).collect();
    let mut dest = [0u8; 64];
    let mut position = 0usize;
    compress_sequence::<false>(&src, &mut dest, &mut position, &sequence(10, 9, 150, 1027));
    let mut expected = vec![0b11_111_111u8, 2];
    expected.extend_from_slice(&src[10..19]);
    expected.extend_from_slice(&[128, 1]);
    expected.extend_from_slice(&[140, 0]);
    assert_eq!(position, expected.len());
    assert_eq!(&dest[..position], &expected[..]);
}

#[test]
fn last_sequence_has_no_offset_and_no_match() {
    let src = b"abcdefghij";
    let mut dest = [0xEEu8; 16];
    let mut position = 0usize;
    compress_sequence::<true>(src, &mut dest, &mut position, &sequence(2, 8, 3, 0));
    assert_eq!(position, 10);
    assert_eq!(&dest[..10], &[7, 1, b'c', b'd', b'e', b'f', b'g', b'h', b'i', b'j']);
    assert_eq!(&dest[10..], &[0xEE; 6]);
}
