use glz::compress::{compress_block, HEADROOM};
use glz::constants::{BLOCK_SIZE, DEPTH_STRIDE, GLZ_MIN_MATCH};
use glz::decompress::decode_sequences;
use glz::match_finder::HcMatchFinder;

fn finder() -> HcMatchFinder {
    HcMatchFinder::new(BLOCK_SIZE, DEPTH_STRIDE, GLZ_MIN_MATCH, 100)
}

fn compressed(src: &[u8]) -> Vec<u8> {
    let mut table = finder();
    let mut dest = vec![0u8; src.len() + HEADROOM];
    let n = compress_block(src, &mut dest, &mut table);
    dest.truncate(n);
    dest
}

fn decoded(payload: &[u8], room: usize) -> Vec<u8> {
    let mut out = vec![0u8; room];
    let n = decode_sequences(payload, payload.len(), &mut out).unwrap();
    out.truncate(n);
    out
}

fn noise(len: usize) -> Vec<u8> {
    let mut state = 0x2545_F491_4F6C_DD1Du64;
    let mut bytes = Vec::with_capacity(len);
    for _ in 0..len {
        state ^= state << 13;
        state ^= state >> 7;
        state ^= state << 17;
        bytes.push((state >> 32) as u8);
    }
    bytes
}

fn check_round_trip(src: &[u8]) -> usize {
    let payload = compressed(src);
    assert!(payload.len() <= src.len() + 5);
    assert_eq!(decoded(&payload, src.len()), src);
    assert_eq!(decoded(&payload, src.len() + 100), src);
    payload.len()
}

#[test]
fn empty_block_is_one_token() {
    let payload = compressed(b"");
    assert_eq!(payload, vec![0u8]);
    assert_eq!(decoded(&payload, 0), b"");
    assert_eq!(decoded(&payload, 32), b"");
}

#[test]
fn run_of_one_byte() {
    let src = vec![0x61u8; 1000];
    let payload = compressed(&src);
    // Five literals, then one match of 995 bytes four bytes back.
    assert_eq!(payload, vec![61, 97, 97, 97, 97, 97, 1, 217, 6, 0]);
    assert_eq!(decoded(&payload, 1000), src);
}

#[test]
fn repeated_four_bytes() {
    let src = b"abcdabcdabcdabcd";
    let payload = compressed(src);
    // Five literals, a match of eleven bytes at offset four, an empty tail.
    assert_eq!(payload, vec![61, b'a', b'b', b'c', b'd', b'a', 1, 1, 0]);
    assert_eq!(decoded(&payload, 16), src);
}

#[test]
fn short_blocks_are_literals_only() {
    for len in 0..=10usize {
        let src: Vec<u8> = (0..len as u8).collect();
        let payload = compressed(&src);
        let mut expected = Vec::new();
        if len >= 7 {
            expected.push(7);
            expected.push((len - 7) as u8);
        } else {
            expected.push(len as u8);
        }
        expected.extend_from_slice(&src);
        assert_eq!(payload, expected);
        assert_eq!(decoded(&payload, len), src);
    }
}

#[test]
fn sentence_with_repeats() {
    let src = b"hello world, hello world, hello world!";
    let payload = compressed(src);
    assert_eq!(
        payload,
        vec![
            127, 7, 104, 101, 108, 108, 111, 32, 119, 111, 114, 108, 100, 44, 32, 104, 3, 13, 1,
            33
        ]
    );
    assert_eq!(decoded(&payload, src.len()), src);
}

#[test]
fn quick_brown_fox_compresses_well() {
    let mut src = Vec::new();
    for _ in 0..1024 {
        src.extend_from_slice(b"The quick brown fox ");
    }
    let size = check_round_trip(&src);
    assert!(size * 100 <= src.len() * 5);
    assert_eq!(size, 28);
}

#[test]
fn noise_round_trips_and_hardly_shrinks() {
    let src = noise(65_536);
    let size = check_round_trip(&src);
    assert!(size * 100 >= src.len() * 98);
    assert!(size * 100 <= src.len() * 101);
}

#[test]
fn full_block_round_trips() {
    let mut src = noise(BLOCK_SIZE);
    for i in 0..src.len() {
        if (i / 512) % 3 != 0 {
            src[i] = (i % 97) as u8;
        }
    }
    let size = check_round_trip(&src);
    assert!(size < src.len());
}

#[test]
fn round_trip_of_many_shapes() {
    let base = noise(4096);
    for len in [11usize, 12, 17, 18, 19, 31, 32, 33, 63, 64, 65, 100, 255, 256, 1000, 4096] {
        check_round_trip(&base[..len]);
        let mut periodic = Vec::new();
        for i in 0..len {
            periodic.push(base[i % 7]);
        }
        check_round_trip(&periodic);
        let mut mixed = base[..len].to_vec();
        for i in len / 2..len {
            mixed[i] = mixed[i - len / 2];
        }
        check_round_trip(&mixed);
        check_round_trip(&vec![0u8; len]);
    }
}

#[test]
fn finder_is_reset_after_a_block() {
    let mut table = finder();
    let src = b"abcdabcdabcdabcdabcdabcdabcdabcd";
    let mut first = vec![0u8; src.len() + HEADROOM];
    let n = compress_block(src, &mut first, &mut table);
    let mut second = vec![0u8; src.len() + HEADROOM];
    let m = compress_block(src, &mut second, &mut table);
    assert_eq!(n, m);
    assert_eq!(&first[..n], &second[..m]);
}

#[test]
fn decoder_copies_overlapping_match() {
    // One literal 0xAB, then a match of 40 bytes one byte back.
    let payload = [0b01_111_001u8, 0xAB, 0, 30];
    let out = decoded(&payload, 41);
    assert_eq!(out, vec![0xABu8; 41]);
}

#[test]
fn decoder_repeats_a_period_of_three() {
    // Three literals, then a match of 70 bytes three bytes back.
    let payload = [0b11_111_011u8, b'x', b'y', b'z', 0, 60];
    let out = decoded(&payload, 73);
    assert_eq!(out.len(), 73);
    for i in 0..73 {
        assert_eq!(out[i], b"xyz"[i % 3]);
    }
}

#[test]
fn decoder_accepts_a_payload_that_ends_after_a_match() {
    let payload = [0b00_000_100u8, 1, 2, 3, 4, 1];
    assert_eq!(decoded(&payload, 7), vec![1, 2, 3, 4, 1, 2, 3]);
}

#[test]
fn decoder_copies_long_literals() {
    let mut payload = vec![7u8, 93];
    let literals: Vec<u8> = (0..100u8).collect();
    payload.extend_from_slice(&literals);
    assert_eq!(decoded(&payload, 100), literals);
}

#[test]
fn decoder_leaves_the_input_past_the_payload_alone() {
    let input = [3u8, b'a', b'b', b'c', 0xFF, 0xFF, 0xFF];
    let mut out = [0u8; 8];
    assert_eq!(decode_sequences(&input, 4, &mut out), Ok(3));
    assert_eq!(&out[..3], b"abc");
}

#[test]
fn zero_length_payload_decodes_to_nothing() {
    let input = [0x00u8, 0x00, 0x00, 0x00];
    let mut out = [0u8; 32];
    assert_eq!(decode_sequences(&input, 0, &mut out), Ok(0));
}

#[test]
fn skips_grow_after_many_misses() {
    // Noise, with forty bytes of it repeated at position 8193. After 8192
    // misses in a row the encoder moves by two positions, so it passes over
    // 8193 and finds the repeat one byte later.
    let mut src = noise(8300);
    for i in 0..40 {
        src[8193 + i] = src[100 + i];
    }
    let payload = compressed(&src);
    assert_eq!(payload.len(), 8269);
    assert_eq!(payload[0], 0b01_111_111);
    assert_eq!(glz::encode_mod::decode_encode_mod(&payload[1..]), Some((8194 - 7, 2)));
    assert_eq!(&payload[3..3 + 8194], &src[..8194]);
    let after = 3 + 8194;
    assert_eq!(glz::encode_mod::decode_encode_mod(&payload[after..]), Some((8093 >> 2, 2)));
    assert_eq!(glz::encode_mod::decode_encode_mod(&payload[after + 2..]), Some((39 - 10, 1)));
    assert_eq!(decoded(&payload, src.len()), src);
}

#[test]
fn match_with_a_long_header_is_passed_over() {
    // A match of three bytes far back, after many literals, would take a
    // header of more than three bytes.
    let mut src = noise(3000);
    src[2900] = src[10];
    src[2901] = src[11];
    src[2902] = src[12];
    let payload = compressed(&src);
    assert!(payload.len() <= src.len() + 5);
    assert_eq!(decoded(&payload, src.len()), src);
}
