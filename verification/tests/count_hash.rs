use glz::utils::{cache_table_inner_hash, count, count_fallback, count_sse, hash_chains_hash};

fn plain_count(a: &[u8], b: &[u8]) -> usize {
    let mut n = 0;
    while n < a.len() && n < b.len() && a[n] == b[n] {
        n += 1;
    }
    n
}

#[test]
fn count_exact_values() {
    assert_eq!(count(b"", b""), 0);
    assert_eq!(count(b"abc", b""), 0);
    assert_eq!(count(b"abc", b"abd"), 2);
    assert_eq!(count(b"abc", b"abcdef"), 3);
    assert_eq!(count(b"xbc", b"abc"), 0);
    assert_eq!(count(b"0123456789abcdefXYZ", b"0123456789abcdefXYW"), 18);
    assert_eq!(count(b"0123456789abcdef", b"0123456789abcdef"), 16);
    assert_eq!(count(b"01234567", b"0123456x"), 7);
    assert_eq!(count(b"0123456789", b"01234567x9"), 8);
}

#[test]
fn count_finds_the_first_difference_at_every_place() {
    let base: Vec<u8> = (0..80u8).collect();
    for len in 0..base.len() {
        for at in 0..len {
            let mut other = base[..len].to_vec();
            other[at] ^= 0x80;
            assert_eq!(count(&base[..len], &other), at);
            assert_eq!(count_fallback(&base[..len], &other), at);
            assert_eq!(count_sse(&base[..len], &other), at);
            other[at] ^= 0x81;
            assert_eq!(count(&other, &base), at);
        }
        assert_eq!(count(&base[..len], &base), len);
        assert_eq!(count_fallback(&base, &base[..len]), len);
        assert_eq!(count_sse(&base[..len], &base), len);
    }
}

#[test]
fn count_variants_agree() {
    let mut state = 0x1234_5678_9ABC_DEF1u64;
    for _ in 0..500 {
        let mut a = Vec::new();
        let mut b = Vec::new();
        for _ in 0..48 {
            state ^= state << 13;
            state ^= state >> 7;
            state ^= state << 17;
            a.push((state >> 60) as u8);
            b.push((state >> 50) as u8 & 0x0F);
        }
        let expected = plain_count(&a, &b);
        assert_eq!(count(&a, &b), expected);
        assert_eq!(count_fallback(&a, &b), expected);
        assert_eq!(count_sse(&a, &b), expected);
    }
}

#[test]
fn hash_exact_values() {
    assert_eq!(hash_chains_hash(b"abcdefgh", 0, 4, 17), 50_776);
    assert_eq!(hash_chains_hash(b"abceefgh", 0, 4, 17), 14_405);
    assert_eq!(hash_chains_hash(&[0u8; 8], 0, 4, 17), 0);
    assert_eq!(hash_chains_hash(b"abcdefgh", 0, 8, 32), 2_365_943_137);
    assert_eq!(hash_chains_hash(b"..abcdefgh..", 2, 4, 17), 50_776);
}

#[test]
fn hash_inner_matches_outer() {
    assert_eq!(cache_table_inner_hash(*b"abcdefgh", 32, 17), 50_776);
    assert_eq!(cache_table_inner_hash(*b"abcdefgh", 0, 32), 2_365_943_137);
}

#[test]
fn hash_looks_at_the_prefix_only() {
    assert_eq!(hash_chains_hash(b"abcd~~~~", 0, 4, 17), hash_chains_hash(b"abcdefgh", 0, 4, 17));
    assert_eq!(hash_chains_hash(b"abc~~~~~", 0, 3, 15), hash_chains_hash(b"abcdefgh", 0, 3, 15));
    assert_ne!(hash_chains_hash(b"abcde~~~", 0, 5, 17), hash_chains_hash(b"abcdefgh", 0, 4, 17));
}

#[test]
fn hash_stays_below_two_to_the_log() {
    let data: Vec<u8> = (0..255u8).map(|b| b.wrapping_mul(37).wrapping_add(11)).collect();
    for log in 1..=32usize {
        for pos in 0..data.len() - 8 {
            let bucket = hash_chains_hash(&data, pos, 4, log) as u64;
            assert!(bucket < (1u64 << log));
        }
    }
}
