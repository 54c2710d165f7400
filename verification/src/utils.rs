//! The prefix-match primitive and the rolling hash.

use vstd::arithmetic::power2::{lemma_pow2_pos, pow2};
use vstd::prelude::*;
use vstd::std_specs::bits::axiom_u64_trailing_zeros;

verus! {

/// The little-endian 64-bit word that the first eight bytes of `bytes` form.
pub open spec fn le_word(bytes: Seq<u8>) -> u64 {
    (bytes[0] as u64) | (bytes[1] as u64) << 8 | (bytes[2] as u64) << 16 | (bytes[3] as u64) << 24
        | (bytes[4] as u64) << 32 | (bytes[5] as u64) << 40 | (bytes[6] as u64) << 48 | (
    bytes[7] as u64) << 56
}

/// Byte `i` of `word`, counted from the least significant.
pub open spec fn word_byte(word: u64, i: u64) -> u8 {
    ((word >> (8 * i) as u64) & 0xff) as u8
}

/// The bytes of a word are the bytes it was formed from.
proof fn lemma_le_word_bytes(bytes: Seq<u8>)
    ensures
        forall|i: u64| 0 <= i < 8 ==> #[trigger] word_byte(le_word(bytes), i) == bytes[i as int],
{
    let b0 = bytes[0];
    let b1 = bytes[1];
    let b2 = bytes[2];
    let b3 = bytes[3];
    let b4 = bytes[4];
    let b5 = bytes[5];
    let b6 = bytes[6];
    let b7 = bytes[7];
    let w = (b0 as u64) | (b1 as u64) << 8 | (b2 as u64) << 16 | (b3 as u64) << 24 | (b4 as u64)
        << 32 | (b5 as u64) << 40 | (b6 as u64) << 48 | (b7 as u64) << 56;
    assert(((w >> 0) & 0xff) as u8 == b0 && ((w >> 8) & 0xff) as u8 == b1 && ((w >> 16) & 0xff) as u8
        == b2 && ((w >> 24) & 0xff) as u8 == b3 && ((w >> 32) & 0xff) as u8 == b4 && ((w >> 40)
        & 0xff) as u8 == b5 && ((w >> 48) & 0xff) as u8 == b6 && ((w >> 56) & 0xff) as u8 == b7)
        by (bit_vector)
        requires
            w == (b0 as u64) | (b1 as u64) << 8 | (b2 as u64) << 16 | (b3 as u64) << 24 | (
            b4 as u64) << 32 | (b5 as u64) << 40 | (b6 as u64) << 48 | (b7 as u64) << 56,
    ;
    assert forall|i: u64| 0 <= i < 8 implies #[trigger] word_byte(le_word(bytes), i)
        == bytes[i as int] by {
        assert(i == 0 || i == 1 || i == 2 || i == 3 || i == 4 || i == 5 || i == 6 || i == 7);
    }
}

/// Loads the eight bytes at `bytes[pos..pos + 8]` as a little-endian word.
fn load_word(bytes: &[u8], pos: usize) -> (word: u64)
    requires
        pos + 8 <= bytes.len(),
    ensures
        word == le_word(bytes@.subrange(pos as int, pos + 8)),
{
    (bytes[pos] as u64) | (bytes[pos + 1] as u64) << 8 | (bytes[pos + 2] as u64) << 16 | (bytes[pos
        + 3] as u64) << 24 | (bytes[pos + 4] as u64) << 32 | (bytes[pos + 5] as u64) << 40 | (
    bytes[pos + 6] as u64) << 48 | (bytes[pos + 7] as u64) << 56
}

/// The number of leading positions, from `i` on, at which `a` and `b` hold
/// the same byte.
pub open spec fn common_prefix_from(a: Seq<u8>, b: Seq<u8>, i: nat) -> nat
    decreases a.len() - i,
{
    if i < a.len() && i < b.len() && a[i as int] == b[i as int] {
        common_prefix_from(a, b, i + 1)
    } else {
        i
    }
}

/// The length of the longest common prefix of `a` and `b`.
pub open spec fn common_prefix_len(a: Seq<u8>, b: Seq<u8>) -> nat {
    common_prefix_from(a, b, 0)
}

/// Where `a` and `b` agree from `i` up to `k`, and end or differ at `k`, the
/// common prefix counted from `i` ends at `k`.
pub proof fn lemma_common_prefix_ends(a: Seq<u8>, b: Seq<u8>, i: nat, k: nat)
    requires
        i <= k <= a.len(),
        k <= b.len(),
        forall|j: int| i <= j < k ==> a[j] == b[j],
        k == a.len() || k == b.len() || a[k as int] != b[k as int],
    ensures
        common_prefix_from(a, b, i) == k,
    decreases k - i,
{
    if i < k {
        lemma_common_prefix_ends(a, b, i + 1, k);
    }
}

/// Count correctness: the common prefix length `k` of `a` and `b` is the
/// length of their longest common prefix. Their first `k` bytes are the same,
/// and no longer prefix of `a` is one of `b`.
pub proof fn lemma_common_prefix_longest(a: Seq<u8>, b: Seq<u8>)
    ensures
        common_prefix_len(a, b) <= a.len(),
        common_prefix_len(a, b) <= b.len(),
        a.subrange(0, common_prefix_len(a, b) as int) == b.subrange(
            0,
            common_prefix_len(a, b) as int,
        ),
        forall|n: int|
            common_prefix_len(a, b) < n <= a.len() && n <= b.len() ==> a.subrange(0, n)
                != b.subrange(0, n),
{
    lemma_common_prefix_from(a, b, 0);
    let k = common_prefix_len(a, b) as int;
    assert(a.subrange(0, k) =~= b.subrange(0, k));
    assert forall|n: int| k < n <= a.len() && n <= b.len() implies a.subrange(0, n) != b.subrange(
        0,
        n,
    ) by {
        assert(a.subrange(0, n)[k] == a[k]);
        assert(b.subrange(0, n)[k] == b[k]);
    }
}

/// The common prefix counted from `i` ends within both sequences, at a
/// position where they end or differ, and they agree from `i` up to it.
pub proof fn lemma_common_prefix_from(a: Seq<u8>, b: Seq<u8>, i: nat)
    requires
        i <= a.len(),
        i <= b.len(),
    ensures
        i <= common_prefix_from(a, b, i) <= a.len(),
        common_prefix_from(a, b, i) <= b.len(),
        forall|j: int| i <= j < common_prefix_from(a, b, i) ==> a[j] == b[j],
        ({
            let k = common_prefix_from(a, b, i) as int;
            k == a.len() || k == b.len() || a[k] != b[k]
        }),
    decreases a.len() - i,
{
    if i < a.len() && i < b.len() && a[i as int] == b[i as int] {
        lemma_common_prefix_from(a, b, i + 1);
    }
}

/// Two words whose exclusive-or has `zeros` trailing zero bits have the same
/// `zeros / 8` low bytes, and differ in the byte after them.
proof fn lemma_first_difference(x: u64, y: u64, zeros: u64)
    requires
        zeros < 64,
        ((x ^ y) >> zeros) & 1 == 1,
        (x ^ y) << ((64 - zeros) as u64) == 0 || zeros == 0,
    ensures
        word_byte(x, zeros / 8) != word_byte(y, zeros / 8),
        forall|i: u64| 0 <= i < zeros / 8 ==> #[trigger] word_byte(x, i) == word_byte(y, i),
{
    let at = zeros / 8;
    assert(((x >> (8 * at) as u64) & 0xff) as u8 != ((y >> (8 * at) as u64) & 0xff) as u8)
        by (bit_vector)
        requires
            zeros < 64,
            at == zeros / 8,
            ((x ^ y) >> zeros) & 1 == 1,
    ;
    assert forall|i: u64| 0 <= i < zeros / 8 implies #[trigger] word_byte(x, i) == word_byte(
        y,
        i,
    ) by {
        assert(((x >> (8 * i) as u64) & 0xff) as u8 == ((y >> (8 * i) as u64) & 0xff) as u8)
            by (bit_vector)
            requires
                0 < zeros < 64,
                i < zeros / 8,
                (x ^ y) << ((64 - zeros) as u64) == 0,
        ;
    }
}

/// The number of low bytes that two different words have in common: an
/// eighth of the number of trailing zero bits of their exclusive-or.
fn equal_low_bytes(x: u64, y: u64) -> (n: usize)
    requires
        x != y,
    ensures
        n < 8,
        word_byte(x, n as u64) != word_byte(y, n as u64),
        forall|i: u64| 0 <= i < n ==> #[trigger] word_byte(x, i) == word_byte(y, i),
{
    let diff = x ^ y;
    assert(diff != 0) by (bit_vector)
        requires
            diff == x ^ y,
            x != y,
    ;
    let zeros = diff.trailing_zeros();
    proof {
        axiom_u64_trailing_zeros(diff);
        lemma_first_difference(x, y, zeros as u64);
        assert(zeros >> 3 == zeros / 8) by (bit_vector);
    }
    (zeros >> 3) as usize
}

/// Where the words at `at` of `a` and of `b` have their first `n` bytes in
/// common, and no more or all eight, `a` and `b` agree from `at` up to
/// `at + n`, and differ there unless `n` is eight.
proof fn lemma_words_agree(a: Seq<u8>, b: Seq<u8>, at: int, n: int)
    requires
        0 <= at,
        at + 8 <= a.len(),
        at + 8 <= b.len(),
        0 <= n <= 8,
        forall|i: u64|
            0 <= i < n ==> #[trigger] word_byte(le_word(a.subrange(at, at + 8)), i) == word_byte(
                le_word(b.subrange(at, at + 8)),
                i,
            ),
        n < 8 ==> word_byte(le_word(a.subrange(at, at + 8)), n as u64) != word_byte(
            le_word(b.subrange(at, at + 8)),
            n as u64,
        ),
    ensures
        forall|j: int| at <= j < at + n ==> a[j] == b[j],
        n < 8 ==> a[at + n] != b[at + n],
{
    let wa = a.subrange(at, at + 8);
    let wb = b.subrange(at, at + 8);
    lemma_le_word_bytes(wa);
    lemma_le_word_bytes(wb);
    assert forall|j: int| at <= j < at + n implies a[j] == b[j] by {
        let i = (j - at) as u64;
        assert(word_byte(le_word(wa), i) == wa[i as int]);
        assert(word_byte(le_word(wb), i) == wb[i as int]);
    }
    if n < 8 {
        let i = n as u64;
        assert(word_byte(le_word(wa), i) == wa[i as int]);
        assert(word_byte(le_word(wb), i) == wb[i as int]);
    }
}

/// The length of the common prefix of `window` and `match_window` that
/// starts with their first `from` bytes, which are the same, found one byte
/// at a time.
fn count_bytes(window: &[u8], match_window: &[u8], from: usize) -> (k: usize)
    requires
        from <= window.len(),
        from <= match_window.len(),
        forall|j: int| 0 <= j < from ==> window@[j] == match_window@[j],
    ensures
        k == common_prefix_len(window@, match_window@),
{
    let mut match_length: usize = from;
    while match_length < window.len() && match_length < match_window.len()
        invariant
            match_length <= window.len(),
            match_length <= match_window.len(),
            forall|j: int| 0 <= j < match_length ==> window@[j] == match_window@[j],
        decreases window.len() - match_length,
    {
        if window[match_length] != match_window[match_length] {
            proof {
                lemma_common_prefix_ends(window@, match_window@, 0, match_length as nat);
            }
            return match_length;
        }
        match_length += 1;
    }
    proof {
        lemma_common_prefix_ends(window@, match_window@, 0, match_length as nat);
    }
    match_length
}

/// The length of the longest common prefix of `window` and `match_window`,
/// found sixteen bytes at a time: two words of each are compared, and the
/// first pair that differs gives the number of equal bytes.
pub fn count_sse(window: &[u8], match_window: &[u8]) -> (k: usize)
    ensures
        k == common_prefix_len(window@, match_window@),
{
    let limit = if window.len() < match_window.len() {
        window.len()
    } else {
        match_window.len()
    };
    let mut match_length: usize = 0;
    while limit - match_length >= 16
        invariant
            match_length <= limit,
            limit <= window.len(),
            limit <= match_window.len(),
            forall|j: int| 0 <= j < match_length ==> window@[j] == match_window@[j],
        decreases limit - match_length,
    {
        let low_w = load_word(window, match_length);
        let low_m = load_word(match_window, match_length);
        if low_w != low_m {
            let equal = equal_low_bytes(low_w, low_m);
            proof {
                lemma_words_agree(window@, match_window@, match_length as int, equal as int);
                lemma_common_prefix_ends(
                    window@,
                    match_window@,
                    0,
                    (match_length + equal) as nat,
                );
            }
            return match_length + equal;
        }
        proof {
            lemma_words_agree(window@, match_window@, match_length as int, 8);
        }
        let high_w = load_word(window, match_length + 8);
        let high_m = load_word(match_window, match_length + 8);
        if high_w != high_m {
            let equal = equal_low_bytes(high_w, high_m);
            proof {
                lemma_words_agree(window@, match_window@, match_length + 8, equal as int);
                lemma_common_prefix_ends(
                    window@,
                    match_window@,
                    0,
                    (match_length + 8 + equal) as nat,
                );
            }
            return match_length + 8 + equal;
        }
        proof {
            lemma_words_agree(window@, match_window@, match_length + 8, 8);
        }
        match_length += 16;
    }
    count_bytes(window, match_window, match_length)
}

/// The length of the longest common prefix of `window` and `match_window`,
/// found eight bytes at a time: the exclusive-or of two words is zero where
/// they are equal, and has eight trailing zero bits for each equal low byte
/// where they are not.
pub fn count_fallback(window: &[u8], match_window: &[u8]) -> (k: usize)
    ensures
        k == common_prefix_len(window@, match_window@),
{
    let limit = if window.len() < match_window.len() {
        window.len()
    } else {
        match_window.len()
    };
    let mut match_length: usize = 0;
    while limit - match_length >= 8
        invariant
            match_length <= limit,
            limit <= window.len(),
            limit <= match_window.len(),
            forall|j: int| 0 <= j < match_length ==> window@[j] == match_window@[j],
        decreases limit - match_length,
    {
        let sm_w = load_word(window, match_length);
        let sm_m = load_word(match_window, match_length);
        if sm_w != sm_m {
            let equal = equal_low_bytes(sm_w, sm_m);
            proof {
                lemma_words_agree(window@, match_window@, match_length as int, equal as int);
                lemma_common_prefix_ends(
                    window@,
                    match_window@,
                    0,
                    (match_length + equal) as nat,
                );
            }
            return match_length + equal;
        }
        proof {
            lemma_words_agree(window@, match_window@, match_length as int, 8);
        }
        match_length += 8;
    }
    count_bytes(window, match_window, match_length)
}

/// The length of the longest common prefix of `window` and `match_window`.
pub fn count(window: &[u8], match_window: &[u8]) -> (k: usize)
    ensures
        k == common_prefix_len(window@, match_window@),
{
    count_fallback(window, match_window)
}

/// The hash of `word`: the word is shifted left by `shift_by` bits, mixed
/// with its own high bits, multiplied by a constant, and its top
/// `shift_down_by` bits are kept.
pub open spec fn hashed(word: u64, shift_by: u64, shift_down_by: u64) -> u64 {
    let h = word << shift_by;
    let h = h ^ (h >> 33);
    let h = h.wrapping_mul(0xFF51_AFD7_ED55_8CCD);
    h >> ((64 - shift_down_by) as u64)
}

/// The bucket, out of two to the power of `log`, of the `len` bytes at
/// `bytes[pos..]`.
pub open spec fn bucket(bytes: Seq<u8>, pos: int, len: nat, log: nat) -> nat {
    hashed(le_word(bytes.subrange(pos, pos + 8)), ((8 - len) * 8) as u64, log as u64) as nat
}

/// A hash of `log` bits is below two to the power of `log`.
proof fn lemma_hashed_range(word: u64, shift_by: u64, log: u64)
    requires
        1 <= log <= 32,
    ensures
        hashed(word, shift_by, log) <= 0xFFFF_FFFF,
        hashed(word, shift_by, log) < pow2(log as nat),
{
    let h = word << shift_by;
    let h = h ^ (h >> 33);
    let h = h.wrapping_mul(0xFF51_AFD7_ED55_8CCD);
    let r = h >> ((64 - log) as u64);
    assert(r <= 0xFFFF_FFFF && r >> log == 0) by (bit_vector)
        requires
            1 <= log <= 32,
            r == h >> ((64 - log) as u64),
    ;
    vstd::bits::lemma_u64_shr_is_div(r, log);
    lemma_pow2_pos(log as nat);
    let p = pow2(log as nat) as int;
    assert(r < p) by (nonlinear_arith)
        requires
            r as int / p == 0,
            p > 0,
            r >= 0,
    ;
}

/// A bucket is below two to the power of the number of its bits.
pub proof fn lemma_bucket_range(bytes: Seq<u8>, pos: int, len: nat, log: nat)
    requires
        1 <= log <= 32,
    ensures
        bucket(bytes, pos, len, log) < pow2(log),
{
    lemma_hashed_range(le_word(bytes.subrange(pos, pos + 8)), ((8 - len) * 8) as u64, log as u64);
}

/// Two positions that hold the same `len` bytes have the same bucket.
pub proof fn lemma_bucket_of_prefix(
    a: Seq<u8>,
    at_a: int,
    b: Seq<u8>,
    at_b: int,
    len: nat,
    log: nat,
)
    requires
        1 <= len <= 8,
        0 <= at_a,
        at_a + 8 <= a.len(),
        0 <= at_b,
        at_b + 8 <= b.len(),
        a.subrange(at_a, at_a + len) == b.subrange(at_b, at_b + len),
    ensures
        bucket(a, at_a, len, log) == bucket(b, at_b, len, log),
{
    let wa = a.subrange(at_a, at_a + 8);
    let wb = b.subrange(at_b, at_b + 8);
    let x = le_word(wa);
    let y = le_word(wb);
    lemma_le_word_bytes(wa);
    lemma_le_word_bytes(wb);
    assert forall|i: u64| 0 <= i < len implies word_byte(x, i) == word_byte(y, i) by {
        assert(wa[i as int] == a.subrange(at_a, at_a + len)[i as int]);
        assert(wb[i as int] == b.subrange(at_b, at_b + len)[i as int]);
    }
    let n = len as u64;
    let shift = ((8 - len) * 8) as u64;
    assert(word_byte(x, 0) == word_byte(y, 0));
    assert(n > 1 ==> word_byte(x, 1) == word_byte(y, 1));
    assert(n > 2 ==> word_byte(x, 2) == word_byte(y, 2));
    assert(n > 3 ==> word_byte(x, 3) == word_byte(y, 3));
    assert(n > 4 ==> word_byte(x, 4) == word_byte(y, 4));
    assert(n > 5 ==> word_byte(x, 5) == word_byte(y, 5));
    assert(n > 6 ==> word_byte(x, 6) == word_byte(y, 6));
    assert(n > 7 ==> word_byte(x, 7) == word_byte(y, 7));
    assert(x << shift == y << shift) by (bit_vector)
        requires
            1 <= n <= 8,
            shift == (8 - n) * 8,
            ((x >> 0) & 0xff) as u8 == ((y >> 0) & 0xff) as u8,
            n > 1 ==> ((x >> 8) & 0xff) as u8 == ((y >> 8) & 0xff) as u8,
            n > 2 ==> ((x >> 16) & 0xff) as u8 == ((y >> 16) & 0xff) as u8,
            n > 3 ==> ((x >> 24) & 0xff) as u8 == ((y >> 24) & 0xff) as u8,
            n > 4 ==> ((x >> 32) & 0xff) as u8 == ((y >> 32) & 0xff) as u8,
            n > 5 ==> ((x >> 40) & 0xff) as u8 == ((y >> 40) & 0xff) as u8,
            n > 6 ==> ((x >> 48) & 0xff) as u8 == ((y >> 48) & 0xff) as u8,
            n > 7 ==> ((x >> 56) & 0xff) as u8 == ((y >> 56) & 0xff) as u8,
    ;
}

/// Hashes the little-endian word of `bytes`: shifts it left by `shift_by`
/// bits and keeps `shift_down_by` bits of the mixed product.
pub fn cache_table_inner_hash(bytes: [u8; 8], shift_by: usize, shift_down_by: usize) -> (hash: u32)
    requires
        shift_by < 64,
        1 <= shift_down_by <= 32,
    ensures
        hash == hashed(le_word(bytes@), shift_by as u64, shift_down_by as u64),
        hash < pow2(shift_down_by as nat),
{
    let word = (bytes[0] as u64) | (bytes[1] as u64) << 8 | (bytes[2] as u64) << 16 | (
    bytes[3] as u64) << 24 | (bytes[4] as u64) << 32 | (bytes[5] as u64) << 40 | (bytes[6] as u64)
        << 48 | (bytes[7] as u64) << 56;
    let mut h = word << shift_by;
    h ^= h >> 33;
    h = h.wrapping_mul(0xFF51_AFD7_ED55_8CCD);
    proof {
        lemma_hashed_range(word, shift_by as u64, shift_down_by as u64);
    }
    (h >> (64 - shift_down_by)) as u32
}

/// The bucket, out of two to the power of `hash_log`, of the `hash_length`
/// bytes at `bytes[window_pos..]`. Eight bytes are read there.
pub fn hash_chains_hash(bytes: &[u8], window_pos: usize, hash_length: usize, hash_log: usize) -> (hash:
    usize)
    requires
        window_pos + 8 <= bytes.len(),
        1 <= hash_length <= 8,
        1 <= hash_log <= 32,
    ensures
        hash == bucket(bytes@, window_pos as int, hash_length as nat, hash_log as nat),
        hash < pow2(hash_log as nat),
{
    let shift = (8 - hash_length) * 8;
    let bx: [u8; 8] = [
        bytes[window_pos],
        bytes[window_pos + 1],
        bytes[window_pos + 2],
        bytes[window_pos + 3],
        bytes[window_pos + 4],
        bytes[window_pos + 5],
        bytes[window_pos + 6],
        bytes[window_pos + 7],
    ];
    assert(bx@ =~= bytes@.subrange(window_pos as int, window_pos + 8));
    cache_table_inner_hash(bx, shift, hash_log) as usize
}

} // verus!
