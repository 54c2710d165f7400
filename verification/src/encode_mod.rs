//! The encode-mod integer: a variable-length unsigned integer whose last byte
//! is the first one not above `0x7F`, and whose continuation bytes carry their
//! full eight bits.

use crate::copy::written;
use vstd::arithmetic::power2::{lemma2_to64, pow2};
use vstd::prelude::*;

verus! {

/// The continuation byte that starts the encoding of a value above `0x7F`:
/// its low eight bits with the top bit set.
pub open spec fn mod_lead(v: nat) -> u8 {
    let low = v % 256;
    if low < 128 {
        (low + 128) as u8
    } else {
        low as u8
    }
}

/// The value that remains to be encoded once the continuation byte of `v` is
/// out.
pub open spec fn mod_rest(v: nat) -> nat {
    ((v - 128) / 128) as nat
}

/// The encode-mod bytes of `v`.
pub open spec fn mod_bytes(v: nat) -> Seq<u8>
    decreases v,
{
    if v <= 0x7F {
        seq![v as u8]
    } else {
        seq![mod_lead(v)] + mod_bytes(mod_rest(v))
    }
}

/// The factor that the byte with index `i` of an encode-mod integer is
/// multiplied by: two to the power of seven times `i`, the exponent taken
/// modulo 32.
pub open spec fn mod_weight(i: nat) -> nat {
    pow2(((7 * i) % 32) as nat)
}

/// Reads an encode-mod integer from `s[pos..]`, the byte at `pos` having the
/// index `i`: the value and the number of bytes read, or `None` where `s` ends
/// before a byte not above `0x7F`.
pub open spec fn mod_decoded(s: Seq<u8>, pos: int, i: nat) -> Option<(nat, nat)>
    decreases s.len() - pos,
{
    if pos < 0 || pos >= s.len() {
        None
    } else if s[pos] <= 0x7F {
        Some((s[pos] as nat * mod_weight(i), 1nat))
    } else {
        match mod_decoded(s, pos + 1, i + 1) {
            Some((v, c)) => Some((s[pos] as nat * mod_weight(i) + v, c + 1)),
            None => None,
        }
    }
}

/// `v` as a `usize`, or `usize::MAX` where it does not fit.
pub open spec fn saturated(v: nat) -> usize {
    if v > usize::MAX {
        usize::MAX
    } else {
        v as usize
    }
}

/// What the decoder returns for an encode-mod integer read from `s[pos..]`.
pub open spec fn mod_read(s: Seq<u8>, pos: int) -> Option<(usize, usize)> {
    match mod_decoded(s, pos, 0) {
        Some((v, c)) => Some((saturated(v), c as usize)),
        None => None,
    }
}

/// An integer that was read took at least one byte, and ended within `s`.
pub proof fn lemma_mod_decoded_bounds(s: Seq<u8>, pos: int, i: nat)
    ensures
        mod_decoded(s, pos, i) matches Some((_, c)) ==> 0 <= pos && 1 <= c && pos + c <= s.len(),
    decreases s.len() - pos,
{
    if 0 <= pos < s.len() && s[pos] > 0x7F {
        lemma_mod_decoded_bounds(s, pos + 1, i + 1);
    }
}

/// An encoding has at least one byte, at most five for a value below two to
/// the power of 32, and at most ten for one below two to the power of 64.
pub proof fn lemma_mod_bytes_len(v: nat)
    ensures
        1 <= mod_bytes(v).len(),
        v <= 0x7F ==> mod_bytes(v).len() == 1,
        0x7F < v ==> mod_bytes(v).len() == 1 + mod_bytes(mod_rest(v)).len(),
        v <= 16_511 ==> mod_bytes(v).len() <= 2,
        v <= 2_113_663 ==> mod_bytes(v).len() <= 3,
        v <= 270_549_119 ==> mod_bytes(v).len() <= 4,
        v <= 34_630_287_487 ==> mod_bytes(v).len() <= 5,
        v <= 4_432_676_798_591 ==> mod_bytes(v).len() <= 6,
        v <= 567_382_630_219_903 ==> mod_bytes(v).len() <= 7,
        v <= 72_624_976_668_147_839 ==> mod_bytes(v).len() <= 8,
        v <= 9_295_997_013_522_923_647 ==> mod_bytes(v).len() <= 9,
        v <= 0xFFFF_FFFF_FFFF_FFFF ==> mod_bytes(v).len() <= 10,
    decreases v,
{
    if v > 0x7F {
        lemma_mod_bytes_len(mod_rest(v));
    }
}

/// Only the last byte of an encoding is not above `0x7F`.
pub proof fn lemma_mod_bytes_shape(v: nat)
    ensures
        forall|k: int| 0 <= k < mod_bytes(v).len() - 1 ==> mod_bytes(v)[k] > 0x7F,
        mod_bytes(v).last() <= 0x7F,
    decreases v,
{
    if v > 0x7F {
        lemma_mod_bytes_shape(mod_rest(v));
        lemma_mod_bytes_len(mod_rest(v));
        let tail = mod_bytes(mod_rest(v));
        assert forall|k: int| 0 <= k < mod_bytes(v).len() - 1 implies mod_bytes(v)[k] > 0x7F by {
            if k > 0 {
                assert(mod_bytes(v)[k] == tail[k - 1]);
            }
        }
        assert(mod_bytes(v).last() == tail.last());
    }
}

/// Where `s[pos..]` starts with the encoding of `v`, read with the first byte
/// at an index `i` that keeps every exponent below 32, the decoder reads `v`
/// times the weight of `i` and stops after the encoding's last byte.
proof fn lemma_mod_decoded_at(s: Seq<u8>, pos: int, i: nat, v: nat)
    requires
        0 <= pos,
        pos + mod_bytes(v).len() <= s.len(),
        s.subrange(pos, pos + mod_bytes(v).len()) == mod_bytes(v),
        i + mod_bytes(v).len() <= 5,
    ensures
        mod_decoded(s, pos, i) == Some((v * pow2(7 * i), mod_bytes(v).len())),
    decreases v,
{
    lemma2_to64();
    lemma_mod_bytes_len(v);
    let enc = mod_bytes(v);
    assert(s[pos] == s.subrange(pos, pos + enc.len())[0]);
    assert((7 * i) % 32 == 7 * i);
    if v <= 0x7F {
        assert(enc[0] == v as u8);
        assert(v * pow2(7 * i) == s[pos] as nat * mod_weight(i));
    } else {
        let rest = mod_rest(v);
        let tail = mod_bytes(rest);
        assert(enc[0] == mod_lead(v));
        assert(s.subrange(pos + 1, pos + 1 + tail.len()) =~= tail) by {
            assert forall|k: int| 0 <= k < tail.len() implies s[pos + 1 + k] == tail[k] by {
                assert(s[pos + 1 + k] == s.subrange(pos, pos + enc.len())[k + 1]);
            }
        }
        lemma_mod_decoded_at(s, pos + 1, i + 1, rest);
        assert(v == mod_lead(v) as nat + 128 * rest);
        assert(pow2(7 * (i + 1)) == 128 * pow2(7 * i));
        assert(v * pow2(7 * i) == mod_lead(v) as nat * pow2(7 * i) + rest * pow2(7 * (i + 1)))
            by (nonlinear_arith)
            requires
                v == mod_lead(v) as nat + 128 * rest,
                pow2(7 * (i + 1)) == 128 * pow2(7 * i),
        ;
    }
}

/// Encode-mod inverse: for every `v` below two to the power of 32, reading
/// the encoding of `v`, wherever it stands in `s`, gives `v` and consumes the
/// bytes of the encoding and no more.
pub proof fn lemma_mod_round_trip(s: Seq<u8>, pos: int, v: nat)
    requires
        v <= 0xFFFF_FFFF,
        0 <= pos,
        pos + mod_bytes(v).len() <= s.len(),
        s.subrange(pos, pos + mod_bytes(v).len()) == mod_bytes(v),
    ensures
        mod_decoded(s, pos, 0) == Some((v, mod_bytes(v).len())),
{
    lemma_mod_bytes_len(v);
    lemma2_to64();
    lemma_mod_decoded_at(s, pos, 0, v);
    assert(pow2(7 * 0nat) == 1);
    assert(v * pow2(7 * 0nat) == v) by (nonlinear_arith)
        requires
            pow2(7 * 0nat) == 1,
    ;
}

/// The number of bytes that the encode-mod form of `value` takes.
pub fn encode_mod_len(value: usize) -> (n: usize)
    ensures
        n == mod_bytes(value as nat).len(),
        1 <= n <= 10,
{
    proof {
        lemma_mod_bytes_len(value as nat);
    }
    let mut rest: usize = value;
    let mut n: usize = 1;
    while rest > 0x7f
        invariant
            1 <= n,
            n + rest <= value + 1,
            n + mod_bytes(rest as nat).len() == mod_bytes(value as nat).len() + 1,
        decreases rest,
    {
        proof {
            lemma_mod_bytes_len(rest as nat);
        }
        let ghost before = rest;
        rest = (rest - 0x80) >> 7;
        assert(rest == mod_rest(before as nat)) by {
            assert((before - 0x80) as usize >> 7 == (before - 0x80) as usize / 128) by (bit_vector);
        }
        n += 1;
    }
    proof {
        lemma_mod_bytes_len(rest as nat);
    }
    n
}

/// Writes the encode-mod bytes of `value` to `dest` at `*dest_position` and
/// moves `*dest_position` past them.
pub fn compress_encode_mod(value: usize, dest: &mut [u8], dest_position: &mut usize)
    requires
        *old(dest_position) + mod_bytes(value as nat).len() <= old(dest).len(),
    ensures
        *final(dest_position) == *old(dest_position) + mod_bytes(value as nat).len(),
        final(dest)@ == written(old(dest)@, *old(dest_position) as int, mod_bytes(value as nat)),
{
    let ghost start = *dest_position;
    let ghost whole = mod_bytes(value as nat);
    let mut rest: usize = value;
    while rest > 0x7f
        invariant
            start <= *dest_position,
            dest.len() == old(dest).len(),
            *dest_position + mod_bytes(rest as nat).len() == start + whole.len(),
            start + whole.len() <= dest.len(),
            whole =~= dest@.subrange(start as int, *dest_position as int) + mod_bytes(rest as nat),
            forall|i: int|
                0 <= i < dest.len() && !(start <= i < *dest_position) ==> dest@[i] == old(dest)@[i],
        decreases rest,
    {
        proof {
            lemma_mod_bytes_len(rest as nat);
        }
        let ghost before = rest;
        let ghost emitted = dest@.subrange(start as int, *dest_position as int);
        let lead: usize = (rest & 255) | 0x80;
        assert(lead == mod_lead(before as nat)) by {
            assert(((before & 255) | 0x80) == (if before % 256 < 128 {
                (before % 256 + 128) as usize
            } else {
                before % 256
            })) by (bit_vector);
        }
        dest[*dest_position] = lead as u8;
        *dest_position += 1;
        rest = (rest - 0x80) >> 7;
        assert(rest == mod_rest(before as nat)) by {
            assert((before - 0x80) as usize >> 7 == (before - 0x80) as usize / 128) by (bit_vector);
        }
        assert(dest@.subrange(start as int, *dest_position as int) =~= emitted.push(
            mod_lead(before as nat),
        ));
    }
    proof {
        lemma_mod_bytes_len(rest as nat);
    }
    dest[*dest_position] = rest as u8;
    *dest_position += 1;
    assert(dest@.subrange(start as int, *dest_position as int) =~= whole);
    assert(dest@ =~= written(old(dest)@, start as int, whole));
}

/// The term that the byte with index `index` adds to the value, computed
/// with a shift.
proof fn lemma_mod_term(byte: u8, shift: u32, index: nat)
    requires
        shift == (7 * index) % 32,
    ensures
        (byte as u64) << shift == byte as nat * mod_weight(index),
        ((shift + 7) as u32) & 0x1f == (7 * (index + 1)) % 32,
{
    lemma2_to64();
    vstd::bits::lemma_u64_pow2_no_overflow(shift as nat);
    vstd::arithmetic::power2::lemma_pow2_strictly_increases(shift as nat, 32);
    assert(byte as nat * pow2(shift as nat) <= 255 * pow2(32)) by (nonlinear_arith)
        requires
            byte <= 255,
            pow2(shift as nat) < pow2(32),
    ;
    vstd::bits::lemma_u64_shl_is_mul(byte as u64, shift as u64);
    assert(((shift + 7) as u32) & 0x1f == ((shift + 7) as u32) % 32) by (bit_vector)
        requires
            shift < 32,
    ;
}

/// One step of reading: a byte not above `0x7F` ends the integer with its
/// term, and another adds its term to what is read after it.
proof fn lemma_mod_decoded_step(s: Seq<u8>, pos: int, i: nat)
    requires
        0 <= pos < s.len(),
    ensures
        s[pos] <= 0x7F ==> mod_decoded(s, pos, i) == Some((s[pos] as nat * mod_weight(i), 1nat)),
        s[pos] > 0x7F ==> mod_decoded(s, pos, i) == (match mod_decoded(s, pos + 1, i + 1) {
            Some((v, c)) => Some((s[pos] as nat * mod_weight(i) + v, c + 1)),
            None => None,
        }),
{
}

/// Reads the encode-mod integer that starts at `input[start]` and ends
/// before `input[end]`: the value, held at `usize::MAX` where it is larger,
/// and the number of bytes read. `None` where no byte of `input[start..end]`
/// is at most `0x7F`.
pub fn decode_encode_mod_at(input: &[u8], start: usize, end: usize) -> (r: Option<(usize, usize)>)
    requires
        start <= end <= input.len(),
    ensures
        r == mod_read(input@.subrange(0, end as int), start as int),
        r matches Some((_, consumed)) ==> 1 <= consumed && start + consumed <= end,
{
    let ghost payload = input@.subrange(0, end as int);
    let ghost mut index: nat = 0;
    let ghost mut sum: nat = 0;
    let mut position: usize = start;
    let mut shift: u32 = 0;
    let mut value: u64 = 0;
    loop
        invariant
            start <= position <= end <= input.len(),
            payload == input@.subrange(0, end as int),
            position == start + index,
            shift == (7 * index) % 32,
            value == (if sum > u64::MAX { u64::MAX } else { sum as u64 }),
            mod_decoded(payload, start as int, 0) == (match mod_decoded(
                payload,
                position as int,
                index,
            ) {
                Some((v, c)) => Some((sum + v, c + index)),
                None => None,
            }),
        decreases end - position,
    {
        if position >= end {
            return None;
        }
        let byte = input[position];
        proof {
            lemma_mod_term(byte, shift, index);
            lemma_mod_decoded_step(payload, position as int, index);
            assert(payload[position as int] == byte);
        }
        let term: u64 = (byte as u64) << shift;
        value = value.saturating_add(term);
        position += 1;
        if byte <= 0x7f {
            let small: usize = if value > usize::MAX as u64 {
                usize::MAX
            } else {
                value as usize
            };
            return Some((small, position - start));
        }
        shift = (shift + 7) & 0x1f;
        proof {
            sum = sum + term as nat;
            index = index + 1;
        }
    }
}

/// Reads the encode-mod integer at the start of `input`: the value, held at
/// `usize::MAX` where it is larger, and the number of bytes read. `None` where
/// no byte of `input` is at most `0x7F`.
pub fn decode_encode_mod(input: &[u8]) -> (r: Option<(usize, usize)>)
    ensures
        r == mod_read(input@, 0),
{
    assert(input@.subrange(0, input@.len() as int) =~= input@);
    decode_encode_mod_at(input, 0, input.len())
}

} // verus!
