//! Sequences, the encoder's unit of emission: the token byte that introduces
//! one, and the bytes that one is written as.

use crate::constants::{GLZ_MIN_MATCH, LITERAL_BITS, ML_BITS, OFFSET_BIT, TOKEN};
use crate::copy::{copy_literals, written};
use crate::encode_mod::{compress_encode_mod, encode_mod_len, mod_bytes};
use vstd::prelude::*;

verus! {

/// A run of literals followed by a back-reference.
#[derive(Copy, Clone, Debug)]
pub struct EncodeSequence {
    /// Source offset at which the literal run begins.
    pub start: usize,
    /// Number of literal bytes before the match.
    pub ll: usize,
    /// Number of bytes the match copies.
    pub ml: usize,
    /// Distance from the output position back to the source of the match.
    pub ol: usize,
    /// Estimated size of the header in bytes, used while a match is chosen.
    pub cost: usize,
}

impl Default for EncodeSequence {
    fn default() -> (seq: Self)
        ensures
            seq == (EncodeSequence { start: 0, ll: 0, ml: 0, ol: 0, cost: 0 }),
    {
        EncodeSequence { start: 0, ll: 0, ml: 0, ol: 0, cost: 0 }
    }
}

/// The smaller of `a` and `b`.
pub open spec fn at_most(a: int, b: int) -> int {
    if a <= b {
        a
    } else {
        b
    }
}

/// The token byte of a sequence with literal length `ll`, match length `ml`
/// and offset `ol`: the low two bits of the offset in bits 7 and 6, the match
/// length less three, held at seven, in bits 5 to 3, and the literal length,
/// held at seven, in bits 2 to 0.
pub open spec fn token_byte(ll: nat, ml: nat, ol: nat) -> u8 {
    ((ol % 4) * 64 + at_most(ml - 3, 7) * 8 + at_most(ll as int, 7)) as u8
}

/// The literal-length field of a token.
pub open spec fn token_literal(token: u8) -> nat {
    (token % 8) as nat
}

/// The match-length field of a token.
pub open spec fn token_match(token: u8) -> nat {
    ((token / 8) % 8) as nat
}

/// The offset field of a token.
pub open spec fn token_offset(token: u8) -> nat {
    (token / 64) as nat
}

/// Token round trip: for every literal length, offset and match length of at
/// least three, the fields of the packed token are the literal length held at
/// seven, the match length less three held at seven, and the low two bits of
/// the offset.
pub proof fn lemma_token_round_trip(ll: nat, ml: nat, ol: nat)
    requires
        ml >= 3,
    ensures
        token_literal(token_byte(ll, ml, ol)) == at_most(ll as int, 7),
        token_match(token_byte(ll, ml, ol)) == at_most(ml - 3, 7),
        token_offset(token_byte(ll, ml, ol)) == ol % 4,
{
}

/// Packs the token byte of `seq`.
pub fn write_token(seq: &EncodeSequence) -> (token: u8)
    requires
        seq.ml >= GLZ_MIN_MATCH,
    ensures
        token == token_byte(seq.ll as nat, seq.ml as nat, seq.ol as nat),
{
    let ml_length = seq.ml - GLZ_MIN_MATCH;
    let ml_token: u8 = if ml_length >= 7 {
        7
    } else {
        ml_length as u8
    };
    let ll_token: u8 = if seq.ll >= 7 {
        7
    } else {
        seq.ll as u8
    };
    let ol = seq.ol;
    assert(ol & 0b11 == ol % 4) by (bit_vector);
    let ol_token = (seq.ol & 0b11) as u8;
    assert((ol_token << 6) | (ml_token << 3) | (ll_token << 0) == ol_token * 64 + ml_token * 8
        + ll_token) by (bit_vector)
        requires
            ol_token < 4,
            ml_token < 8,
            ll_token < 8,
    ;
    assert(0u8 | (ol_token << 6) == ol_token << 6) by (bit_vector);
    let mut out: u8 = 0;
    out |= ol_token << OFFSET_BIT;
    out |= ml_token << ML_BITS;
    out |= ll_token << LITERAL_BITS;
    out
}

/// The fields of `token`: literal length, match length and offset bits.
pub fn read_token(token: u8) -> (fields: (usize, usize, usize))
    ensures
        fields.0 == token_literal(token),
        fields.1 == token_match(token),
        fields.2 == token_offset(token),
{
    assert((token >> 0) & 0b111 == token % 8 && (token >> 3) & 0b111 == (token / 8) % 8 && (token
        >> 6) & 0b011 == token / 64) by (bit_vector);
    let literal = ((token >> LITERAL_BITS) & 0b111) as usize;
    let length = ((token >> ML_BITS) & 0b111) as usize;
    let offset = ((token >> OFFSET_BIT) & 0b011) as usize;
    (literal, length, offset)
}

/// The extension of a literal length: nothing below seven.
pub open spec fn literal_extension(ll: nat) -> Seq<u8> {
    if ll >= 7 {
        mod_bytes((ll - 7) as nat)
    } else {
        Seq::empty()
    }
}

/// The extension of a match length: nothing below ten.
pub open spec fn match_extension(ml: nat) -> Seq<u8> {
    if ml >= 10 {
        mod_bytes((ml - 10) as nat)
    } else {
        Seq::empty()
    }
}

/// The bytes that come before the literals of a sequence.
pub open spec fn sequence_head(seq: EncodeSequence) -> Seq<u8> {
    seq![token_byte(seq.ll as nat, seq.ml as nat, seq.ol as nat)] + literal_extension(
        seq.ll as nat,
    )
}

/// The bytes that come after the literals of a sequence that is not the last.
pub open spec fn sequence_tail(seq: EncodeSequence) -> Seq<u8> {
    mod_bytes((seq.ol / 4) as nat) + match_extension(seq.ml as nat)
}

/// The bytes of a sequence of the block `src`. The last sequence of a block
/// has no offset and no match.
pub open spec fn sequence_bytes(src: Seq<u8>, seq: EncodeSequence, is_end: bool) -> Seq<u8> {
    sequence_head(seq) + src.subrange(seq.start as int, seq.start + seq.ll) + (if is_end {
        Seq::empty()
    } else {
        sequence_tail(seq)
    })
}

/// The number of bytes that a sequence's token, length extensions and offset
/// take.
pub open spec fn header_len(seq: EncodeSequence, is_end: bool) -> nat {
    sequence_head(seq).len() + (if is_end {
        0
    } else {
        sequence_tail(seq).len()
    })
}

/// Writing `b` after `a` writes `a + b`.
proof fn lemma_written_twice(buf: Seq<u8>, at: int, a: Seq<u8>, b: Seq<u8>)
    requires
        0 <= at,
        at + a.len() + b.len() <= buf.len(),
    ensures
        written(written(buf, at, a), at + a.len(), b) == written(buf, at, a + b),
{
    assert(written(written(buf, at, a), at + a.len(), b) =~= written(buf, at, a + b));
}

/// The number of bytes that the token, the length extensions and the offset
/// of `seq` take.
pub fn header_size(seq: &EncodeSequence) -> (n: usize)
    ensures
        n == header_len(*seq, false),
{
    let mut n: usize = 1;
    if seq.ll >= TOKEN {
        n += encode_mod_len(seq.ll - TOKEN);
    }
    n += encode_mod_len(seq.ol / 4);
    if seq.ml >= TOKEN + GLZ_MIN_MATCH {
        n += encode_mod_len(seq.ml - (TOKEN + GLZ_MIN_MATCH));
    }
    n
}

/// Writes the bytes of `seq` to `dest` at `*dest_position` and moves
/// `*dest_position` past them: the token, the extension of the literal
/// length, the literals, and, unless `IS_END` is set, the offset and the
/// extension of the match length.
pub fn compress_sequence<const IS_END: bool>(
    src: &[u8],
    dest: &mut [u8],
    dest_position: &mut usize,
    seq: &EncodeSequence,
)
    requires
        seq.ml >= GLZ_MIN_MATCH,
        seq.start + seq.ll <= src.len(),
        *old(dest_position) + sequence_bytes(src@, *seq, IS_END).len() <= old(dest).len(),
    ensures
        *final(dest_position) == *old(dest_position) + sequence_bytes(src@, *seq, IS_END).len(),
        final(dest)@ == written(
            old(dest)@,
            *old(dest_position) as int,
            sequence_bytes(src@, *seq, IS_END),
        ),
{
    let ghost start = *dest_position as int;
    let ghost before = dest@;
    let ghost token = seq![token_byte(seq.ll as nat, seq.ml as nat, seq.ol as nat)];
    let ghost head = sequence_head(*seq);
    let ghost literals = src@.subrange(seq.start as int, seq.start + seq.ll);
    let ghost tail = sequence_tail(*seq);

    let token_byte = write_token(seq);
    dest[*dest_position] = token_byte;
    *dest_position += 1;
    assert(dest@ =~= written(before, start, token));

    if seq.ll >= TOKEN {
        compress_encode_mod(seq.ll - TOKEN, dest, dest_position);
        proof {
            lemma_written_twice(before, start, token, literal_extension(seq.ll as nat));
        }
    } else {
        assert(head =~= token);
    }
    assert(dest@ == written(before, start, head));
    assert(*dest_position == start + head.len());

    copy_literals(src, dest, seq.start, *dest_position, seq.ll);
    *dest_position += seq.ll;
    assert(dest@ =~= written(before, start, head + literals));

    if IS_END {
        assert(sequence_bytes(src@, *seq, IS_END) =~= head + literals);
        return ;
    }
    assert(sequence_bytes(src@, *seq, IS_END) =~= (head + literals) + tail);
    let ol = seq.ol;
    assert(ol >> 2 == ol / 4) by (bit_vector);
    compress_encode_mod(seq.ol >> 2, dest, dest_position);
    proof {
        lemma_written_twice(before, start, head + literals, mod_bytes((seq.ol / 4) as nat));
    }
    if seq.ml >= TOKEN + GLZ_MIN_MATCH {
        compress_encode_mod(seq.ml - (TOKEN + GLZ_MIN_MATCH), dest, dest_position);
        proof {
            let offset = mod_bytes((seq.ol / 4) as nat);
            let ext = match_extension(seq.ml as nat);
            lemma_written_twice(before, start, head + literals + offset, ext);
            assert((head + literals + offset) + ext =~= (head + literals) + tail);
        }
    } else {
        assert((head + literals) + mod_bytes((seq.ol / 4) as nat) =~= (head + literals) + tail);
    }
}

} // verus!
