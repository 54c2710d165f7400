//! The payload format: what a payload decodes to, and why the bytes that the
//! encoder writes for a block decode to that block.
//!
//! A payload is a row of sequences. A sequence starts with a token byte that
//! holds the low two bits of the offset, the match length less three and the
//! literal length; a field of seven says that an encode-mod integer extends
//! the length. After the token come the extension of the literal length, the
//! literals, the offset without its low two bits as an encode-mod integer,
//! and the extension of the match length. The last sequence of a block ends
//! with its literals.

use crate::encode_mod::{
    lemma_mod_bytes_len, lemma_mod_decoded_bounds, lemma_mod_round_trip, mod_bytes, mod_decoded,
};
use crate::sequence::{
    lemma_token_round_trip, literal_extension, match_extension, sequence_bytes, sequence_head,
    sequence_tail, token_byte, token_literal, token_match, token_offset, EncodeSequence,
};
use vstd::prelude::*;

verus! {

/// Why a payload was rejected.
#[derive(Copy, Clone, Debug, PartialEq, Eq, Structural)]
pub enum CorruptPayload {
    /// A length, an offset or a literal run reaches past the end of the payload.
    Truncated,
    /// An offset is zero or reaches back before the start of the output.
    OffsetOverflow,
    /// The payload is said to be longer than the buffer that holds it.
    SizeMismatch,
    /// The output buffer is too small for what the payload decodes to.
    OutputOverflow,
}

/// `out` followed by a match of `n` bytes at distance `offset`: each byte of
/// the match is the byte that stands `offset` bytes before it, so that a match
/// longer than its distance repeats.
pub open spec fn with_match(out: Seq<u8>, offset: int, n: nat) -> Seq<u8>
    decreases n,
{
    if n == 0 {
        out
    } else {
        let prev = with_match(out, offset, (n - 1) as nat);
        prev.push(prev[prev.len() - offset])
    }
}

/// The literal length of the sequence whose token stands at `payload[sp]`,
/// and the position of its first literal byte. `None` where the extension of
/// the length runs past the end of the payload.
pub open spec fn literal_run(payload: Seq<u8>, sp: int) -> Option<(nat, int)> {
    let field = token_literal(payload[sp]);
    if field == 7 {
        match mod_decoded(payload, sp + 1, 0) {
            Some((v, c)) => Some((7 + v, sp + 1 + c)),
            None => None,
        }
    } else {
        Some((field, sp + 1))
    }
}

/// The match length of a sequence with token `token` whose offset ends just
/// before `payload[at]`, and the position of the next token. `None` where the
/// extension of the length runs past the end of the payload.
pub open spec fn match_run(payload: Seq<u8>, at: int, token: u8) -> Option<(nat, int)> {
    let field = token_match(token);
    if field == 7 {
        match mod_decoded(payload, at, 0) {
            Some((v, c)) => Some((10 + v, at + c)),
            None => None,
        }
    } else {
        Some((field + 3, at))
    }
}

/// The literal length and the place of the literals of the sequence whose
/// token stands at `payload[sp]`, where `produced` bytes were decoded before
/// it. The payload is truncated where the literals reach past its end; the
/// output overflows where they do not fit in `capacity` bytes.
pub open spec fn literals_step(payload: Seq<u8>, sp: int, produced: int, capacity: int) -> Result<
    (nat, int),
    CorruptPayload,
> {
    match literal_run(payload, sp) {
        None => Err(CorruptPayload::Truncated),
        Some((ll, literals)) => {
            if literals + ll > payload.len() {
                Err(CorruptPayload::Truncated)
            } else if produced + ll > capacity {
                Err(CorruptPayload::OutputOverflow)
            } else {
                Ok((ll, literals))
            }
        },
    }
}

/// The offset and the length of the match of a sequence with token `token`
/// whose literals end just before `payload[at]`, and the position of the next
/// token, where `produced` bytes were decoded before the match. The offset is
/// the offset field of the token plus four times the integer read at `at`.
pub open spec fn match_step(
    payload: Seq<u8>,
    at: int,
    token: u8,
    produced: int,
    capacity: int,
) -> Result<(nat, nat, int), CorruptPayload> {
    match mod_decoded(payload, at, 0) {
        None => Err(CorruptPayload::Truncated),
        Some((v, c)) => {
            let offset = token_offset(token) + 4 * v;
            if offset == 0 || offset > produced {
                Err(CorruptPayload::OffsetOverflow)
            } else {
                match match_run(payload, at + c, token) {
                    None => Err(CorruptPayload::Truncated),
                    Some((ml, next)) => {
                        if produced + ml > capacity {
                            Err(CorruptPayload::OutputOverflow)
                        } else {
                            Ok((offset, ml, next))
                        }
                    },
                }
            }
        },
    }
}

/// The steps of a sequence move forward within the payload.
pub proof fn lemma_steps_advance(
    payload: Seq<u8>,
    sp: int,
    at: int,
    token: u8,
    produced: int,
    capacity: int,
)
    requires
        0 <= sp,
        0 <= at,
    ensures
        literals_step(payload, sp, produced, capacity) matches Ok((ll, literals)) ==> sp + 1
            <= literals && literals + ll <= payload.len(),
        match_step(payload, at, token, produced, capacity) matches Ok((offset, ml, next)) ==> at
            + 1 <= next <= payload.len(),
{
    lemma_mod_decoded_bounds(payload, sp + 1, 0);
    lemma_mod_decoded_bounds(payload, at, 0);
    match mod_decoded(payload, at, 0) {
        Some((_, c)) => {
            lemma_mod_decoded_bounds(payload, at + c, 0);
        },
        None => {},
    }
}

/// What the rest of `payload` from `sp` on decodes to, after `out`, into a
/// buffer of `capacity` bytes.
///
/// A sequence is a token, the extension of its literal length, its literals,
/// its offset and the extension of its match length, in that order. A payload
/// ends after a match or after the literals of a sequence.
pub open spec fn decode_from(payload: Seq<u8>, sp: int, out: Seq<u8>, capacity: int) -> Result<
    Seq<u8>,
    CorruptPayload,
>
    decreases payload.len() - sp,
{
    if sp < 0 || sp >= payload.len() {
        Ok(out)
    } else {
        match literals_step(payload, sp, out.len() as int, capacity) {
            Err(e) => Err(e),
            Ok((ll, literals)) => {
                let copied = out + payload.subrange(literals, literals + ll);
                let at = literals + ll;
                if at == payload.len() {
                    Ok(copied)
                } else {
                    match match_step(payload, at, payload[sp], copied.len() as int, capacity) {
                        Err(e) => Err(e),
                        Ok((offset, ml, next)) => {
                            proof {
                                lemma_steps_advance(
                                    payload,
                                    sp,
                                    at,
                                    payload[sp],
                                    copied.len() as int,
                                    capacity,
                                );
                            }
                            decode_from(
                                payload,
                                next,
                                with_match(copied, offset as int, ml),
                                capacity,
                            )
                        },
                    }
                }
            },
        }
    }
}

/// What `payload` decodes to in a buffer of `capacity` bytes.
pub open spec fn decode_payload(payload: Seq<u8>, capacity: int) -> Result<
    Seq<u8>,
    CorruptPayload,
> {
    decode_from(payload, 0, Seq::empty(), capacity)
}

/// Whether the `ml` bytes of `src` from `at` on repeat those `ol` bytes
/// before them.
pub open spec fn is_match(src: Seq<u8>, at: int, ol: int, ml: int) -> bool {
    &&& 1 <= ol <= at
    &&& 0 <= ml
    &&& at + ml <= src.len()
    &&& forall|i: int| at <= i < at + ml ==> src[i] == #[trigger] src[i - ol]
}

/// Whether `seq` is a sequence of the block `src` that is not the last: its
/// literals and its match lie within the block, the match is at least three
/// bytes long, and its source lies within the bytes before it.
pub open spec fn is_sequence_of(src: Seq<u8>, seq: EncodeSequence) -> bool {
    &&& seq.ml >= 3
    &&& seq.start + seq.ll + seq.ml <= src.len()
    &&& is_match(src, seq.start + seq.ll, seq.ol as int, seq.ml as int)
}

/// A match appended to the bytes before it gives the bytes up to its end.
pub proof fn lemma_with_match_rebuilds(src: Seq<u8>, at: int, ol: int, ml: nat)
    requires
        is_match(src, at, ol, ml as int),
    ensures
        with_match(src.subrange(0, at), ol, ml) == src.subrange(0, at + ml),
    decreases ml,
{
    if ml == 0 {
    } else {
        let m = (ml - 1) as nat;
        lemma_with_match_rebuilds(src, at, ol, m);
        let prev = src.subrange(0, at + m);
        assert(src[at + m] == src[at + m - ol]);
        assert(prev.push(prev[prev.len() - ol]) =~= src.subrange(0, at + ml));
    }
}

/// A match adds `n` bytes and keeps those before it.
pub proof fn lemma_with_match_len(out: Seq<u8>, offset: int, n: nat)
    ensures
        with_match(out, offset, n).len() == out.len() + n,
        forall|i: int| 0 <= i < out.len() ==> with_match(out, offset, n)[i] == out[i],
    decreases n,
{
    if n > 0 {
        lemma_with_match_len(out, offset, (n - 1) as nat);
    }
}

/// Where `whole[at..]` starts with `a + b`, it starts with `a`, and `b`
/// follows.
proof fn lemma_split(whole: Seq<u8>, at: int, a: Seq<u8>, b: Seq<u8>)
    requires
        0 <= at,
        at + a.len() + b.len() <= whole.len(),
        whole.subrange(at, at + a.len() + b.len()) == a + b,
    ensures
        whole.subrange(at, at + a.len()) == a,
        whole.subrange(at + a.len(), at + a.len() + b.len()) == b,
{
    let both = whole.subrange(at, at + a.len() + b.len());
    assert forall|i: int| 0 <= i < a.len() implies whole[at + i] == a[i] by {
        assert(both[i] == (a + b)[i]);
    }
    assert forall|i: int| 0 <= i < b.len() implies whole[at + a.len() + i] == b[i] by {
        assert(both[a.len() + i] == (a + b)[a.len() + i]);
    }
    assert(whole.subrange(at, at + a.len()) =~= a);
    assert(whole.subrange(at + a.len(), at + a.len() + b.len()) =~= b);
}

/// The literal length and the place of the literals are read back from the
/// head of a sequence.
proof fn lemma_literal_run(payload: Seq<u8>, sp: int, seq: EncodeSequence)
    requires
        0 <= sp,
        seq.ml >= 3,
        seq.ll <= 0xFFFF_FFFF,
        sp + sequence_head(seq).len() <= payload.len(),
        payload.subrange(sp, sp + sequence_head(seq).len()) == sequence_head(seq),
    ensures
        payload[sp] == token_byte(seq.ll as nat, seq.ml as nat, seq.ol as nat),
        literal_run(payload, sp) == Some((seq.ll as nat, sp + sequence_head(seq).len())),
{
    let token = token_byte(seq.ll as nat, seq.ml as nat, seq.ol as nat);
    let ext = literal_extension(seq.ll as nat);
    lemma_token_round_trip(seq.ll as nat, seq.ml as nat, seq.ol as nat);
    lemma_split(payload, sp, seq![token], ext);
    assert(payload[sp] == payload.subrange(sp, sp + 1)[0]);
    if seq.ll >= 7 {
        lemma_mod_round_trip(payload, sp + 1, (seq.ll - 7) as nat);
    }
}

/// The offset and the match length are read back from the tail of a sequence.
proof fn lemma_match_run(payload: Seq<u8>, at: int, seq: EncodeSequence)
    requires
        0 <= at,
        seq.ml >= 3,
        seq.ml <= 0xFFFF_FFFF,
        seq.ol <= 0xFFFF_FFFF,
        at + sequence_tail(seq).len() <= payload.len(),
        payload.subrange(at, at + sequence_tail(seq).len()) == sequence_tail(seq),
    ensures
        mod_decoded(payload, at, 0) == Some(
            ((seq.ol / 4) as nat, mod_bytes((seq.ol / 4) as nat).len()),
        ),
        match_run(
            payload,
            at + mod_bytes((seq.ol / 4) as nat).len(),
            token_byte(seq.ll as nat, seq.ml as nat, seq.ol as nat),
        ) == Some((seq.ml as nat, at + sequence_tail(seq).len())),
{
    let offset = mod_bytes((seq.ol / 4) as nat);
    let ext = match_extension(seq.ml as nat);
    lemma_token_round_trip(seq.ll as nat, seq.ml as nat, seq.ol as nat);
    lemma_split(payload, at, offset, ext);
    lemma_mod_round_trip(payload, at, (seq.ol / 4) as nat);
    if seq.ml >= 10 {
        lemma_mod_round_trip(payload, at + offset.len(), (seq.ml - 10) as nat);
    }
}

/// Decoding the bytes of a sequence that is not the last, after the part of
/// the block before it, gives the part of the block up to the end of its
/// match, and goes on with the bytes after the sequence.
pub proof fn lemma_decode_sequence(
    payload: Seq<u8>,
    sp: int,
    capacity: int,
    src: Seq<u8>,
    seq: EncodeSequence,
)
    requires
        0 <= sp,
        src.len() <= 0xFFFF_FFFF,
        src.len() <= capacity,
        is_sequence_of(src, seq),
        sp + sequence_bytes(src, seq, false).len() <= payload.len(),
        payload.subrange(sp, sp + sequence_bytes(src, seq, false).len()) == sequence_bytes(
            src,
            seq,
            false,
        ),
    ensures
        decode_from(payload, sp, src.subrange(0, seq.start as int), capacity) == decode_from(
            payload,
            sp + sequence_bytes(src, seq, false).len(),
            src.subrange(0, seq.start + seq.ll + seq.ml),
            capacity,
        ),
{
    let head = sequence_head(seq);
    let literals = src.subrange(seq.start as int, seq.start + seq.ll);
    let tail = sequence_tail(seq);
    let out = src.subrange(0, seq.start as int);
    lemma_mod_bytes_len((seq.ol / 4) as nat);
    assert(sequence_bytes(src, seq, false) =~= head + (literals + tail));
    lemma_split(payload, sp, head, literals + tail);
    lemma_split(payload, sp + head.len(), literals, tail);
    lemma_literal_run(payload, sp, seq);
    let at = sp + head.len() + seq.ll;
    lemma_match_run(payload, at, seq);
    let copied = out + payload.subrange(sp + head.len(), at);
    assert(copied =~= src.subrange(0, seq.start + seq.ll));
    lemma_token_round_trip(seq.ll as nat, seq.ml as nat, seq.ol as nat);
    assert(token_offset(payload[sp]) + 4 * ((seq.ol / 4) as nat) == seq.ol);
    lemma_with_match_rebuilds(src, seq.start + seq.ll, seq.ol as int, seq.ml as nat);
}

/// Decoding the bytes of the last sequence of a block, after the part of the
/// block before it, gives the block.
pub proof fn lemma_decode_last(
    payload: Seq<u8>,
    sp: int,
    capacity: int,
    src: Seq<u8>,
    seq: EncodeSequence,
)
    requires
        0 <= sp,
        src.len() <= 0xFFFF_FFFF,
        src.len() <= capacity,
        seq.ml >= 3,
        seq.start + seq.ll == src.len(),
        sp + sequence_bytes(src, seq, true).len() == payload.len(),
        payload.subrange(sp, payload.len() as int) == sequence_bytes(src, seq, true),
    ensures
        decode_from(payload, sp, src.subrange(0, seq.start as int), capacity) == Ok::<
            Seq<u8>,
            CorruptPayload,
        >(src),
{
    let head = sequence_head(seq);
    let literals = src.subrange(seq.start as int, seq.start + seq.ll);
    let out = src.subrange(0, seq.start as int);
    assert(sequence_bytes(src, seq, true) =~= head + literals);
    lemma_split(payload, sp, head, literals);
    lemma_literal_run(payload, sp, seq);
    let copied = out + payload.subrange(sp + head.len(), sp + head.len() + seq.ll);
    assert(copied =~= src);
}

/// What a payload decodes to does not depend on the room left in the buffer,
/// as long as the result fits.
pub proof fn lemma_decode_capacity(
    payload: Seq<u8>,
    sp: int,
    out: Seq<u8>,
    capacity: int,
    larger: int,
)
    requires
        capacity <= larger,
        decode_from(payload, sp, out, capacity) is Ok,
    ensures
        decode_from(payload, sp, out, larger) == decode_from(payload, sp, out, capacity),
    decreases payload.len() - sp,
{
    if sp < 0 || sp >= payload.len() {
    } else {
        let (ll, literals) = literals_step(payload, sp, out.len() as int, capacity).unwrap();
        let copied = out + payload.subrange(literals, literals + ll);
        let at = literals + ll;
        if at != payload.len() {
            let (offset, ml, next) = match_step(
                payload,
                at,
                payload[sp],
                copied.len() as int,
                capacity,
            ).unwrap();
            lemma_steps_advance(payload, sp, at, payload[sp], copied.len() as int, capacity);
            lemma_decode_capacity(
                payload,
                next,
                with_match(copied, offset as int, ml),
                capacity,
                larger,
            );
        }
    }
}

/// Whether `payload` is an encoding of `block`: it decodes to `block` in
/// every buffer that has room for `block`.
pub open spec fn encodes(payload: Seq<u8>, block: Seq<u8>) -> bool {
    forall|capacity: int|
        capacity >= block.len() ==> #[trigger] decode_payload(payload, capacity) == Ok::<
            Seq<u8>,
            CorruptPayload,
        >(block)
}

/// A payload that decodes to `block` in a buffer of the length of `block` is
/// an encoding of `block`.
pub proof fn lemma_encodes(payload: Seq<u8>, block: Seq<u8>)
    requires
        decode_payload(payload, block.len() as int) == Ok::<Seq<u8>, CorruptPayload>(block),
    ensures
        encodes(payload, block),
{
    assert forall|capacity: int| capacity >= block.len() implies #[trigger] decode_payload(
        payload,
        capacity,
    ) == Ok::<Seq<u8>, CorruptPayload>(block) by {
        lemma_decode_capacity(payload, 0, Seq::empty(), block.len() as int, capacity);
    }
}

/// Each byte of a match is the byte that stands `offset` bytes before it.
pub proof fn lemma_with_match_periodic(out: Seq<u8>, offset: int, n: nat)
    requires
        1 <= offset <= out.len(),
    ensures
        forall|i: int|
            out.len() <= i < out.len() + n ==> #[trigger] with_match(out, offset, n)[i]
                == with_match(out, offset, n)[i - offset],
    decreases n,
{
    if n > 0 {
        let m = (n - 1) as nat;
        lemma_with_match_periodic(out, offset, m);
        lemma_with_match_len(out, offset, m);
    }
}

/// Forward overlap replication: every byte of a match at distance one is
/// the last byte before the match.
pub proof fn lemma_with_match_replicates(out: Seq<u8>, n: nat)
    requires
        1 <= out.len(),
    ensures
        forall|i: int|
            out.len() <= i < out.len() + n ==> #[trigger] with_match(out, 1, n)[i] == out.last(),
    decreases n,
{
    if n > 0 {
        let m = (n - 1) as nat;
        lemma_with_match_replicates(out, m);
        lemma_with_match_len(out, 1, m);
    }
}

} // verus!
