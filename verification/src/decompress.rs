//! The block decoder: reads the sequences of a payload and rebuilds the
//! block from their literals and matches.

use crate::constants::GLZ_MIN_MATCH;
use crate::copy::{
    const_copy, fixed_copy_within, forward_copied, lemma_forward_copied_frame, written,
};
use crate::encode_mod::{decode_encode_mod_at, lemma_mod_decoded_bounds};
use crate::format::{
    decode_from, decode_payload, lemma_with_match_len, literals_step, match_step, with_match,
    CorruptPayload,
};
use crate::sequence::{read_token, token_literal};
use vstd::prelude::*;

verus! {

/// Number of bytes that one step of a literal copy moves.
pub const TOKEN_LITERAL: usize = 32;

/// Number of bytes that one step of a match copy moves.
pub const TOKEN_MATCH_LENGTH: usize = 32;

/// A match of `a` bytes followed by one of `b` bytes at the same distance is
/// a match of `a + b` bytes.
proof fn lemma_with_match_adds(out: Seq<u8>, offset: int, a: nat, b: nat)
    ensures
        with_match(with_match(out, offset, a), offset, b) == with_match(out, offset, a + b),
    decreases b,
{
    if b > 0 {
        lemma_with_match_adds(out, offset, a, (b - 1) as nat);
    }
}

/// A forward copy of `n` bytes to `buf[at..]` from `offset` bytes before
/// leaves, up to the end of the copy, the bytes before `at` followed by a
/// match of `n` bytes at distance `offset`.
proof fn lemma_forward_copy_is_match(buf: Seq<u8>, at: int, offset: int, n: nat)
    requires
        1 <= offset <= at,
        at + n <= buf.len(),
    ensures
        forward_copied(buf, at - offset, at, n).subrange(0, at + n) == with_match(
            buf.subrange(0, at),
            offset,
            n,
        ),
    decreases n,
{
    if n == 0 {
        assert(buf.subrange(0, at) =~= forward_copied(buf, at - offset, at, 0).subrange(0, at));
    } else {
        let m = (n - 1) as nat;
        lemma_forward_copy_is_match(buf, at, offset, m);
        lemma_forward_copied_frame(buf, at - offset, at, m);
        lemma_with_match_len(buf.subrange(0, at), offset, m);
        let before = forward_copied(buf, at - offset, at, m);
        let prev = with_match(buf.subrange(0, at), offset, m);
        assert(before.subrange(0, at + m)[at - offset + m] == before[at - offset + m]);
        assert(forward_copied(buf, at - offset, at, n).subrange(0, at + n) =~= prev.push(
            prev[prev.len() - offset],
        ));
    }
}

/// Copies `n` literals from `src[src_offset..]` to `dest[dest_offset..]`,
/// thirty-two at a time while thirty-two are left.
fn copy_run(src: &[u8], dest: &mut [u8], src_offset: usize, dest_offset: usize, n: usize)
    requires
        src_offset + n <= src.len(),
        dest_offset + n <= old(dest).len(),
    ensures
        final(dest)@ == written(
            old(dest)@,
            dest_offset as int,
            src@.subrange(src_offset as int, src_offset + n),
        ),
{
    let mut counter: usize = 0;
    while n - counter >= TOKEN_LITERAL
        invariant
            counter <= n,
            src_offset + n <= src.len(),
            dest_offset + n <= dest.len(),
            dest@ == written(
                old(dest)@,
                dest_offset as int,
                src@.subrange(src_offset as int, src_offset + counter),
            ),
        decreases n - counter,
    {
        const_copy::<TOKEN_LITERAL, false>(src, dest, src_offset + counter, dest_offset + counter);
        counter += TOKEN_LITERAL;
    }
    while counter < n
        invariant
            counter <= n,
            src_offset + n <= src.len(),
            dest_offset + n <= dest.len(),
            dest@ == written(
                old(dest)@,
                dest_offset as int,
                src@.subrange(src_offset as int, src_offset + counter),
            ),
        decreases n - counter,
    {
        dest[dest_offset + counter] = src[src_offset + counter];
        counter += 1;
    }
}

/// Appends to the `at` bytes at the start of `dest` a match of `n` bytes at
/// distance `offset`, by forward copies of thirty-two bytes while thirty-two
/// are left.
fn copy_match(dest: &mut [u8], at: usize, offset: usize, n: usize)
    requires
        1 <= offset <= at,
        at + n <= old(dest).len(),
    ensures
        final(dest).len() == old(dest).len(),
        final(dest)@.subrange(0, at + n) == with_match(
            old(dest)@.subrange(0, at as int),
            offset as int,
            n as nat,
        ),
        forall|i: int| at + n <= i < old(dest).len() ==> final(dest)@[i] == old(dest)@[i],
{
    let ghost out = dest@.subrange(0, at as int);
    let mut counter: usize = 0;
    while n - counter >= TOKEN_MATCH_LENGTH
        invariant
            counter <= n,
            1 <= offset <= at,
            at + n <= dest.len(),
            dest.len() == old(dest).len(),
            dest@.subrange(0, at + counter) == with_match(out, offset as int, counter as nat),
            forall|i: int| at + counter <= i < dest.len() ==> dest@[i] == old(dest)@[i],
        decreases n - counter,
    {
        proof {
            lemma_forward_copy_is_match(
                dest@,
                at + counter,
                offset as int,
                TOKEN_MATCH_LENGTH as nat,
            );
            lemma_forward_copied_frame(
                dest@,
                at + counter - offset,
                at + counter,
                TOKEN_MATCH_LENGTH as nat,
            );
            lemma_with_match_adds(out, offset as int, counter as nat, TOKEN_MATCH_LENGTH as nat);
        }
        fixed_copy_within::<TOKEN_MATCH_LENGTH>(dest, at + counter - offset, at + counter);
        counter += TOKEN_MATCH_LENGTH;
    }
    while counter < n
        invariant
            counter <= n,
            1 <= offset <= at,
            at + n <= dest.len(),
            dest.len() == old(dest).len(),
            dest@.subrange(0, at + counter) == with_match(out, offset as int, counter as nat),
            forall|i: int| at + counter <= i < dest.len() ==> dest@[i] == old(dest)@[i],
        decreases n - counter,
    {
        let ghost prev = dest@.subrange(0, at + counter);
        proof {
            lemma_with_match_len(out, offset as int, counter as nat);
        }
        let byte = dest[at + counter - offset];
        dest[at + counter] = byte;
        assert(dest@.subrange(0, at + counter + 1) =~= prev.push(prev[prev.len() - offset]));
        counter += 1;
    }
}

/// Reads the literal length of the sequence whose token stands at
/// `input[sp]` and has the literal field `literal_field`, and the position of
/// its literals, within the payload `input[..output_size]`.
fn read_literals(
    input: &[u8],
    output_size: usize,
    sp: usize,
    literal_field: usize,
    produced: usize,
    capacity: usize,
) -> (r: Result<(usize, usize), CorruptPayload>)
    requires
        sp < output_size <= input.len(),
        literal_field == token_literal(input@[sp as int]),
        produced <= capacity,
    ensures
        (match literals_step(
            input@.subrange(0, output_size as int),
            sp as int,
            produced as int,
            capacity as int,
        ) {
            Ok((ll, literals)) => r == Ok::<(usize, usize), CorruptPayload>(
                (ll as usize, literals as usize),
            ) && literals + ll <= output_size,
            Err(e) => r == Err::<(usize, usize), CorruptPayload>(e),
        }),
{
    let ghost payload = input@.subrange(0, output_size as int);
    assert(payload[sp as int] == input@[sp as int]);
    let mut literals = sp + 1;
    let mut literal_length = literal_field;
    if literal_field == 7 {
        proof {
            lemma_mod_decoded_bounds(payload, sp + 1, 0);
        }
        match decode_encode_mod_at(input, literals, output_size) {
            None => {
                return Err(CorruptPayload::Truncated);
            },
            Some((ll, b)) => {
                literals += b;
                let left = output_size - literals;
                if ll > left || left - ll < 7 {
                    return Err(CorruptPayload::Truncated);
                }
                literal_length = ll + 7;
            },
        }
    }
    if literal_length > output_size - literals {
        return Err(CorruptPayload::Truncated);
    }
    if literal_length > capacity - produced {
        return Err(CorruptPayload::OutputOverflow);
    }
    Ok((literal_length, literals))
}

/// Reads the offset and the length of the match of a sequence with token
/// `token` whose literals end just before `input[at]`, and the position of
/// the next token, within the payload `input[..output_size]`.
fn read_match(
    input: &[u8],
    output_size: usize,
    at: usize,
    token: u8,
    produced: usize,
    capacity: usize,
) -> (r: Result<(usize, usize, usize), CorruptPayload>)
    requires
        at < output_size <= input.len(),
        produced <= capacity,
    ensures
        (match match_step(
            input@.subrange(0, output_size as int),
            at as int,
            token,
            produced as int,
            capacity as int,
        ) {
            Ok((offset, ml, next)) => r == Ok::<(usize, usize, usize), CorruptPayload>(
                (offset as usize, ml as usize, next as usize),
            ) && 1 <= offset <= produced && produced + ml <= capacity && at < next <= output_size,
            Err(e) => r == Err::<(usize, usize, usize), CorruptPayload>(e),
        }),
{
    let ghost payload = input@.subrange(0, output_size as int);
    let (_, match_field, offset_field) = read_token(token);
    proof {
        lemma_mod_decoded_bounds(payload, at as int, 0);
    }
    match decode_encode_mod_at(input, at, output_size) {
        None => Err(CorruptPayload::Truncated),
        Some((ol, consumed)) => {
            if ol > produced / 4 || offset_field > produced - 4 * ol {
                return Err(CorruptPayload::OffsetOverflow);
            }
            let offset = offset_field + 4 * ol;
            if offset == 0 {
                return Err(CorruptPayload::OffsetOverflow);
            }
            let mut next = at + consumed;
            let room = capacity - produced;
            let mut match_length = match_field + GLZ_MIN_MATCH;
            if match_field == 7 {
                proof {
                    lemma_mod_decoded_bounds(payload, next as int, 0);
                }
                match decode_encode_mod_at(input, next, output_size) {
                    None => {
                        return Err(CorruptPayload::Truncated);
                    },
                    Some((ml, b)) => {
                        next += b;
                        if ml > room || room - ml < 10 {
                            return Err(CorruptPayload::OutputOverflow);
                        }
                        match_length = ml + 10;
                    },
                }
            }
            if match_length > room {
                return Err(CorruptPayload::OutputOverflow);
            }
            Ok((offset, match_length, next))
        },
    }
}

/// Decodes the payload `input[..output_size]` into the start of `output` and
/// returns the number of bytes decoded; the rest of `output` stays as it was.
/// No byte of `input` at or after `output_size` is read. The payload is
/// rejected where it is said to be longer than `input`, where it ends within
/// a sequence, where an offset is zero or reaches back before the start of
/// the output, and where `output` is too small.
pub fn decode_sequences(input: &[u8], output_size: usize, output: &mut [u8]) -> (r: Result<
    usize,
    CorruptPayload,
>)
    ensures
        final(output).len() == old(output).len(),
        output_size > input.len() ==> r == Err::<usize, CorruptPayload>(
            CorruptPayload::SizeMismatch,
        ),
        output_size <= input.len() ==> (match decode_payload(
            input@.subrange(0, output_size as int),
            old(output).len() as int,
        ) {
            Ok(block) => {
                &&& r == Ok::<usize, CorruptPayload>(block.len() as usize)
                &&& final(output)@ == written(old(output)@, 0, block)
            },
            Err(e) => r == Err::<usize, CorruptPayload>(e),
        }),
{
    if output_size > input.len() {
        return Err(CorruptPayload::SizeMismatch);
    }
    let ghost payload = input@.subrange(0, output_size as int);
    let ghost capacity = output.len() as int;
    let mut input_offset: usize = 0;
    let mut output_offset: usize = 0;
    assert(output@.subrange(0, 0) =~= Seq::<u8>::empty());
    loop
        invariant
            output_size <= input.len(),
            payload == input@.subrange(0, output_size as int),
            capacity == output.len(),
            output.len() == old(output).len(),
            input_offset <= output_size,
            output_offset <= output.len(),
            forall|i: int| output_offset <= i < output.len() ==> output@[i] == old(output)@[i],
            decode_payload(payload, capacity) == decode_from(
                payload,
                input_offset as int,
                output@.subrange(0, output_offset as int),
                capacity,
            ),
        decreases output_size - input_offset,
    {
        if input_offset == output_size {
            assert(output@ =~= written(old(output)@, 0, output@.subrange(0, output_offset as int)));
            return Ok(output_offset);
        }
        let ghost out = output@.subrange(0, output_offset as int);
        let token = input[input_offset];
        assert(token == payload[input_offset as int]);
        let (literal_field, _, _) = read_token(token);
        let (literal_length, literals) = match read_literals(
            input,
            output_size,
            input_offset,
            literal_field,
            output_offset,
            output.len(),
        ) {
            Ok(run) => run,
            Err(e) => {
                return Err(e);
            },
        };
        copy_run(input, output, literals, output_offset, literal_length);
        let ghost copied_out = out + payload.subrange(literals as int, literals + literal_length);
        assert(output@.subrange(0, output_offset + literal_length) =~= copied_out);
        output_offset += literal_length;
        if literals + literal_length == output_size {
            assert(output@ =~= written(old(output)@, 0, copied_out));
            return Ok(output_offset);
        }
        let (offset, match_length, next) = match read_match(
            input,
            output_size,
            literals + literal_length,
            token,
            output_offset,
            output.len(),
        ) {
            Ok(found) => found,
            Err(e) => {
                return Err(e);
            },
        };
        copy_match(output, output_offset, offset, match_length);
        output_offset += match_length;
        input_offset = next;
    }
}

} // verus!
