//! The block encoder: drives the match finder through a block and writes the
//! sequences it finds, then the literals that are left.

use crate::constants::{GLZ_MIN_MATCH, WINDOW_SIZE};
use crate::copy::{lemma_written_prefix, written};
use crate::encode_mod::lemma_mod_bytes_len;
use crate::format::{
    decode_from, encodes, is_sequence_of, lemma_decode_last, lemma_decode_sequence, lemma_encodes,
};
use crate::match_finder::{
    advance_end, advanced, inserted, lemma_searched_is_match, searched, Best, Chains,
    HcMatchFinder, HASH_FOUR_LOG_SIZE, MAX_BLOCK_SIZE,
};
use crate::sequence::{compress_sequence, header_len, header_size, sequence_bytes, EncodeSequence};
use crate::utils::bucket;
use vstd::prelude::*;

verus! {

/// Number of misses in a row after which the encoder skips one position more.
pub const SKIP_TRIGGER: usize = 13;

/// Room that the encoder asks of its output buffer beyond the length of the
/// block.
pub const HEADROOM: usize = 16;

/// Whether decoding `prefix + rest` from its start comes, at the end of
/// `prefix`, to the output `out`.
#[verifier::opaque]
spec fn resumes(prefix: Seq<u8>, rest: Seq<u8>, out: Seq<u8>, capacity: int) -> bool {
    decode_from(prefix + rest, 0, Seq::empty(), capacity) == decode_from(
        prefix + rest,
        prefix.len() as int,
        out,
        capacity,
    )
}

/// Where decoding resumes after `prefix` with the block up to the start of
/// `seq`, it resumes after `prefix` and the bytes of `seq` with the block up to
/// the end of the match of `seq`.
proof fn lemma_resumes_after(prefix: Seq<u8>, src: Seq<u8>, seq: EncodeSequence)
    requires
        src.len() <= 0xFFFF_FFFF,
        is_sequence_of(src, seq),
        forall|rest: Seq<u8>|
            #[trigger] resumes(prefix, rest, src.subrange(0, seq.start as int), src.len() as int),
    ensures
        forall|rest: Seq<u8>|
            #[trigger] resumes(
                prefix + sequence_bytes(src, seq, false),
                rest,
                src.subrange(0, seq.start + seq.ll + seq.ml),
                src.len() as int,
            ),
{
    reveal(resumes);
    let bytes = sequence_bytes(src, seq, false);
    assert forall|rest: Seq<u8>|
        #[trigger] resumes(
            prefix + bytes,
            rest,
            src.subrange(0, seq.start + seq.ll + seq.ml),
            src.len() as int,
        ) by {
        let whole = (prefix + bytes) + rest;
        assert(whole =~= prefix + (bytes + rest));
        assert(resumes(prefix, bytes + rest, src.subrange(0, seq.start as int), src.len() as int));
        assert(whole.subrange(prefix.len() as int, (prefix.len() + bytes.len()) as int) =~= bytes);
        lemma_decode_sequence(whole, prefix.len() as int, src.len() as int, src, seq);
    }
}

/// Decoding resumes after nothing with nothing.
proof fn lemma_resumes_first(src: Seq<u8>)
    ensures
        forall|rest: Seq<u8>|
            #[trigger] resumes(Seq::empty(), rest, src.subrange(0, 0), src.len() as int),
{
    reveal(resumes);
    assert(src.subrange(0, 0) =~= Seq::<u8>::empty());
}

/// Where decoding resumes after `prefix` with the block up to the start of
/// its last sequence `seq`, `prefix` and the bytes of `seq` are an encoding of
/// the block.
proof fn lemma_resumes_last(prefix: Seq<u8>, src: Seq<u8>, seq: EncodeSequence)
    requires
        src.len() <= 0xFFFF_FFFF,
        seq.ml >= 3,
        seq.start + seq.ll == src.len(),
        forall|rest: Seq<u8>|
            #[trigger] resumes(prefix, rest, src.subrange(0, seq.start as int), src.len() as int),
    ensures
        encodes(prefix + sequence_bytes(src, seq, true), src),
{
    reveal(resumes);
    let bytes = sequence_bytes(src, seq, true);
    let payload = prefix + bytes;
    assert(resumes(prefix, bytes, src.subrange(0, seq.start as int), src.len() as int));
    assert(payload.subrange(prefix.len() as int, payload.len() as int) =~= bytes);
    lemma_decode_last(payload, prefix.len() as int, src.len() as int, src, seq);
    lemma_encodes(payload, src);
}

/// The sequence that ends a block of `len` bytes of which the first `start`
/// are in earlier sequences: the bytes that are left, as literals.
pub open spec fn last_sequence(len: int, start: int) -> EncodeSequence {
    EncodeSequence {
        start: start as usize,
        ll: (len - start) as usize,
        ml: GLZ_MIN_MATCH,
        ol: 0,
        cost: 0,
    }
}

/// The best match that a finder with the chains `chains` finds for the
/// position `pos` of `src`, once it has put the position in.
pub open spec fn found_at(
    src: Seq<u8>,
    chains: Chains,
    depth: int,
    min_length: int,
    nice_length: int,
    pos: nat,
) -> Best {
    searched(
        src,
        inserted(chains, src, pos as int).next,
        pos as int,
        chains.heads[bucket(src, pos as int, 4, HASH_FOUR_LOG_SIZE as nat) as int],
        depth,
        Best { found: false, ml: 0, ol: 0 },
        min_length,
        nice_length,
    )
}

/// The sequence of the match `best` at the position `pos`, with the
/// `literals` bytes before it.
pub open spec fn sequence_at(pos: nat, literals: nat, best: Best) -> EncodeSequence {
    EncodeSequence {
        start: (pos - literals) as usize,
        ll: literals as usize,
        ml: best.ml as usize,
        ol: best.ol as usize,
        cost: 0,
    }
}

/// The bytes that the encoder writes for the rest of the block `src` when
/// it stands at the position `pos` with `literals` bytes before it in no
/// sequence yet, after `misses` positions without a match in a row, and with
/// a finder whose chains are `chains`.
///
/// Within `WINDOW_SIZE` bytes of the end of the block, the bytes that are
/// left are written as the literals of the last sequence. Before that, the
/// finder puts the position in and searches its chain. A match of at least
/// `GLZ_MIN_MATCH` bytes whose header is not longer than the match is written
/// as a sequence with the literals before it; the positions within the match
/// are put in, and the encoder goes on after the match. Else the encoder
/// moves on by one position, and by one more for every `2^SKIP_TRIGGER`
/// misses in a row.
#[verifier::opaque]
pub open spec fn encoded_from(
    src: Seq<u8>,
    chains: Chains,
    depth: int,
    min_length: int,
    nice_length: int,
    pos: nat,
    literals: nat,
    misses: nat,
) -> Seq<u8>
    decreases
            (if pos < src.len() {
                src.len() - pos
            } else {
                0
            }),
{
    if pos + WINDOW_SIZE >= src.len() {
        sequence_bytes(src, last_sequence(src.len() as int, pos - literals), true)
    } else {
        let best = found_at(src, chains, depth, min_length, nice_length, pos);
        let seq = sequence_at(pos, literals, best);
        if best.found && GLZ_MIN_MATCH <= best.ml && header_len(seq, false) <= best.ml {
            sequence_bytes(src, seq, false) + encoded_from(
                src,
                advanced(
                    inserted(chains, src, pos as int),
                    src,
                    pos as int + 1,
                    advance_end(src.len() as int, pos as int, best.ml),
                ),
                depth,
                min_length,
                nice_length,
                (pos + best.ml) as nat,
                0,
                0,
            )
        } else {
            encoded_from(
                src,
                inserted(chains, src, pos as int),
                depth,
                min_length,
                nice_length,
                pos + 1 + misses / 8192,
                literals + 1 + misses / 8192,
                misses + 1,
            )
        }
    }
}

/// The payload that the encoder writes for the block `src` with a finder
/// whose chains are `chains`.
pub open spec fn encoded(
    src: Seq<u8>,
    chains: Chains,
    depth: int,
    min_length: int,
    nice_length: int,
) -> Seq<u8> {
    encoded_from(src, chains, depth, min_length, nice_length, 0, 0, 0)
}

/// What the encoder writes from a position on, by what it finds there.
pub proof fn lemma_encoded_from(
    src: Seq<u8>,
    chains: Chains,
    depth: int,
    min_length: int,
    nice_length: int,
    pos: nat,
    literals: nat,
    misses: nat,
)
    ensures
        ({
            let here = encoded_from(
                src,
                chains,
                depth,
                min_length,
                nice_length,
                pos,
                literals,
                misses,
            );
            let best = found_at(src, chains, depth, min_length, nice_length, pos);
            let seq = sequence_at(pos, literals, best);
            let put = inserted(chains, src, pos as int);
            if pos + WINDOW_SIZE >= src.len() {
                here == sequence_bytes(src, last_sequence(src.len() as int, pos - literals), true)
            } else if best.found && GLZ_MIN_MATCH <= best.ml && header_len(seq, false) <= best.ml {
                here == sequence_bytes(src, seq, false) + encoded_from(
                    src,
                    advanced(
                        put,
                        src,
                        pos as int + 1,
                        advance_end(src.len() as int, pos as int, best.ml),
                    ),
                    depth,
                    min_length,
                    nice_length,
                    (pos + best.ml) as nat,
                    0,
                    0,
                )
            } else {
                here == encoded_from(
                    src,
                    put,
                    depth,
                    min_length,
                    nice_length,
                    pos + 1 + misses / 8192,
                    literals + 1 + misses / 8192,
                    misses + 1,
                )
            }
        }),
{
    reveal_with_fuel(encoded_from, 1);
}

/// Where decoding resumes after `prefix` with the bytes of the block that
/// are in sequences when the encoder stands at `pos`, `prefix` and what the
/// encoder writes from `pos` on are an encoding of the block.
proof fn lemma_encoded_from_encodes(
    prefix: Seq<u8>,
    src: Seq<u8>,
    chains: Chains,
    depth: int,
    min_length: int,
    nice_length: int,
    pos: nat,
    literals: nat,
    misses: nat,
)
    requires
        src.len() <= 0xFFFF_FFFF,
        literals <= pos,
        pos - literals <= src.len(),
        forall|rest: Seq<u8>|
            #[trigger] resumes(prefix, rest, src.subrange(0, pos - literals), src.len() as int),
    ensures
        encodes(
            prefix + encoded_from(
                src,
                chains,
                depth,
                min_length,
                nice_length,
                pos,
                literals,
                misses,
            ),
            src,
        ),
    decreases
            (if pos < src.len() {
                src.len() - pos
            } else {
                0
            }),
{
    lemma_encoded_from(src, chains, depth, min_length, nice_length, pos, literals, misses);
    if pos + WINDOW_SIZE >= src.len() {
        lemma_resumes_last(prefix, src, last_sequence(src.len() as int, pos - literals));
    } else {
        let best = found_at(src, chains, depth, min_length, nice_length, pos);
        let seq = sequence_at(pos, literals, best);
        let put = inserted(chains, src, pos as int);
        if best.found && GLZ_MIN_MATCH <= best.ml && header_len(seq, false) <= best.ml {
            lemma_searched_is_match(
                src,
                put.next,
                pos as int,
                chains.heads[bucket(src, pos as int, 4, HASH_FOUR_LOG_SIZE as nat) as int],
                depth,
                Best { found: false, ml: 0, ol: 0 },
                min_length,
                nice_length,
            );
            let bytes = sequence_bytes(src, seq, false);
            let after = advanced(
                put,
                src,
                pos as int + 1,
                advance_end(src.len() as int, pos as int, best.ml),
            );
            let rest = encoded_from(
                src,
                after,
                depth,
                min_length,
                nice_length,
                (pos + best.ml) as nat,
                0,
                0,
            );
            lemma_resumes_after(prefix, src, seq);
            lemma_encoded_from_encodes(
                prefix + bytes,
                src,
                after,
                depth,
                min_length,
                nice_length,
                (pos + best.ml) as nat,
                0,
                0,
            );
            assert((prefix + bytes) + rest =~= prefix + (bytes + rest));
        } else {
            lemma_encoded_from_encodes(
                prefix,
                src,
                put,
                depth,
                min_length,
                nice_length,
                pos + 1 + misses / 8192,
                literals + 1 + misses / 8192,
                misses + 1,
            );
        }
    }
}

/// Round trip: for every block, whatever the finder holds, the payload that
/// the encoder writes for the block is an encoding of the block.
pub proof fn lemma_encoded_round_trip(
    src: Seq<u8>,
    chains: Chains,
    depth: int,
    min_length: int,
    nice_length: int,
)
    requires
        src.len() <= 0xFFFF_FFFF,
    ensures
        encodes(encoded(src, chains, depth, min_length, nice_length), src),
{
    lemma_resumes_first(src);
    lemma_encoded_from_encodes(
        Seq::empty(),
        src,
        chains,
        depth,
        min_length,
        nice_length,
        0,
        0,
        0,
    );
    assert(Seq::<u8>::empty() + encoded(src, chains, depth, min_length, nice_length) =~= encoded(
        src,
        chains,
        depth,
        min_length,
        nice_length,
    ));
}

/// Compresses the block `src` into the start of `dest` and returns the
/// number of bytes written; the rest of `dest` stays as it was. What was
/// written is the payload of `src` for the finder as it was given; it is an
/// encoding of `src`, and at most five bytes longer. The finder is left with
/// empty buckets.
pub fn compress_block(src: &[u8], dest: &mut [u8], table: &mut HcMatchFinder) -> (written_len:
    usize)
    requires
        src.len() <= MAX_BLOCK_SIZE,
        old(dest).len() >= src.len() + HEADROOM,
    ensures
        written_len <= src.len() + 5,
        ({
            let payload = encoded(
                src@,
                old(table).chains(),
                old(table).depth(),
                old(table).min_match(),
                old(table).nice_match(),
            );
            &&& written_len == payload.len()
            &&& final(dest)@ == written(old(dest)@, 0, payload)
            &&& encodes(payload, src@)
        }),
        final(table).is_reset(),
        final(table).chains().next.len() == old(table).chains().next.len(),
        final(table).depth() == old(table).depth(),
        final(table).min_match() == old(table).min_match(),
        final(table).nice_match() == old(table).nice_match(),
{
    let mut window_start: usize = 0;
    let mut literals_before_match: usize = 0;
    let mut out_position: usize = 0;
    let mut misses: usize = 0;
    let mut sequence = EncodeSequence::default();
    let ghost depth = table.depth();
    let ghost min_length = table.min_match();
    let ghost nice_length = table.nice_match();
    let ghost whole = encoded(src@, table.chains(), depth, min_length, nice_length);

    assert(dest@.subrange(0, 0) + whole =~= whole);

    while window_start + WINDOW_SIZE < src.len()
        invariant
            src.len() <= MAX_BLOCK_SIZE,
            dest.len() == old(dest).len(),
            dest.len() >= src.len() + HEADROOM,
            literals_before_match <= window_start,
            window_start - literals_before_match <= src.len(),
            window_start <= src.len() + 4096,
            misses <= window_start,
            sequence.ml == 0,
            sequence.ol == 0,
            sequence.cost == 0,
            out_position <= window_start - literals_before_match,
            forall|i: int| out_position <= i < dest.len() ==> dest@[i] == old(dest)@[i],
            whole == dest@.subrange(0, out_position as int) + encoded_from(
                src@,
                table.chains(),
                depth,
                min_length,
                nice_length,
                window_start as nat,
                literals_before_match as nat,
                misses as nat,
            ),
            table.chains().next.len() == old(table).chains().next.len(),
            table.depth() == depth,
            table.min_match() == min_length,
            table.nice_match() == nice_length,
            depth == old(table).depth(),
            min_length == old(table).min_match(),
            nice_length == old(table).nice_match(),
        decreases src.len() + 4096 - window_start,
    {
        let ghost prefix = dest@.subrange(0, out_position as int);
        let ghost before = table.chains();
        let ghost best = found_at(
            src@,
            before,
            depth,
            min_length,
            nice_length,
            window_start as nat,
        );
        let ghost here = encoded_from(
            src@,
            before,
            depth,
            min_length,
            nice_length,
            window_start as nat,
            literals_before_match as nat,
            misses as nat,
        );
        proof {
            lemma_encoded_from(
                src@,
                before,
                depth,
                min_length,
                nice_length,
                window_start as nat,
                literals_before_match as nat,
                misses as nat,
            );
        }
        let found = table.longest_four_match(
            src,
            window_start,
            literals_before_match,
            &mut sequence,
        );
        let mut emitted = false;
        if found {
            sequence.ll = literals_before_match;
            if header_size(&sequence) <= sequence.ml {
                let ghost bytes = sequence_bytes(src@, sequence, false);
                proof {
                    lemma_written_prefix(dest@, out_position as int, bytes);
                }
                compress_sequence::<false>(src, dest, &mut out_position, &sequence);
                assert(dest@.subrange(0, out_position as int) == prefix + bytes);
                table.advance_four_match(src, window_start, sequence.ml);
                proof {
                    let rest = encoded_from(
                        src@,
                        table.chains(),
                        depth,
                        min_length,
                        nice_length,
                        (window_start + sequence.ml) as nat,
                        0,
                        0,
                    );
                    assert(sequence == sequence_at(
                        window_start as nat,
                        literals_before_match as nat,
                        best,
                    ));
                    assert(here == bytes + rest);
                    assert(prefix + (bytes + rest) =~= (prefix + bytes) + rest);
                }
                window_start += sequence.ml;
                literals_before_match = 0;
                misses = 0;
                emitted = true;
            }
            sequence.ml = 0;
            sequence.ol = 0;
        }
        if !emitted {
            assert(misses >> 13 <= 2048 && misses >> 13 == misses / 8192) by (bit_vector)
                requires
                    misses <= 16_777_216,
            ;
            let skip = 1 + (misses >> SKIP_TRIGGER);
            misses += 1;
            window_start += skip;
            literals_before_match += skip;
        }
    }

    let ghost prefix = dest@.subrange(0, out_position as int);
    sequence.ll = src.len() - (window_start - literals_before_match);
    sequence.ol = 0;
    sequence.start = src.len() - sequence.ll;
    sequence.ml = GLZ_MIN_MATCH;
    let ghost bytes = sequence_bytes(src@, sequence, true);
    assert(sequence == last_sequence(src@.len() as int, window_start - literals_before_match));
    proof {
        lemma_encoded_from(
            src@,
            table.chains(),
            depth,
            min_length,
            nice_length,
            window_start as nat,
            literals_before_match as nat,
            misses as nat,
        );
        lemma_mod_bytes_len((sequence.ll - 7) as nat);
        lemma_written_prefix(dest@, out_position as int, bytes);
        lemma_encoded_round_trip(src@, old(table).chains(), depth, min_length, nice_length);
    }
    compress_sequence::<true>(src, dest, &mut out_position, &sequence);
    proof {
        let payload = dest@.subrange(0, out_position as int);
        assert(payload == prefix + bytes);
        assert(payload == whole);
        assert(dest@ =~= written(old(dest)@, 0, payload));
    }
    table.reset();
    out_position
}

} // verus!
