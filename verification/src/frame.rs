//! Compressed blocks: a payload behind its length, a 32-bit little-endian
//! number.

use crate::compress::{compress_block, encoded, HEADROOM};
use crate::decompress::decode_sequences;
use crate::copy::written;
use crate::format::{decode_payload, encodes, CorruptPayload};
use crate::match_finder::{HcMatchFinder, MAX_BLOCK_SIZE};
use vstd::prelude::*;
use vstd::slice::slice_subrange;

verus! {

/// Number of bytes of the length that stands before a payload.
pub const LENGTH_BYTES: usize = 4;

/// The number that the first four bytes of `bytes` hold, least significant
/// byte first.
pub open spec fn le_u32(bytes: Seq<u8>) -> nat {
    (bytes[0] + 256 * bytes[1] + 65_536 * bytes[2] + 16_777_216 * bytes[3]) as nat
}

/// The four bytes of `v`, least significant first.
pub open spec fn u32_le_bytes(v: nat) -> Seq<u8> {
    seq![
        (v % 256) as u8,
        ((v / 256) % 256) as u8,
        ((v / 65_536) % 256) as u8,
        ((v / 16_777_216) % 256) as u8,
    ]
}

/// A number below two to the power of 32 is read back from its four bytes.
pub proof fn lemma_le_u32_round_trip(v: nat)
    requires
        v <= u32::MAX,
    ensures
        le_u32(u32_le_bytes(v)) == v,
{
}

/// Whether `frame` is a compressed block of `block`: the length of a
/// payload, then a payload of that length that is an encoding of `block`.
pub open spec fn is_frame_of(frame: Seq<u8>, block: Seq<u8>) -> bool {
    &&& frame.len() >= LENGTH_BYTES
    &&& le_u32(frame) == frame.len() - LENGTH_BYTES
    &&& encodes(frame.subrange(LENGTH_BYTES as int, frame.len() as int), block)
}

/// Writes `length` to the first four bytes of `dest`, least significant byte
/// first.
pub fn write_block_length(length: usize, dest: &mut [u8])
    requires
        length <= u32::MAX,
        old(dest).len() >= LENGTH_BYTES,
    ensures
        final(dest)@ == written(old(dest)@, 0, u32_le_bytes(length as nat)),
{
    dest[0] = (length % 256) as u8;
    dest[1] = ((length / 256) % 256) as u8;
    dest[2] = ((length / 65_536) % 256) as u8;
    dest[3] = ((length / 16_777_216) % 256) as u8;
    assert(dest@ =~= written(old(dest)@, 0, u32_le_bytes(length as nat)));
}

/// Reads the length that the first four bytes of `header` hold, least
/// significant byte first.
pub fn read_block_length(header: &[u8]) -> (length: usize)
    requires
        header.len() >= LENGTH_BYTES,
    ensures
        length == le_u32(header@),
{
    header[0] as usize + 256 * (header[1] as usize) + 65_536 * (header[2] as usize) + 16_777_216
        * (header[3] as usize)
}

/// The compressed block of a payload: its length in four bytes, then the
/// payload.
pub open spec fn framed(payload: Seq<u8>) -> Seq<u8> {
    u32_le_bytes(payload.len()) + payload
}

/// The compressed block of an encoding of `block` is a compressed block of
/// `block`.
pub proof fn lemma_framed_is_frame(payload: Seq<u8>, block: Seq<u8>)
    requires
        payload.len() <= u32::MAX,
        encodes(payload, block),
    ensures
        is_frame_of(framed(payload), block),
{
    let frame = framed(payload);
    lemma_le_u32_round_trip(payload.len());
    assert(frame.subrange(LENGTH_BYTES as int, frame.len() as int) =~= payload);
}

/// Compresses the block `src` into the start of `dest` as a compressed
/// block, and returns the number of bytes written: the length of the payload
/// in four bytes, then the payload of `src` for the finder as it was given.
/// The rest of `dest` stays as it was. The finder is left with empty buckets.
pub fn compress_frame(src: &[u8], dest: &mut [u8], table: &mut HcMatchFinder) -> (written_len:
    usize)
    requires
        src.len() <= MAX_BLOCK_SIZE,
        old(dest).len() >= src.len() + HEADROOM + LENGTH_BYTES,
    ensures
        written_len <= src.len() + 5 + LENGTH_BYTES,
        ({
            let frame = framed(
                encoded(
                    src@,
                    old(table).chains(),
                    old(table).depth(),
                    old(table).min_match(),
                    old(table).nice_match(),
                ),
            );
            &&& written_len == frame.len()
            &&& final(dest)@ == written(old(dest)@, 0, frame)
            &&& is_frame_of(frame, src@)
        }),
        final(table).is_reset(),
        final(table).chains().next.len() == old(table).chains().next.len(),
        final(table).depth() == old(table).depth(),
        final(table).min_match() == old(table).min_match(),
        final(table).nice_match() == old(table).nice_match(),
{
    let ghost payload = encoded(
        src@,
        table.chains(),
        table.depth(),
        table.min_match(),
        table.nice_match(),
    );
    let (head, body) = dest.split_at_mut(LENGTH_BYTES);
    let bytes_compressed = compress_block(src, body, table);
    write_block_length(bytes_compressed, head);
    proof {
        lemma_framed_is_frame(payload, src@);
        assert(dest@ =~= written(old(dest)@, 0, framed(payload)));
    }
    bytes_compressed + LENGTH_BYTES
}

/// Decodes the compressed block at the start of `input` into `output`, and
/// returns the number of bytes of `input` that the block takes and the number
/// of bytes decoded. The block is truncated where `input` is shorter than
/// the four bytes of the length, and its size mismatches where it is shorter
/// than the payload is said to be.
pub fn decompress_frame(input: &[u8], output: &mut [u8]) -> (r: Result<
    (usize, usize),
    CorruptPayload,
>)
    ensures
        final(output).len() == old(output).len(),
        input.len() < LENGTH_BYTES ==> r == Err::<(usize, usize), CorruptPayload>(
            CorruptPayload::Truncated,
        ),
        input.len() >= LENGTH_BYTES && le_u32(input@) > input.len() - LENGTH_BYTES ==> r == Err::<
            (usize, usize),
            CorruptPayload,
        >(CorruptPayload::SizeMismatch),
        input.len() >= LENGTH_BYTES && le_u32(input@) <= input.len() - LENGTH_BYTES
            ==> (match decode_payload(
            input@.subrange(LENGTH_BYTES as int, LENGTH_BYTES + le_u32(input@)),
            old(output).len() as int,
        ) {
            Ok(block) => {
                &&& r == Ok::<(usize, usize), CorruptPayload>(
                    ((LENGTH_BYTES + le_u32(input@)) as usize, block.len() as usize),
                )
                &&& final(output)@ == written(old(output)@, 0, block)
            },
            Err(e) => r == Err::<(usize, usize), CorruptPayload>(e),
        }),
{
    if input.len() < LENGTH_BYTES {
        return Err(CorruptPayload::Truncated);
    }
    let size = read_block_length(input);
    let body = slice_subrange(input, LENGTH_BYTES, input.len());
    assert(size <= body.len() ==> body@.subrange(0, size as int) =~= input@.subrange(
        LENGTH_BYTES as int,
        LENGTH_BYTES + size,
    ));
    match decode_sequences(body, size, output) {
        Ok(produced) => Ok((LENGTH_BYTES + size, produced)),
        Err(e) => Err(e),
    }
}

} // verus!
