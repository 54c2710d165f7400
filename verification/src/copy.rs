//! Byte-copy primitives: fixed-size copies between two buffers and the
//! forward, overlap-tolerant copy inside one buffer.

use vstd::prelude::*;

verus! {

/// `buf` with `bytes` written over `buf[at..at + bytes.len()]`.
pub open spec fn written(buf: Seq<u8>, at: int, bytes: Seq<u8>) -> Seq<u8> {
    Seq::new(buf.len(), |i: int| if at <= i < at + bytes.len() { bytes[i - at] } else { buf[i] })
}

/// After `bytes` were written at `at`, the buffer up to their end is the
/// buffer up to `at`, then `bytes`; its length is as before.
pub proof fn lemma_written_prefix(buf: Seq<u8>, at: int, bytes: Seq<u8>)
    requires
        0 <= at,
        at + bytes.len() <= buf.len(),
    ensures
        written(buf, at, bytes).len() == buf.len(),
        written(buf, at, bytes).subrange(0, at + bytes.len()) == buf.subrange(0, at) + bytes,
{
    assert(written(buf, at, bytes).subrange(0, at + bytes.len()) =~= buf.subrange(0, at) + bytes);
}

/// `buf` after a forward, byte-by-byte copy of `n` bytes from `buf[so..]` to
/// `buf[d..]`. Byte `k` of the copy reads `buf[so + k]` as it is after the
/// bytes before it were written, so an overlapping copy repeats its source.
pub open spec fn forward_copied(buf: Seq<u8>, so: int, d: int, n: nat) -> Seq<u8>
    decreases n,
{
    if n == 0 {
        buf
    } else {
        let prev = forward_copied(buf, so, d, (n - 1) as nat);
        prev.update(d + n - 1, prev[so + n - 1])
    }
}

/// A forward copy keeps the length of the buffer and every byte outside the
/// destination range.
pub proof fn lemma_forward_copied_frame(buf: Seq<u8>, so: int, d: int, n: nat)
    requires
        0 <= d,
        d + n <= buf.len(),
    ensures
        forward_copied(buf, so, d, n).len() == buf.len(),
        forall|i: int|
            0 <= i < buf.len() && !(d <= i < d + n) ==> forward_copied(buf, so, d, n)[i] == buf[i],
    decreases n,
{
    if n > 0 {
        lemma_forward_copied_frame(buf, so, d, (n - 1) as nat);
    }
}

/// A forward copy of `n` bytes over a distance of `d - so` bytes makes the
/// destination range periodic: each byte written equals the byte that stands
/// that distance before it.
pub proof fn lemma_forward_copied_periodic(buf: Seq<u8>, so: int, d: int, n: nat)
    requires
        0 <= so < d,
        d + n <= buf.len(),
    ensures
        forall|i: int|
            d <= i < d + n ==> #[trigger] forward_copied(buf, so, d, n)[i] == forward_copied(
                buf,
                so,
                d,
                n,
            )[i - (d - so)],
    decreases n,
{
    if n > 0 {
        let m = (n - 1) as nat;
        lemma_forward_copied_periodic(buf, so, d, m);
        lemma_forward_copied_frame(buf, so, d, m);
    }
}

/// Forward overlap replication: a forward copy over a distance of one byte
/// fills the destination range with the byte that stands just before it.
pub proof fn lemma_forward_copied_replicates(buf: Seq<u8>, d: int, n: nat)
    requires
        1 <= d,
        d + n <= buf.len(),
    ensures
        forall|i: int|
            d <= i < d + n ==> #[trigger] forward_copied(buf, d - 1, d, n)[i] == buf[d - 1],
    decreases n,
{
    if n > 0 {
        let m = (n - 1) as nat;
        lemma_forward_copied_replicates(buf, d, m);
        lemma_forward_copied_frame(buf, d - 1, d, m);
    }
}

/// Copies exactly `SIZE` bytes from `src[src_offset..]` to `dest[dest_offset..]`.
/// With `SAFE` set, one more byte of room is asked of `dest`.
pub fn const_copy<const SIZE: usize, const SAFE: bool>(
    src: &[u8],
    dest: &mut [u8],
    src_offset: usize,
    dest_offset: usize,
)
    requires
        src_offset + SIZE <= src.len(),
        dest_offset + SIZE <= old(dest).len(),
        SAFE ==> dest_offset + SIZE < old(dest).len(),
    ensures
        final(dest)@ == written(
            old(dest)@,
            dest_offset as int,
            src@.subrange(src_offset as int, src_offset + SIZE),
        ),
{
    let mut i: usize = 0;
    while i < SIZE
        invariant
            i <= SIZE,
            src_offset + SIZE <= src.len(),
            dest_offset + SIZE <= dest.len(),
            dest@ == written(
                old(dest)@,
                dest_offset as int,
                src@.subrange(src_offset as int, src_offset + i),
            ),
        decreases SIZE - i,
    {
        dest[dest_offset + i] = src[src_offset + i];
        i += 1;
    }
}

/// Copies `SIZE` bytes from `dest[src_offset..]` to `dest[dest_offset..]`,
/// forward and one byte at a time. Where the two ranges overlap, bytes written
/// earlier in the call are read again.
pub fn fixed_copy_within<const SIZE: usize>(dest: &mut [u8], src_offset: usize, dest_offset: usize)
    requires
        src_offset + SIZE <= old(dest).len(),
        dest_offset + SIZE <= old(dest).len(),
    ensures
        final(dest)@ == forward_copied(
            old(dest)@,
            src_offset as int,
            dest_offset as int,
            SIZE as nat,
        ),
{
    let mut i: usize = 0;
    while i < SIZE
        invariant
            i <= SIZE,
            src_offset + SIZE <= dest.len(),
            dest_offset + SIZE <= dest.len(),
            dest.len() == old(dest).len(),
            dest@ == forward_copied(old(dest)@, src_offset as int, dest_offset as int, i as nat),
        decreases SIZE - i,
    {
        let byte = dest[src_offset + i];
        dest[dest_offset + i] = byte;
        i += 1;
    }
}

/// Copies `num_literals` bytes from `src[src_offset..]` to
/// `dest[dest_offset..]`, sixteen at a time while sixteen are left.
pub fn copy_literals(
    src: &[u8],
    dest: &mut [u8],
    src_offset: usize,
    dest_offset: usize,
    num_literals: usize,
)
    requires
        src_offset + num_literals <= src.len(),
        dest_offset + num_literals <= old(dest).len(),
    ensures
        final(dest)@ == written(
            old(dest)@,
            dest_offset as int,
            src@.subrange(src_offset as int, src_offset + num_literals),
        ),
{
    let mut counter: usize = 0;
    while num_literals - counter >= 16
        invariant
            counter <= num_literals,
            src_offset + num_literals <= src.len(),
            dest_offset + num_literals <= dest.len(),
            dest@ == written(
                old(dest)@,
                dest_offset as int,
                src@.subrange(src_offset as int, src_offset + counter),
            ),
        decreases num_literals - counter,
    {
        const_copy::<16, false>(src, dest, src_offset + counter, dest_offset + counter);
        counter += 16;
    }
    while counter < num_literals
        invariant
            counter <= num_literals,
            src_offset + num_literals <= src.len(),
            dest_offset + num_literals <= dest.len(),
            dest@ == written(
                old(dest)@,
                dest_offset as int,
                src@.subrange(src_offset as int, src_offset + counter),
            ),
        decreases num_literals - counter,
    {
        dest[dest_offset + counter] = src[src_offset + counter];
        counter += 1;
    }
}

} // verus!
